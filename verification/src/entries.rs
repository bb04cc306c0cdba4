//! Lists of paths with something told of each.
use vstd::prelude::*;

use crate::order::path_less;

verus! {

/// A list of pairs as the code holds it, its paths taken as text.
pub open spec fn entries<T>(v: Seq<(String, T)>) -> Seq<(Seq<char>, T)> {
    v.map_values(|e: (String, T)| (e.0@, e.1))
}

/// Whether no path of a list comes before one that precedes it.
pub open spec fn paths_sorted<T>(s: Seq<(Seq<char>, T)>) -> bool {
    forall|i: int, j: int| #![trigger s[i], s[j]] 0 <= i < j < s.len() ==> !path_less(s[j].0, s[i].0)
}

/// Whether each path of a list comes before all that follow it.
pub open spec fn paths_strictly_sorted<T>(s: Seq<(Seq<char>, T)>) -> bool {
    forall|i: int, j: int| #![trigger s[i], s[j]] 0 <= i < j < s.len() ==> path_less(s[i].0, s[j].0)
}

/// Whether no path occurs twice in a list.
pub open spec fn paths_distinct<T>(s: Seq<(Seq<char>, T)>) -> bool {
    forall|i: int, j: int| #![trigger s[i], s[j]] 0 <= i < j < s.len() ==> s[i].0 != s[j].0
}

/// What a list tells of one path, in its order.
pub open spec fn at<T>(s: Seq<(Seq<char>, T)>, p: Seq<char>) -> Seq<T>
    decreases s.len(),
{
    if s.len() == 0 {
        seq![]
    } else if s.last().0 == p {
        at(s.drop_last(), p).push(s.last().1)
    } else {
        at(s.drop_last(), p)
    }
}

/// The values for which `f` gives something, each replaced by it.
pub open spec fn pick_values<T, U>(s: Seq<T>, f: spec_fn(T) -> Option<U>) -> Seq<U>
    decreases s.len(),
{
    if s.len() == 0 {
        seq![]
    } else {
        match f(s.last()) {
            Some(u) => pick_values(s.drop_last(), f).push(u),
            None => pick_values(s.drop_last(), f),
        }
    }
}

/// The entries for which `f` gives something, told of each instead of what was told before.
pub open spec fn pick<T, U>(s: Seq<(Seq<char>, T)>, f: spec_fn(T) -> Option<U>) -> Seq<
    (Seq<char>, U),
>
    decreases s.len(),
{
    if s.len() == 0 {
        seq![]
    } else {
        match f(s.last().1) {
            Some(u) => pick(s.drop_last(), f).push((s.last().0, u)),
            None => pick(s.drop_last(), f),
        }
    }
}

/// The paths of a list.
pub open spec fn paths_of<T>(s: Seq<(Seq<char>, T)>) -> Seq<Seq<char>> {
    s.map_values(|e: (Seq<char>, T)| e.0)
}

/// A list of paths as the code holds it, taken as text.
pub open spec fn texts(v: Seq<String>) -> Seq<Seq<char>> {
    v.map_values(|s: String| s@)
}

/// What a list tells last of each of its paths.
pub open spec fn contents<T>(s: Seq<(Seq<char>, T)>) -> Map<Seq<char>, T>
    decreases s.len(),
{
    if s.len() == 0 {
        Map::empty()
    } else {
        contents(s.drop_last()).insert(s.last().0, s.last().1)
    }
}

// ---------------------------------------------------------------------------------------------
// Facts
// ---------------------------------------------------------------------------------------------

pub proof fn lemma_entries_push<T>(v: Seq<(String, T)>, e: (String, T))
    ensures
        entries(v.push(e)) == entries(v).push((e.0@, e.1)),
{
    assert(entries(v.push(e)) =~= entries(v).push((e.0@, e.1)));
}

pub proof fn lemma_texts_push(v: Seq<String>, t: String)
    ensures
        texts(v.push(t)) == texts(v).push(t@),
{
    assert(texts(v.push(t)) =~= texts(v).push(t@));
}

pub proof fn lemma_paths_push<T>(s: Seq<(Seq<char>, T)>, e: (Seq<char>, T))
    ensures
        paths_of(s.push(e)) == paths_of(s).push(e.0),
{
    assert(paths_of(s.push(e)) =~= paths_of(s).push(e.0));
}

pub proof fn lemma_at_push<T>(s: Seq<(Seq<char>, T)>, e: (Seq<char>, T), p: Seq<char>)
    ensures
        at(s.push(e), p) == if e.0 == p {
            at(s, p).push(e.1)
        } else {
            at(s, p)
        },
{
    assert(s.push(e).drop_last() =~= s);
}

pub proof fn lemma_at_concat<T>(s: Seq<(Seq<char>, T)>, t: Seq<(Seq<char>, T)>, p: Seq<char>)
    ensures
        at(s + t, p) == at(s, p) + at(t, p),
    decreases t.len(),
{
    if t.len() == 0 {
        assert(s + t =~= s);
        assert(at(s, p) + at(t, p) =~= at(s, p));
    } else {
        assert((s + t).drop_last() =~= s + t.drop_last());
        lemma_at_concat(s, t.drop_last(), p);
        assert(at(s + t, p) =~= at(s, p) + at(t, p));
    }
}

pub proof fn lemma_at_absent<T>(s: Seq<(Seq<char>, T)>, p: Seq<char>)
    requires
        forall|i: int| 0 <= i < s.len() ==> (#[trigger] s[i]).0 != p,
    ensures
        at(s, p) == Seq::<T>::empty(),
    decreases s.len(),
{
    if s.len() > 0 {
        assert(s.drop_last() =~= s.take(s.len() - 1));
        assert forall|i: int| 0 <= i < s.drop_last().len() implies (#[trigger] s.drop_last()[i]).0
            != p by {
            assert(s.drop_last()[i] == s[i]);
        }
        assert(s.last() == s[s.len() - 1]);
        lemma_at_absent(s.drop_last(), p);
    }
}

/// An entry of a list is told of its path.
pub proof fn lemma_at_contains<T>(s: Seq<(Seq<char>, T)>, i: int)
    requires
        0 <= i < s.len(),
    ensures
        at(s, s[i].0).contains(s[i].1),
    decreases s.len(),
{
    let p = s[i].0;
    if i == s.len() - 1 {
        let t = at(s.drop_last(), p);
        assert(t.push(s[i].1)[t.len() as int] == s[i].1);
    } else {
        lemma_at_contains(s.drop_last(), i);
        let t = at(s.drop_last(), p);
        let k = choose|k: int| 0 <= k < t.len() && t[k] == s[i].1;
        assert(at(s, p)[k] == s[i].1);
    }
}

/// What is told of a path is an entry of the list.
pub proof fn lemma_at_from<T>(s: Seq<(Seq<char>, T)>, p: Seq<char>, v: T)
    requires
        at(s, p).contains(v),
    ensures
        s.contains((p, v)),
    decreases s.len(),
{
    if s.len() > 0 {
        let t = at(s.drop_last(), p);
        if s.last().0 == p && s.last().1 == v {
            assert(s[s.len() - 1] == (p, v));
        } else {
            let k = choose|k: int| 0 <= k < at(s, p).len() && at(s, p)[k] == v;
            assert(t[k] == v);
            lemma_at_from(s.drop_last(), p, v);
            let j = choose|j: int|
                0 <= j < s.drop_last().len() && s.drop_last()[j] == (p, v);
            assert(s[j] == (p, v));
        }
    }
}

/// Picking commutes with looking at one path.
pub proof fn lemma_at_pick<T, U>(
    s: Seq<(Seq<char>, T)>,
    f: spec_fn(T) -> Option<U>,
    p: Seq<char>,
)
    ensures
        at(pick(s, f), p) == pick_values(at(s, p), f),
    decreases s.len(),
{
    if s.len() > 0 {
        lemma_at_pick(s.drop_last(), f, p);
        match f(s.last().1) {
            Some(u) => {
                lemma_at_push(pick(s.drop_last(), f), (s.last().0, u), p);
            },
            None => {},
        }
        if s.last().0 == p {
            assert(at(s, p).drop_last() =~= at(s.drop_last(), p));
        }
    }
}

pub proof fn lemma_pick_push<T, U>(
    s: Seq<(Seq<char>, T)>,
    e: (Seq<char>, T),
    f: spec_fn(T) -> Option<U>,
)
    ensures
        pick(s.push(e), f) == match f(e.1) {
            Some(u) => pick(s, f).push((e.0, u)),
            None => pick(s, f),
        },
{
    assert(s.push(e).drop_last() =~= s);
}

/// What is picked out of a list comes from it, in its order.
pub proof fn lemma_pick_entries<T, U>(s: Seq<(Seq<char>, T)>, f: spec_fn(T) -> Option<U>)
    ensures
        forall|i: int|
            #![trigger pick(s, f)[i]]
            0 <= i < pick(s, f).len() ==> exists|k: int|
                0 <= k < s.len() && (#[trigger] s[k]).0 == pick(s, f)[i].0 && f(s[k].1) == Some(
                    pick(s, f)[i].1,
                ),
        paths_sorted(s) ==> paths_sorted(pick(s, f)),
        paths_strictly_sorted(s) ==> paths_strictly_sorted(pick(s, f)),
    decreases s.len(),
{
    if s.len() > 0 {
        let t = s.drop_last();
        lemma_pick_entries(t, f);
        assert forall|i: int| 0 <= i < pick(s, f).len() implies exists|k: int|
            0 <= k < s.len() && (#[trigger] s[k]).0 == pick(s, f)[i].0 && f(s[k].1) == Some(
                #[trigger] pick(s, f)[i].1,
            ) by {
            if i < pick(t, f).len() {
                assert(pick(s, f)[i] == pick(t, f)[i]);
                let k = choose|k: int|
                    0 <= k < t.len() && (#[trigger] t[k]).0 == pick(t, f)[i].0 && f(t[k].1) == Some(
                        pick(t, f)[i].1,
                    );
                assert(s[k] == t[k]);
            } else {
                assert(s[s.len() - 1] == s.last());
            }
        }
        if f(s.last().1) is Some {
            let n = pick(t, f).len() as int;
            if paths_sorted(s) {
                assert forall|i: int, j: int|
                    #![trigger pick(s, f)[i], pick(s, f)[j]]
                    0 <= i < j < pick(s, f).len() implies !path_less(
                    pick(s, f)[j].0,
                    pick(s, f)[i].0,
                ) by {
                    assert(pick(s, f)[i] == pick(t, f)[i]);
                    if j < n {
                        assert(pick(s, f)[j] == pick(t, f)[j]);
                    } else {
                        let k = choose|k: int|
                            0 <= k < t.len() && (#[trigger] t[k]).0 == pick(t, f)[i].0;
                        assert(s[k] == t[k]);
                        assert(s[s.len() - 1] == s.last());
                    }
                }
            }
            if paths_strictly_sorted(s) {
                assert forall|i: int, j: int|
                    #![trigger pick(s, f)[i], pick(s, f)[j]]
                    0 <= i < j < pick(s, f).len() implies path_less(
                    pick(s, f)[i].0,
                    pick(s, f)[j].0,
                ) by {
                    assert(pick(s, f)[i] == pick(t, f)[i]);
                    if j < n {
                        assert(pick(s, f)[j] == pick(t, f)[j]);
                    } else {
                        let k = choose|k: int|
                            0 <= k < t.len() && (#[trigger] t[k]).0 == pick(t, f)[i].0;
                        assert(s[k] == t[k]);
                        assert(s[s.len() - 1] == s.last());
                    }
                }
            }
        }
    }
}

/// A sorted list without its last entry is sorted.
pub proof fn lemma_sorted_drop_last<T>(s: Seq<(Seq<char>, T)>)
    requires
        s.len() > 0,
        paths_sorted(s),
    ensures
        paths_sorted(s.drop_last()),
{
    assert forall|i: int, j: int|
        #![trigger s.drop_last()[i], s.drop_last()[j]]
        0 <= i < j < s.drop_last().len() implies !path_less(
        s.drop_last()[j].0,
        s.drop_last()[i].0,
    ) by {
        assert(!path_less(s[j].0, s[i].0));
    }
}

/// Where `f` gives something for all that a list tells, no entry is left out.
pub proof fn lemma_pick_all<T, U>(s: Seq<(Seq<char>, T)>, f: spec_fn(T) -> Option<U>)
    requires
        forall|k: int| 0 <= k < s.len() ==> f((#[trigger] s[k]).1) is Some,
    ensures
        pick(s, f).len() == s.len(),
        forall|k: int|
            0 <= k < s.len() ==> #[trigger] pick(s, f)[k] == (s[k].0, f(s[k].1)->0),
    decreases s.len(),
{
    if s.len() > 0 {
        let t = s.drop_last();
        assert(s[s.len() - 1] == s.last());
        assert forall|k: int| 0 <= k < t.len() implies f((#[trigger] t[k]).1) is Some by {
            assert(t[k] == s[k]);
        }
        lemma_pick_all(t, f);
        assert forall|k: int| 0 <= k < s.len() implies #[trigger] pick(s, f)[k] == (
            s[k].0,
            f(s[k].1)->0,
        ) by {
            if k < t.len() {
                assert(pick(s, f)[k] == pick(t, f)[k]);
            }
        }
    }
}

/// What is picked out of some values is what `f` gives for them, and nothing else.
pub proof fn lemma_picked<T, U>(s: Seq<T>, f: spec_fn(T) -> Option<U>)
    ensures
        forall|i: int|
            0 <= i < s.len() && f(#[trigger] s[i]) is Some ==> pick_values(s, f).contains(
                f(s[i])->0,
            ),
        forall|k: int|
            #![trigger pick_values(s, f)[k]]
            0 <= k < pick_values(s, f).len() ==> exists|i: int|
                0 <= i < s.len() && f(#[trigger] s[i]) == Some(pick_values(s, f)[k]),
    decreases s.len(),
{
    if s.len() > 0 {
        let front = s.drop_last();
        lemma_picked(front, f);
        let before = pick_values(front, f);
        assert forall|i: int| 0 <= i < s.len() && f(#[trigger] s[i]) is Some implies pick_values(
            s,
            f,
        ).contains(f(s[i])->0) by {
            if i < s.len() - 1 {
                assert(s[i] == front[i]);
                let k = choose|k: int| 0 <= k < before.len() && before[k] == f(s[i])->0;
                assert(pick_values(s, f)[k] == f(s[i])->0);
            } else {
                assert(pick_values(s, f)[before.len() as int] == f(s[i])->0);
            }
        }
        assert forall|k: int|
            #![trigger pick_values(s, f)[k]]
            0 <= k < pick_values(s, f).len() implies exists|i: int|
            0 <= i < s.len() && f(#[trigger] s[i]) == Some(pick_values(s, f)[k]) by {
            if k < before.len() {
                assert(before[k] == pick_values(s, f)[k]);
                let i = choose|i: int|
                    0 <= i < front.len() && f(#[trigger] front[i]) == Some(before[k]);
                assert(s[i] == front[i]);
            } else {
                assert(f(s[s.len() - 1]) == Some(pick_values(s, f)[k]));
            }
        }
    }
}

/// The contents of a list are what is told last of each path that it names.
pub proof fn lemma_contents_at<T>(s: Seq<(Seq<char>, T)>, p: Seq<char>)
    ensures
        contents(s).contains_key(p) <==> at(s, p).len() > 0,
        contents(s).contains_key(p) ==> contents(s)[p] == at(s, p).last(),
    decreases s.len(),
{
    if s.len() > 0 {
        lemma_contents_at(s.drop_last(), p);
    }
}

/// Whether a list, as the code holds it, tells something of a path.
pub open spec fn lists<T>(v: Seq<(String, T)>, p: Seq<char>, t: T) -> bool {
    exists|k: int| 0 <= k < v.len() && (#[trigger] v[k]).0@ == p && v[k].1 == t
}

pub proof fn lemma_lists<T>(v: Seq<(String, T)>, p: Seq<char>, t: T)
    ensures
        lists(v, p, t) <==> entries(v).contains((p, t)),
{
    let s = entries(v);
    if lists(v, p, t) {
        let k = choose|k: int| 0 <= k < v.len() && (#[trigger] v[k]).0@ == p && v[k].1 == t;
        assert(s[k] == (p, t));
    }
    if s.contains((p, t)) {
        let k = choose|k: int| 0 <= k < s.len() && s[k] == (p, t);
        assert(v[k].0@ == p && v[k].1 == t);
    }
}

/// What is told of a path is what the list has for it.
pub proof fn lemma_at_has<T>(s: Seq<(Seq<char>, T)>, p: Seq<char>, t: T)
    ensures
        at(s, p).contains(t) <==> s.contains((p, t)),
{
    if at(s, p).contains(t) {
        lemma_at_from(s, p, t);
    }
    if s.contains((p, t)) {
        let k = choose|k: int| 0 <= k < s.len() && s[k] == (p, t);
        lemma_at_contains(s, k);
    }
}

/// An entry is picked exactly where one of the list gives it.
pub proof fn lemma_pick_has<T, U>(
    s: Seq<(Seq<char>, T)>,
    f: spec_fn(T) -> Option<U>,
    p: Seq<char>,
    u: U,
)
    ensures
        pick(s, f).contains((p, u)) <==> exists|t: T| #[trigger]
            s.contains((p, t)) && f(t) == Some(u),
{
    lemma_at_pick(s, f, p);
    lemma_at_has(pick(s, f), p, u);
    let here = at(s, p);
    lemma_picked(here, f);
    if pick(s, f).contains((p, u)) {
        let k = choose|k: int| 0 <= k < pick_values(here, f).len() && pick_values(here, f)[k] == u;
        let i = choose|i: int| 0 <= i < here.len() && f(#[trigger] here[i]) == Some(
            pick_values(here, f)[k],
        );
        assert(here.contains(here[i]));
        lemma_at_has(s, p, here[i]);
        assert(s.contains((p, here[i])) && f(here[i]) == Some(u));
    }
    if exists|t: T| #[trigger] s.contains((p, t)) && f(t) == Some(u) {
        let t = choose|t: T| #[trigger] s.contains((p, t)) && f(t) == Some(u);
        lemma_at_has(s, p, t);
        let i = choose|i: int| 0 <= i < here.len() && here[i] == t;
        assert(f(here[i]) is Some);
    }
}

} // verus!

//! What holds of diffs and of the plans made from them.
use vstd::prelude::*;

use crate::diffing::{
    as_added, as_deleted, as_modified, as_type_changed, change_between, change_from, changes_at,
    is_diff, Diff, DiffItemAdded, DiffItemDeleted, DiffItemModified, DiffItemTypeChanged, DiffType,
};
use crate::entries::{
    at, contents, entries, lemma_at_absent, lemma_at_concat, lemma_at_contains, lemma_at_from,
    lemma_at_pick, lemma_contents_at, lemma_pick_all, lemma_pick_entries, lemma_picked,
    lemma_sorted_drop_last, paths_distinct, paths_of, paths_sorted, paths_strictly_sorted, pick,
    pick_values, texts,
};
use crate::order::{
    law_parent_before_child, law_path_order_irreflexive, law_path_order_total, path_less,
};
use crate::plan::{
    added_dirs, added_files, is_empty, is_reduced, modified_files, new_dirs, new_files, removed,
    replaced, significant, SyncPlan,
};
use crate::snapshot::{SnapshotFileMetadata, SnapshotItemMetadata};

verus! {

// ---------------------------------------------------------------------------------------------
// Facts about sorted lists
// ---------------------------------------------------------------------------------------------

/// The last entry of a sorted list has the largest path: one that the list names does not come
/// after it.
proof fn lemma_last_not_before<T>(s: Seq<(Seq<char>, T)>, p: Seq<char>)
    requires
        paths_sorted(s),
        at(s, p).len() > 0,
    ensures
        s.len() > 0,
        !path_less(s.last().0, p),
{
    let v = at(s, p)[0];
    assert(at(s, p).contains(v));
    lemma_at_from(s, p, v);
    let i = choose|i: int| 0 <= i < s.len() && s[i] == (p, v);
    assert(s[i].0 == p);
    assert(s[s.len() - 1] == s.last());
    if i == s.len() - 1 {
        law_path_order_irreflexive(p);
    }
}

/// Sorted lists that tell the same of each path are the same.
proof fn lemma_sorted_lists_equal<T>(s: Seq<(Seq<char>, T)>, t: Seq<(Seq<char>, T)>)
    requires
        paths_sorted(s),
        paths_sorted(t),
        forall|p: Seq<char>| #[trigger] at(s, p) == at(t, p),
    ensures
        s == t,
    decreases s.len(),
{
    if s.len() == 0 {
        if t.len() > 0 {
            let p = t.last().0;
            assert(at(t, p).len() > 0);
            assert(at(s, p) == at(t, p));
        }
        assert(s =~= t);
    } else {
        let p = s.last().0;
        assert(at(s, p).len() > 0);
        assert(at(s, p) == at(t, p));
        lemma_last_not_before(t, p);
        let q = t.last().0;
        assert(at(t, q).len() > 0);
        assert(at(s, q) == at(t, q));
        lemma_last_not_before(s, q);
        law_path_order_total(p, q);
        assert(p == q);
        assert(s.last().1 == at(s, p).last());
        assert(t.last().1 == at(t, p).last());
        let (s1, t1) = (s.drop_last(), t.drop_last());
        lemma_sorted_drop_last(s);
        lemma_sorted_drop_last(t);
        assert forall|x: Seq<char>| #[trigger] at(s1, x) == at(t1, x) by {
            assert(at(s, x) == at(t, x));
            if x == p {
                assert(at(s1, x) =~= at(s, x).drop_last());
                assert(at(t1, x) =~= at(t, x).drop_last());
            }
        }
        lemma_sorted_lists_equal(s1, t1);
        assert(s =~= s1.push(s.last()));
        assert(t =~= t1.push(t.last()));
    }
}

/// A list that tells at most one thing of each path names no path twice.
proof fn lemma_single_is_distinct<T>(s: Seq<(Seq<char>, T)>)
    requires
        forall|p: Seq<char>| (#[trigger] at(s, p)).len() <= 1,
    ensures
        paths_distinct(s),
    decreases s.len(),
{
    if s.len() > 0 {
        let t = s.drop_last();
        assert forall|p: Seq<char>| (#[trigger] at(t, p)).len() <= 1 by {
            assert(at(s, p).len() <= 1);
        }
        lemma_single_is_distinct(t);
        assert forall|i: int, j: int|
            #![trigger s[i], s[j]]
            0 <= i < j < s.len() implies s[i].0 != s[j].0 by {
            if j < s.len() - 1 {
                assert(t[i].0 != t[j].0);
            } else if s[i].0 == s[j].0 {
                assert(t[i] == s[i]);
                lemma_at_contains(t, i);
                assert(at(s, s[i].0).len() <= 1);
            }
        }
    }
}

/// A list that names no path twice tells at most one thing of each path: its contents.
proof fn lemma_distinct_at<T>(s: Seq<(Seq<char>, T)>, p: Seq<char>)
    requires
        paths_distinct(s),
    ensures
        at(s, p) == if contents(s).contains_key(p) {
            seq![contents(s)[p]]
        } else {
            seq![]
        },
    decreases s.len(),
{
    lemma_contents_at(s, p);
    if s.len() > 0 {
        let t = s.drop_last();
        assert forall|i: int, j: int|
            #![trigger t[i], t[j]]
            0 <= i < j < t.len() implies t[i].0 != t[j].0 by {
            assert(s[i].0 != s[j].0);
        }
        lemma_distinct_at(t, p);
        if s.last().0 == p {
            assert forall|i: int| 0 <= i < t.len() implies (#[trigger] t[i]).0 != p by {
                assert(s[i].0 != s[s.len() - 1].0);
            }
            lemma_at_absent(t, p);
        }
    }
    assert(at(s, p) =~= if contents(s).contains_key(p) {
        seq![contents(s)[p]]
    } else {
        seq![]
    });
}

/// Where a sorted list names no path twice, its paths rise.
proof fn lemma_distinct_sorted_rises<T>(s: Seq<(Seq<char>, T)>)
    requires
        paths_sorted(s),
        paths_distinct(s),
    ensures
        paths_strictly_sorted(s),
{
    assert forall|i: int, j: int|
        #![trigger s[i], s[j]]
        0 <= i < j < s.len() implies path_less(s[i].0, s[j].0) by {
        law_path_order_total(s[i].0, s[j].0);
    }
}

/// What happened at a path, where the local snapshot names no path twice.
spec fn change_at(
    local: Map<Seq<char>, SnapshotItemMetadata>,
    remote: Map<Seq<char>, SnapshotItemMetadata>,
    p: Seq<char>,
) -> Option<DiffType> {
    if local.contains_key(p) && remote.contains_key(p) {
        change_between(remote[p], local[p])
    } else if local.contains_key(p) {
        Some(DiffType::Added(DiffItemAdded { new: local[p] }))
    } else if remote.contains_key(p) {
        Some(DiffType::Deleted(DiffItemDeleted { prev: remote[p] }))
    } else {
        None
    }
}

spec fn as_seq<T>(o: Option<T>) -> Seq<T> {
    match o {
        Some(v) => seq![v],
        None => seq![],
    }
}

proof fn lemma_pick_single<T, U>(v: T, f: spec_fn(T) -> Option<U>)
    ensures
        pick_values(seq![v], f) == as_seq(f(v)),
        pick_values(Seq::<T>::empty(), f) == Seq::<U>::empty(),
{
    assert(pick_values(Seq::<T>::empty(), f) =~= Seq::<U>::empty());
    assert(seq![v].drop_last() =~= Seq::<T>::empty());
    assert(seq![v].last() == v);
    assert(pick_values(seq![v], f) =~= as_seq(f(v)));
}

proof fn lemma_change_at(
    local: Seq<(Seq<char>, SnapshotItemMetadata)>,
    remote: Seq<(Seq<char>, SnapshotItemMetadata)>,
    p: Seq<char>,
)
    requires
        paths_distinct(local) || !contents(local).contains_key(p) || !contents(remote).contains_key(
            p,
        ),
    ensures
        changes_at(local, remote, p) == as_seq(change_at(contents(local), contents(remote), p)),
{
    let l = contents(local);
    let r = contents(remote);
    if l.contains_key(p) && r.contains_key(p) {
        lemma_distinct_at(local, p);
        lemma_pick_single(l[p], change_from(r[p]));
    }
}

/// What the lists of a diff tell of one path.
proof fn lemma_lists_at(
    d: Diff,
    local: Seq<(Seq<char>, SnapshotItemMetadata)>,
    remote: Seq<(Seq<char>, SnapshotItemMetadata)>,
    p: Seq<char>,
)
    requires
        is_diff(d, local, remote),
        paths_distinct(local) || !contents(local).contains_key(p) || !contents(remote).contains_key(
            p,
        ),
    ensures
        ({
            let c = change_at(contents(local), contents(remote), p);
            &&& at(entries(d.added@), p) == (match c {
                Some(DiffType::Added(i)) => seq![i],
                _ => seq![],
            })
            &&& at(entries(d.modified@), p) == (match c {
                Some(DiffType::Modified(i)) => seq![i],
                _ => seq![],
            })
            &&& at(entries(d.type_changed@), p) == (match c {
                Some(DiffType::TypeChanged(i)) => seq![i],
                _ => seq![],
            })
            &&& at(entries(d.deleted@), p) == (match c {
                Some(DiffType::Deleted(i)) => seq![i],
                _ => seq![],
            })
        }),
{
    lemma_change_at(local, remote, p);
    let c = change_at(contents(local), contents(remote), p);
    let t = changes_at(local, remote, p);
    assert(at(entries(d.added@), p) == pick_values(t, as_added()));
    assert(at(entries(d.modified@), p) == pick_values(t, as_modified()));
    assert(at(entries(d.type_changed@), p) == pick_values(t, as_type_changed()));
    assert(at(entries(d.deleted@), p) == pick_values(t, as_deleted()));
    match c {
        Some(v) => {
            lemma_pick_single(v, as_added());
            lemma_pick_single(v, as_modified());
            lemma_pick_single(v, as_type_changed());
            lemma_pick_single(v, as_deleted());
        },
        None => {},
    }
}

// ---------------------------------------------------------------------------------------------
// Laws of diffs
// ---------------------------------------------------------------------------------------------

/// Two snapshots have one diff: its lists do not depend on how they were found.
pub proof fn law_diff_is_determined(
    d: Diff,
    e: Diff,
    local: Seq<(Seq<char>, SnapshotItemMetadata)>,
    remote: Seq<(Seq<char>, SnapshotItemMetadata)>,
)
    requires
        is_diff(d, local, remote),
        is_diff(e, local, remote),
    ensures
        entries(d.added@) == entries(e.added@),
        entries(d.modified@) == entries(e.modified@),
        entries(d.type_changed@) == entries(e.type_changed@),
        entries(d.deleted@) == entries(e.deleted@),
{
    assert forall|p: Seq<char>| #[trigger]
        at(entries(d.added@), p) == at(entries(e.added@), p) by {
        assert(at(entries(d.added@), p) == pick_values(changes_at(local, remote, p), as_added()));
    }
    assert forall|p: Seq<char>| #[trigger]
        at(entries(d.modified@), p) == at(entries(e.modified@), p) by {
        assert(at(entries(d.modified@), p) == pick_values(
            changes_at(local, remote, p),
            as_modified(),
        ));
    }
    assert forall|p: Seq<char>| #[trigger]
        at(entries(d.type_changed@), p) == at(entries(e.type_changed@), p) by {
        assert(at(entries(d.type_changed@), p) == pick_values(
            changes_at(local, remote, p),
            as_type_changed(),
        ));
    }
    assert forall|p: Seq<char>| #[trigger]
        at(entries(d.deleted@), p) == at(entries(e.deleted@), p) by {
        assert(at(entries(d.deleted@), p) == pick_values(
            changes_at(local, remote, p),
            as_deleted(),
        ));
    }
    lemma_sorted_lists_equal(entries(d.added@), entries(e.added@));
    lemma_sorted_lists_equal(entries(d.modified@), entries(e.modified@));
    lemma_sorted_lists_equal(entries(d.type_changed@), entries(e.type_changed@));
    lemma_sorted_lists_equal(entries(d.deleted@), entries(e.deleted@));
}

/// Whether a path is in a list.
pub open spec fn names<T>(s: Seq<(Seq<char>, T)>, p: Seq<char>) -> bool {
    exists|i: int| 0 <= i < s.len() && (#[trigger] s[i]).0 == p
}

proof fn lemma_names_at<T>(s: Seq<(Seq<char>, T)>, p: Seq<char>)
    ensures
        names(s, p) <==> at(s, p).len() > 0,
{
    if names(s, p) {
        let i = choose|i: int| 0 <= i < s.len() && (#[trigger] s[i]).0 == p;
        lemma_at_contains(s, i);
    }
    if at(s, p).len() > 0 {
        let v = at(s, p)[0];
        assert(at(s, p).contains(v));
        lemma_at_from(s, p, v);
        let i = choose|i: int| 0 <= i < s.len() && s[i] == (p, v);
        assert(s[i].0 == p);
    }
}

/// Where the local snapshot names no path twice, a path is in at most one list of the diff, and
/// there once, in path order.
pub proof fn law_each_path_once(
    d: Diff,
    local: Seq<(Seq<char>, SnapshotItemMetadata)>,
    remote: Seq<(Seq<char>, SnapshotItemMetadata)>,
)
    requires
        is_diff(d, local, remote),
        paths_distinct(local),
    ensures
        paths_strictly_sorted(entries(d.added@)),
        paths_strictly_sorted(entries(d.modified@)),
        paths_strictly_sorted(entries(d.type_changed@)),
        paths_strictly_sorted(entries(d.deleted@)),
        forall|p: Seq<char>|
            #![trigger names(entries(d.added@), p)]
            #![trigger names(entries(d.modified@), p)]
            #![trigger names(entries(d.type_changed@), p)]
            #![trigger names(entries(d.deleted@), p)]
            {
                &&& names(entries(d.added@), p) ==> !names(entries(d.modified@), p) && !names(
                    entries(d.type_changed@),
                    p,
                ) && !names(entries(d.deleted@), p)
                &&& names(entries(d.modified@), p) ==> !names(entries(d.type_changed@), p)
                    && !names(entries(d.deleted@), p)
                &&& names(entries(d.type_changed@), p) ==> !names(entries(d.deleted@), p)
            },
{
    let (a, m) = (entries(d.added@), entries(d.modified@));
    let (t, x) = (entries(d.type_changed@), entries(d.deleted@));
    assert forall|p: Seq<char>| (#[trigger] at(a, p)).len() <= 1 by {
        lemma_lists_at(d, local, remote, p);
    }
    assert forall|p: Seq<char>| (#[trigger] at(m, p)).len() <= 1 by {
        lemma_lists_at(d, local, remote, p);
    }
    assert forall|p: Seq<char>| (#[trigger] at(t, p)).len() <= 1 by {
        lemma_lists_at(d, local, remote, p);
    }
    assert forall|p: Seq<char>| (#[trigger] at(x, p)).len() <= 1 by {
        lemma_lists_at(d, local, remote, p);
    }
    lemma_single_is_distinct(a);
    lemma_single_is_distinct(m);
    lemma_single_is_distinct(t);
    lemma_single_is_distinct(x);
    lemma_distinct_sorted_rises(a);
    lemma_distinct_sorted_rises(m);
    lemma_distinct_sorted_rises(t);
    lemma_distinct_sorted_rises(x);
    assert forall|p: Seq<char>|
        #![trigger names(a, p)]
        #![trigger names(m, p)]
        #![trigger names(t, p)]
        #![trigger names(x, p)]
        {
            &&& names(a, p) ==> !names(m, p) && !names(t, p) && !names(x, p)
            &&& names(m, p) ==> !names(t, p) && !names(x, p)
            &&& names(t, p) ==> !names(x, p)
        } by {
        lemma_lists_at(d, local, remote, p);
        lemma_names_at(a, p);
        lemma_names_at(m, p);
        lemma_names_at(t, p);
        lemma_names_at(x, p);
    }
}

/// Additions and deletions name each path once, whatever the snapshots are.
pub proof fn law_added_and_deleted_once(
    d: Diff,
    local: Seq<(Seq<char>, SnapshotItemMetadata)>,
    remote: Seq<(Seq<char>, SnapshotItemMetadata)>,
)
    requires
        is_diff(d, local, remote),
    ensures
        paths_strictly_sorted(entries(d.added@)),
        paths_strictly_sorted(entries(d.deleted@)),
{
    let (a, x) = (entries(d.added@), entries(d.deleted@));
    assert forall|p: Seq<char>| (#[trigger] at(a, p)).len() <= 1 by {
        lemma_only_comparisons_repeat(local, remote, p);
        assert(at(a, p) == pick_values(changes_at(local, remote, p), as_added()));
    }
    assert forall|p: Seq<char>| (#[trigger] at(x, p)).len() <= 1 by {
        lemma_only_comparisons_repeat(local, remote, p);
        assert(at(x, p) == pick_values(changes_at(local, remote, p), as_deleted()));
    }
    lemma_single_is_distinct(a);
    lemma_single_is_distinct(x);
    lemma_distinct_sorted_rises(a);
    lemma_distinct_sorted_rises(x);
}

proof fn lemma_only_comparisons_repeat(
    local: Seq<(Seq<char>, SnapshotItemMetadata)>,
    remote: Seq<(Seq<char>, SnapshotItemMetadata)>,
    p: Seq<char>,
)
    ensures
        pick_values(changes_at(local, remote, p), as_added()).len() <= 1,
        pick_values(changes_at(local, remote, p), as_deleted()).len() <= 1,
{
    let c = changes_at(local, remote, p);
    let l = contents(local);
    let r = contents(remote);
    if l.contains_key(p) && r.contains_key(p) {
        lemma_comparisons(at(local, p), r[p]);
    } else if c.len() > 0 {
        assert(c =~= seq![c[0]]);
        lemma_pick_single(c[0], as_added());
        lemma_pick_single(c[0], as_deleted());
    }
}

/// Comparing items neither adds nor deletes.
proof fn lemma_comparisons(s: Seq<SnapshotItemMetadata>, prev: SnapshotItemMetadata)
    ensures
        pick_values(pick_values(s, change_from(prev)), as_added()).len() == 0,
        pick_values(pick_values(s, change_from(prev)), as_deleted()).len() == 0,
    decreases s.len(),
{
    if s.len() > 0 {
        lemma_comparisons(s.drop_last(), prev);
        let before = pick_values(s.drop_last(), change_from(prev));
        match change_between(prev, s.last()) {
            Some(c) => {
                assert(before.push(c).drop_last() =~= before);
            },
            None => {},
        }
    }
}

/// Whether a list tells the same of a path each time that it names it.
pub open spec fn consistent<T>(s: Seq<(Seq<char>, T)>) -> bool {
    forall|i: int, j: int|
        #![trigger s[i], s[j]]
        0 <= i < j < s.len() && s[i].0 == s[j].0 ==> s[i].1 == s[j].1
}

proof fn lemma_pick_nothing<T, U>(s: Seq<T>, f: spec_fn(T) -> Option<U>)
    requires
        forall|k: int| 0 <= k < s.len() ==> f(#[trigger] s[k]) is None,
    ensures
        pick_values(s, f) == Seq::<U>::empty(),
    decreases s.len(),
{
    if s.len() > 0 {
        assert(s.last() == s[s.len() - 1]);
        assert forall|k: int| 0 <= k < s.drop_last().len() implies f(
            #[trigger] s.drop_last()[k],
        ) is None by {
            assert(s.drop_last()[k] == s[k]);
        }
        lemma_pick_nothing(s.drop_last(), f);
    }
}

/// Nothing happened at a path of which both sides tell the same.
proof fn lemma_no_changes_at(
    local: Seq<(Seq<char>, SnapshotItemMetadata)>,
    remote: Seq<(Seq<char>, SnapshotItemMetadata)>,
    p: Seq<char>,
)
    requires
        consistent(local),
        contents(local) == contents(remote),
    ensures
        changes_at(local, remote, p) == Seq::<DiffType>::empty(),
{
    let here = at(local, p);
    lemma_contents_at(local, p);
    if contents(local).contains_key(p) {
        let f = change_from(contents(remote)[p]);
        assert forall|k: int| 0 <= k < here.len() implies f(#[trigger] here[k]) is None by {
            assert(here.contains(here[k]) && here.contains(here[here.len() - 1]));
            lemma_at_from(local, p, here[k]);
            lemma_at_from(local, p, here.last());
            let i = choose|i: int| 0 <= i < local.len() && local[i] == (p, here[k]);
            let j = choose|j: int| 0 <= j < local.len() && local[j] == (p, here.last());
            assert(local[i].0 == local[j].0);
            assert(here[k] == here.last());
        }
        lemma_pick_nothing(here, f);
    }
}

/// Snapshots with the same contents do not differ, where the local one does not tell different
/// things of one path.
pub proof fn law_same_contents_no_diff(
    d: Diff,
    local: Seq<(Seq<char>, SnapshotItemMetadata)>,
    remote: Seq<(Seq<char>, SnapshotItemMetadata)>,
)
    requires
        is_diff(d, local, remote),
        consistent(local),
        contents(local) == contents(remote),
    ensures
        is_empty(d),
{
    if d.added@.len() > 0 {
        let p = entries(d.added@).last().0;
        lemma_no_changes_at(local, remote, p);
        assert(at(entries(d.added@), p).len() > 0);
    }
    if d.modified@.len() > 0 {
        let p = entries(d.modified@).last().0;
        lemma_no_changes_at(local, remote, p);
        assert(at(entries(d.modified@), p).len() > 0);
    }
    if d.type_changed@.len() > 0 {
        let p = entries(d.type_changed@).last().0;
        lemma_no_changes_at(local, remote, p);
        assert(at(entries(d.type_changed@), p).len() > 0);
    }
    if d.deleted@.len() > 0 {
        let p = entries(d.deleted@).last().0;
        lemma_no_changes_at(local, remote, p);
        assert(at(entries(d.deleted@), p).len() > 0);
    }
}

/// A change is of some kind.
proof fn lemma_some_kind(s: Seq<DiffType>)
    requires
        s.len() > 0,
    ensures
        pick_values(s, as_added()).len() > 0 || pick_values(s, as_modified()).len() > 0
            || pick_values(s, as_type_changed()).len() > 0 || pick_values(s, as_deleted()).len() > 0,
{
    match s.last() {
        DiffType::Added(_) => {
            assert(as_added()(s.last()) is Some);
        },
        DiffType::Modified(_) => {
            assert(as_modified()(s.last()) is Some);
        },
        DiffType::TypeChanged(_) => {
            assert(as_type_changed()(s.last()) is Some);
        },
        DiffType::Deleted(_) => {
            assert(as_deleted()(s.last()) is Some);
        },
    }
}

/// Where a diff is empty, the contents are the same.
pub proof fn law_no_diff_same_contents(
    d: Diff,
    local: Seq<(Seq<char>, SnapshotItemMetadata)>,
    remote: Seq<(Seq<char>, SnapshotItemMetadata)>,
)
    requires
        is_diff(d, local, remote),
        is_empty(d),
    ensures
        contents(local) == contents(remote),
{
    let (l, r) = (contents(local), contents(remote));
    assert forall|p: Seq<char>| #[trigger] changes_at(local, remote, p).len() == 0 by {
        let c = changes_at(local, remote, p);
        assert(at(entries(d.added@), p) == pick_values(c, as_added()));
        assert(at(entries(d.modified@), p) == pick_values(c, as_modified()));
        assert(at(entries(d.type_changed@), p) == pick_values(c, as_type_changed()));
        assert(at(entries(d.deleted@), p) == pick_values(c, as_deleted()));
        if c.len() > 0 {
            lemma_some_kind(c);
        }
    }
    assert forall|p: Seq<char>| #[trigger] l.contains_key(p) <==> r.contains_key(p) by {
        assert(changes_at(local, remote, p).len() == 0);
    }
    assert forall|p: Seq<char>| #[trigger] l.contains_key(p) implies l[p] == r[p] by {
        assert(changes_at(local, remote, p).len() == 0);
        lemma_contents_at(local, p);
        assert(change_from(r[p])(at(local, p).last()) is None);
    }
    assert(l =~= r);
}

/// The metadata of an addition.
spec fn added_item() -> spec_fn(DiffItemAdded) -> Option<SnapshotItemMetadata> {
    |a: DiffItemAdded| Some(a.new)
}

/// The modification that leads back.
spec fn undone() -> spec_fn(DiffItemModified) -> Option<DiffItemModified> {
    |m: DiffItemModified| Some(DiffItemModified { prev: m.new, new: m.prev })
}

/// The change of type that leads back.
spec fn changed_back() -> spec_fn(DiffItemTypeChanged) -> Option<DiffItemTypeChanged> {
    |t: DiffItemTypeChanged| Some(DiffItemTypeChanged { prev: t.new, new: t.prev })
}

/// Seen from the other side, what was added was deleted. Where neither snapshot names a path
/// twice, the files that were modified and the items whose type changed are the same, in the same
/// order, with `prev` and `new` in each other's place.
pub proof fn law_reversed_diff(
    d: Diff,
    e: Diff,
    a: Seq<(Seq<char>, SnapshotItemMetadata)>,
    b: Seq<(Seq<char>, SnapshotItemMetadata)>,
)
    requires
        is_diff(d, a, b),
        is_diff(e, b, a),
    ensures
        d.added@.len() == e.deleted@.len(),
        forall|i: int|
            #![trigger d.added@[i]]
            0 <= i < d.added@.len() ==> d.added@[i].0@ == e.deleted@[i].0@ && d.added@[i].1.new
                == e.deleted@[i].1.prev,
        d.deleted@.len() == e.added@.len(),
        forall|i: int|
            #![trigger d.deleted@[i]]
            0 <= i < d.deleted@.len() ==> d.deleted@[i].0@ == e.added@[i].0@
                && d.deleted@[i].1.prev == e.added@[i].1.new,
        paths_distinct(a) && paths_distinct(b) ==> {
            &&& d.modified@.len() == e.modified@.len()
            &&& forall|i: int|
                #![trigger d.modified@[i]]
                0 <= i < d.modified@.len() ==> {
                    &&& d.modified@[i].0@ == e.modified@[i].0@
                    &&& d.modified@[i].1.prev == e.modified@[i].1.new
                    &&& d.modified@[i].1.new == e.modified@[i].1.prev
                }
            &&& d.type_changed@.len() == e.type_changed@.len()
            &&& forall|i: int|
                #![trigger d.type_changed@[i]]
                0 <= i < d.type_changed@.len() ==> {
                    &&& d.type_changed@[i].0@ == e.type_changed@[i].0@
                    &&& d.type_changed@[i].1.prev == e.type_changed@[i].1.new
                    &&& d.type_changed@[i].1.new == e.type_changed@[i].1.prev
                }
        },
{
    lemma_reversed_additions(d, e, a, b);
    lemma_reversed_additions(e, d, b, a);
    assert forall|i: int| #![trigger d.deleted@[i]] 0 <= i < d.deleted@.len() implies d.deleted@[i].0@
        == e.added@[i].0@ && d.deleted@[i].1.prev == e.added@[i].1.new by {
        assert(e.added@[i].0@ == d.deleted@[i].0@);
    }
    if paths_distinct(a) && paths_distinct(b) {
        lemma_reversed_changes(d, e, a, b);
    }
}

proof fn lemma_reversed_additions(
    d: Diff,
    e: Diff,
    a: Seq<(Seq<char>, SnapshotItemMetadata)>,
    b: Seq<(Seq<char>, SnapshotItemMetadata)>,
)
    requires
        is_diff(d, a, b),
        is_diff(e, b, a),
    ensures
        d.added@.len() == e.deleted@.len(),
        forall|i: int|
            #![trigger d.added@[i]]
            0 <= i < d.added@.len() ==> d.added@[i].0@ == e.deleted@[i].0@ && d.added@[i].1.new
                == e.deleted@[i].1.prev,
{
    let x = entries(d.added@);
    let y = entries(e.deleted@);
    let s = pick(x, added_item());
    let t = pick(y, removed());
    lemma_pick_entries(x, added_item());
    lemma_pick_entries(y, removed());
    assert forall|p: Seq<char>| #[trigger] at(s, p) == at(t, p) by {
        lemma_at_pick(x, added_item(), p);
        lemma_at_pick(y, removed(), p);
        assert(at(x, p) == pick_values(changes_at(a, b, p), as_added()));
        assert(at(y, p) == pick_values(changes_at(b, a, p), as_deleted()));
        lemma_added_is_deleted(a, b, p);
    }
    lemma_sorted_lists_equal(s, t);
    lemma_pick_all(x, added_item());
    lemma_pick_all(y, removed());
    assert forall|i: int| #![trigger d.added@[i]] 0 <= i < d.added@.len() implies d.added@[i].0@
        == e.deleted@[i].0@ && d.added@[i].1.new == e.deleted@[i].1.prev by {
        assert(s[i] == (x[i].0, x[i].1.new));
        assert(t[i] == (y[i].0, y[i].1.prev));
    }
}

proof fn lemma_reversed_changes(
    d: Diff,
    e: Diff,
    a: Seq<(Seq<char>, SnapshotItemMetadata)>,
    b: Seq<(Seq<char>, SnapshotItemMetadata)>,
)
    requires
        is_diff(d, a, b),
        is_diff(e, b, a),
        paths_distinct(a),
        paths_distinct(b),
    ensures
        d.modified@.len() == e.modified@.len(),
        forall|i: int|
            #![trigger d.modified@[i]]
            0 <= i < d.modified@.len() ==> {
                &&& d.modified@[i].0@ == e.modified@[i].0@
                &&& d.modified@[i].1.prev == e.modified@[i].1.new
                &&& d.modified@[i].1.new == e.modified@[i].1.prev
            },
        d.type_changed@.len() == e.type_changed@.len(),
        forall|i: int|
            #![trigger d.type_changed@[i]]
            0 <= i < d.type_changed@.len() ==> {
                &&& d.type_changed@[i].0@ == e.type_changed@[i].0@
                &&& d.type_changed@[i].1.prev == e.type_changed@[i].1.new
                &&& d.type_changed@[i].1.new == e.type_changed@[i].1.prev
            },
{
    let (x, y) = (entries(d.modified@), entries(e.modified@));
    let (u, v) = (entries(d.type_changed@), entries(e.type_changed@));
    let (s, t) = (pick(x, undone()), pick(u, changed_back()));
    lemma_pick_entries(x, undone());
    lemma_pick_entries(u, changed_back());
    assert forall|p: Seq<char>| #[trigger] at(s, p) == at(y, p) by {
        lemma_reversed_at(d, e, a, b, p);
    }
    assert forall|p: Seq<char>| #[trigger] at(t, p) == at(v, p) by {
        lemma_reversed_at(d, e, a, b, p);
    }
    lemma_sorted_lists_equal(s, y);
    lemma_sorted_lists_equal(t, v);
    lemma_pick_all(x, undone());
    lemma_pick_all(u, changed_back());
    assert forall|i: int| #![trigger d.modified@[i]] 0 <= i < d.modified@.len() implies {
        &&& d.modified@[i].0@ == e.modified@[i].0@
        &&& d.modified@[i].1.prev == e.modified@[i].1.new
        &&& d.modified@[i].1.new == e.modified@[i].1.prev
    } by {
        assert(s[i] == (x[i].0, undone()(x[i].1)->0));
        assert(y[i] == (e.modified@[i].0@, e.modified@[i].1));
    }
    assert forall|i: int| #![trigger d.type_changed@[i]] 0 <= i < d.type_changed@.len() implies {
        &&& d.type_changed@[i].0@ == e.type_changed@[i].0@
        &&& d.type_changed@[i].1.prev == e.type_changed@[i].1.new
        &&& d.type_changed@[i].1.new == e.type_changed@[i].1.prev
    } by {
        assert(t[i] == (u[i].0, changed_back()(u[i].1)->0));
        assert(v[i] == (e.type_changed@[i].0@, e.type_changed@[i].1));
    }
}

proof fn lemma_reversed_at(
    d: Diff,
    e: Diff,
    a: Seq<(Seq<char>, SnapshotItemMetadata)>,
    b: Seq<(Seq<char>, SnapshotItemMetadata)>,
    p: Seq<char>,
)
    requires
        is_diff(d, a, b),
        is_diff(e, b, a),
        paths_distinct(a),
        paths_distinct(b),
    ensures
        at(pick(entries(d.modified@), undone()), p) == at(entries(e.modified@), p),
        at(pick(entries(d.type_changed@), changed_back()), p) == at(entries(e.type_changed@), p),
{
    lemma_lists_at(d, a, b, p);
    lemma_lists_at(e, b, a, p);
    lemma_at_pick(entries(d.modified@), undone(), p);
    lemma_at_pick(entries(d.type_changed@), changed_back(), p);
    match change_at(contents(a), contents(b), p) {
        Some(DiffType::Modified(i)) => {
            lemma_pick_single(i, undone());
        },
        Some(DiffType::TypeChanged(i)) => {
            lemma_pick_single(i, changed_back());
        },
        _ => {},
    }
    assert(pick_values(Seq::<DiffItemModified>::empty(), undone()) =~= seq![]);
    assert(pick_values(Seq::<DiffItemTypeChanged>::empty(), changed_back()) =~= seq![]);
}

proof fn lemma_added_is_deleted(
    a: Seq<(Seq<char>, SnapshotItemMetadata)>,
    b: Seq<(Seq<char>, SnapshotItemMetadata)>,
    p: Seq<char>,
)
    ensures
        pick_values(pick_values(changes_at(a, b, p), as_added()), added_item()) == pick_values(
            pick_values(changes_at(b, a, p), as_deleted()),
            removed(),
        ),
{
    let (l, r) = (contents(a), contents(b));
    if l.contains_key(p) && r.contains_key(p) {
        lemma_comparisons(at(a, p), r[p]);
        lemma_comparisons(at(b, p), l[p]);
    } else if l.contains_key(p) {
        let x = DiffItemAdded { new: l[p] };
        let y = DiffItemDeleted { prev: l[p] };
        lemma_pick_single(DiffType::Added(x), as_added());
        lemma_pick_single(DiffType::Deleted(y), as_deleted());
        lemma_pick_single(x, added_item());
        lemma_pick_single(y, removed());
    } else if r.contains_key(p) {
        lemma_pick_single(DiffType::Deleted(DiffItemDeleted { prev: r[p] }), as_added());
        lemma_pick_single(DiffType::Added(DiffItemAdded { new: r[p] }), as_deleted());
    }
}

// ---------------------------------------------------------------------------------------------
// Laws of plans
// ---------------------------------------------------------------------------------------------

/// What is left after the items of a list were deleted, one after the other.
pub open spec fn after_deletions(
    m: Map<Seq<char>, SnapshotItemMetadata>,
    s: Seq<(Seq<char>, SnapshotItemMetadata)>,
) -> Map<Seq<char>, SnapshotItemMetadata>
    decreases s.len(),
{
    if s.len() == 0 {
        m
    } else {
        after_deletions(m, s.drop_last()).remove(s.last().0)
    }
}

/// What is there after directories were created, one after the other.
pub open spec fn after_creations(
    m: Map<Seq<char>, SnapshotItemMetadata>,
    dirs: Seq<Seq<char>>,
) -> Map<Seq<char>, SnapshotItemMetadata>
    decreases dirs.len(),
{
    if dirs.len() == 0 {
        m
    } else {
        after_creations(m, dirs.drop_last()).insert(dirs.last(), SnapshotItemMetadata::Directory)
    }
}

/// What is there after files were sent, one after the other.
pub open spec fn after_transfers(
    m: Map<Seq<char>, SnapshotItemMetadata>,
    s: Seq<(Seq<char>, SnapshotFileMetadata)>,
) -> Map<Seq<char>, SnapshotItemMetadata>
    decreases s.len(),
{
    if s.len() == 0 {
        m
    } else {
        after_transfers(m, s.drop_last()).insert(
            s.last().0,
            SnapshotItemMetadata::File(s.last().1),
        )
    }
}

/// What the server holds after a plan was carried out, each request of it taken as done.
pub open spec fn after_plan(
    m: Map<Seq<char>, SnapshotItemMetadata>,
    plan: SyncPlan,
) -> Map<Seq<char>, SnapshotItemMetadata> {
    after_transfers(
        after_creations(
            after_deletions(m, entries(plan.to_delete@)),
            texts(plan.to_create_dirs@),
        ),
        entries(plan.to_transfer@),
    )
}

proof fn lemma_after_deletions(
    m: Map<Seq<char>, SnapshotItemMetadata>,
    s: Seq<(Seq<char>, SnapshotItemMetadata)>,
    p: Seq<char>,
)
    ensures
        after_deletions(m, s).contains_key(p) <==> m.contains_key(p) && at(s, p).len() == 0,
        after_deletions(m, s).contains_key(p) ==> after_deletions(m, s)[p] == m[p],
    decreases s.len(),
{
    if s.len() > 0 {
        lemma_after_deletions(m, s.drop_last(), p);
    }
}

proof fn lemma_after_creations(
    m: Map<Seq<char>, SnapshotItemMetadata>,
    dirs: Seq<Seq<char>>,
    p: Seq<char>,
)
    ensures
        after_creations(m, dirs).contains_key(p) <==> m.contains_key(p) || dirs.contains(p),
        dirs.contains(p) ==> after_creations(m, dirs)[p] == SnapshotItemMetadata::Directory,
        !dirs.contains(p) ==> after_creations(m, dirs)[p] == m[p],
    decreases dirs.len(),
{
    if dirs.len() > 0 {
        let front = dirs.drop_last();
        lemma_after_creations(m, front, p);
        assert(dirs =~= front.push(dirs.last()));
        if front.contains(p) {
            let i = choose|i: int| 0 <= i < front.len() && front[i] == p;
            assert(dirs[i] == p);
        }
        if dirs.contains(p) && dirs.last() != p {
            let i = choose|i: int| 0 <= i < dirs.len() && dirs[i] == p;
            assert(front[i] == p);
        }
        if dirs.last() == p {
            assert(dirs[dirs.len() - 1] == p);
        }
    }
}

proof fn lemma_after_transfers(
    m: Map<Seq<char>, SnapshotItemMetadata>,
    s: Seq<(Seq<char>, SnapshotFileMetadata)>,
    p: Seq<char>,
)
    ensures
        after_transfers(m, s).contains_key(p) <==> m.contains_key(p) || at(s, p).len() > 0,
        at(s, p).len() > 0 ==> after_transfers(m, s)[p] == SnapshotItemMetadata::File(
            at(s, p).last(),
        ),
        at(s, p).len() == 0 ==> after_transfers(m, s)[p] == m[p],
    decreases s.len(),
{
    if s.len() > 0 {
        lemma_after_transfers(m, s.drop_last(), p);
    }
}

proof fn lemma_at_reverse<T>(s: Seq<(Seq<char>, T)>, p: Seq<char>)
    ensures
        at(s.reverse(), p).len() == at(s, p).len(),
    decreases s.len(),
{
    if s.len() > 0 {
        let front = s.drop_last();
        lemma_at_reverse(front, p);
        assert(s.reverse() =~= seq![s.last()] + front.reverse());
        lemma_at_concat(seq![s.last()], front.reverse(), p);
        assert(seq![s.last()].drop_last() =~= Seq::<(Seq<char>, T)>::empty());
        assert(at(seq![s.last()].drop_last(), p).len() == 0);
    }
}

proof fn lemma_paths_at<T>(s: Seq<(Seq<char>, T)>, p: Seq<char>)
    ensures
        paths_of(s).contains(p) <==> at(s, p).len() > 0,
{
    lemma_names_at(s, p);
    if paths_of(s).contains(p) {
        let i = choose|i: int| 0 <= i < paths_of(s).len() && paths_of(s)[i] == p;
        assert(s[i].0 == p);
    }
    if names(s, p) {
        let i = choose|i: int| 0 <= i < s.len() && (#[trigger] s[i]).0 == p;
        assert(paths_of(s)[i] == p);
    }
}

/// What a plan does at one path.
proof fn lemma_plan_at(d: Diff, plan: SyncPlan, p: Seq<char>)
    requires
        plan.carries_out(d),
    ensures
        at(entries(plan.to_delete@), p).len() == pick_values(
            at(entries(d.deleted@), p),
            removed(),
        ).len() + pick_values(at(entries(d.type_changed@), p), replaced()).len(),
        texts(plan.to_create_dirs@).contains(p) <==> pick_values(
            at(entries(d.added@), p),
            added_dirs(),
        ).len() + pick_values(at(entries(d.type_changed@), p), new_dirs()).len() > 0,
        at(entries(plan.to_transfer@), p) == pick_values(at(entries(d.added@), p), added_files())
            + pick_values(at(entries(d.modified@), p), modified_files()) + pick_values(
            at(entries(d.type_changed@), p),
            new_files(),
        ),
{
    let (a, m) = (entries(d.added@), entries(d.modified@));
    let (t, x) = (entries(d.type_changed@), entries(d.deleted@));
    lemma_at_pick(x, removed(), p);
    lemma_at_pick(t, replaced(), p);
    lemma_at_concat(pick(x, removed()), pick(t, replaced()), p);
    lemma_at_reverse(pick(x, removed()) + pick(t, replaced()), p);

    lemma_at_pick(a, added_dirs(), p);
    lemma_at_pick(t, new_dirs(), p);
    lemma_paths_at(pick(a, added_dirs()), p);
    lemma_paths_at(pick(t, new_dirs()), p);
    lemma_contains_concat(paths_of(pick(a, added_dirs())), paths_of(pick(t, new_dirs())), p);

    lemma_at_pick(a, added_files(), p);
    lemma_at_pick(m, modified_files(), p);
    lemma_at_pick(t, new_files(), p);
    lemma_at_concat(pick(a, added_files()), pick(m, modified_files()), p);
    lemma_at_concat(
        pick(a, added_files()) + pick(m, modified_files()),
        pick(t, new_files()),
        p,
    );
}

proof fn lemma_contains_concat(s: Seq<Seq<char>>, t: Seq<Seq<char>>, p: Seq<char>)
    ensures
        (s + t).contains(p) <==> s.contains(p) || t.contains(p),
{
    if s.contains(p) {
        let i = choose|i: int| 0 <= i < s.len() && s[i] == p;
        assert((s + t)[i] == p);
    }
    if t.contains(p) {
        let i = choose|i: int| 0 <= i < t.len() && t[i] == p;
        assert((s + t)[s.len() + i] == p);
    }
    if (s + t).contains(p) {
        let i = choose|i: int| 0 <= i < (s + t).len() && (s + t)[i] == p;
        if i < s.len() {
            assert(s[i] == p);
        } else {
            assert(t[i - s.len()] == p);
        }
    }
}

/// Whether two files have the same size, and modification times that are, in whole seconds, at most
/// one second apart.
pub open spec fn is_close(prev: SnapshotFileMetadata, new: SnapshotFileMetadata) -> bool {
    &&& prev.size == new.size
    &&& -1 <= new.last_modif_date - prev.last_modif_date <= 1
}

/// Whether two items are the same file but for a small difference of their modification times.
pub open spec fn nearly_same(prev: SnapshotItemMetadata, new: SnapshotItemMetadata) -> bool {
    match (prev, new) {
        (SnapshotItemMetadata::File(p), SnapshotItemMetadata::File(n)) => is_close(p, n),
        _ => false,
    }
}

/// Whether a plan has to do something about an item that was `prev` and is `new`. Where a diff was
/// reduced, modifications that do not count are left as they are.
pub open spec fn is_carried_out(
    prev: SnapshotItemMetadata,
    new: SnapshotItemMetadata,
    reduced: bool,
) -> bool {
    match (prev, new) {
        (SnapshotItemMetadata::Directory, SnapshotItemMetadata::Directory) => false,
        (SnapshotItemMetadata::File(p), SnapshotItemMetadata::File(n)) => if reduced {
            !is_close(p, n)
        } else {
            n != p
        },
        _ => true,
    }
}

/// Whether what is told last of a path that was `prev` is what a plan makes of it: it is a file
/// that is sent, or nothing told of the path has to be carried out, but that it is a directory
/// where that is told last. What is told of a path once always is.
pub open spec fn last_prevails(
    told: Seq<SnapshotItemMetadata>,
    prev: SnapshotItemMetadata,
    reduced: bool,
) -> bool {
    ||| told.last() is File && is_carried_out(prev, told.last(), reduced)
    ||| forall|k: int|
        0 <= k < told.len() ==> !is_carried_out(prev, #[trigger] told[k], reduced) || (
        told[k] is Directory && told.last() is Directory)
}

/// Whether what the local snapshot tells last of each path that both snapshots have is what a plan
/// makes of it.
pub open spec fn local_prevails(
    local: Seq<(Seq<char>, SnapshotItemMetadata)>,
    remote: Seq<(Seq<char>, SnapshotItemMetadata)>,
    reduced: bool,
) -> bool {
    forall|p: Seq<char>|
        contents(local).contains_key(p) && contents(remote).contains_key(p)
            ==> #[trigger] last_prevails(at(local, p), contents(remote)[p], reduced)
}

/// What the lists of a diff tell of one path that both snapshots have.
proof fn lemma_compared_at(
    d: Diff,
    local: Seq<(Seq<char>, SnapshotItemMetadata)>,
    remote: Seq<(Seq<char>, SnapshotItemMetadata)>,
    p: Seq<char>,
)
    requires
        is_diff(d, local, remote),
        contents(local).contains_key(p),
        contents(remote).contains_key(p),
    ensures
        ({
            let told = at(local, p);
            let prev = contents(remote)[p];
            let m = at(entries(d.modified@), p);
            let t = at(entries(d.type_changed@), p);
            &&& at(entries(d.added@), p) == Seq::<DiffItemAdded>::empty()
            &&& at(entries(d.deleted@), p) == Seq::<DiffItemDeleted>::empty()
            &&& forall|k: int|
                #![trigger m[k]]
                0 <= k < m.len() ==> exists|i: int|
                    0 <= i < told.len() && change_between(prev, #[trigger] told[i]) == Some(
                        DiffType::Modified(m[k]),
                    )
            &&& forall|k: int|
                #![trigger t[k]]
                0 <= k < t.len() ==> exists|i: int|
                    0 <= i < told.len() && change_between(prev, #[trigger] told[i]) == Some(
                        DiffType::TypeChanged(t[k]),
                    )
            &&& told.len() > 0
            &&& told.last() == contents(local)[p]
            &&& match change_between(prev, told.last()) {
                Some(DiffType::Modified(i)) => m.len() > 0 && m.last() == i,
                Some(DiffType::TypeChanged(i)) => t.len() > 0 && t.last() == i,
                _ => true,
            }
        }),
{
    let told = at(local, p);
    let prev = contents(remote)[p];
    let c = changes_at(local, remote, p);
    lemma_contents_at(local, p);
    assert(c == pick_values(told, change_from(prev)));
    lemma_picked(told, change_from(prev));
    lemma_picked(c, as_modified());
    lemma_picked(c, as_type_changed());
    assert forall|k: int| 0 <= k < c.len() implies as_added()(#[trigger] c[k]) is None by {
        let i = choose|i: int| 0 <= i < told.len() && change_from(prev)(#[trigger] told[i]) == Some(c[k]);
        assert(change_between(prev, told[i]) == Some(c[k]));
    }
    assert forall|k: int| 0 <= k < c.len() implies as_deleted()(#[trigger] c[k]) is None by {
        let i = choose|i: int| 0 <= i < told.len() && change_from(prev)(#[trigger] told[i]) == Some(c[k]);
        assert(change_between(prev, told[i]) == Some(c[k]));
    }
    lemma_pick_nothing(c, as_added());
    lemma_pick_nothing(c, as_deleted());
    assert(at(entries(d.added@), p) == pick_values(c, as_added()));
    assert(at(entries(d.deleted@), p) == pick_values(c, as_deleted()));
    let m = at(entries(d.modified@), p);
    let t = at(entries(d.type_changed@), p);
    assert(m == pick_values(c, as_modified()));
    assert(t == pick_values(c, as_type_changed()));
    assert forall|k: int| #![trigger m[k]] 0 <= k < m.len() implies exists|i: int|
        0 <= i < told.len() && change_between(prev, #[trigger] told[i]) == Some(
            DiffType::Modified(m[k]),
        ) by {
        let j = choose|j: int| 0 <= j < c.len() && as_modified()(#[trigger] c[j]) == Some(m[k]);
        let i = choose|i: int| 0 <= i < told.len() && change_from(prev)(#[trigger] told[i]) == Some(c[j]);
        assert(change_between(prev, told[i]) == Some(DiffType::Modified(m[k])));
    }
    assert forall|k: int| #![trigger t[k]] 0 <= k < t.len() implies exists|i: int|
        0 <= i < told.len() && change_between(prev, #[trigger] told[i]) == Some(
            DiffType::TypeChanged(t[k]),
        ) by {
        let j = choose|j: int| 0 <= j < c.len() && as_type_changed()(#[trigger] c[j]) == Some(t[k]);
        let i = choose|i: int| 0 <= i < told.len() && change_from(prev)(#[trigger] told[i]) == Some(c[j]);
        assert(change_between(prev, told[i]) == Some(DiffType::TypeChanged(t[k])));
    }
    assert(change_from(prev)(told.last()) == change_between(prev, told.last()));
    match change_between(prev, told.last()) {
        Some(v) => {
            assert(c.last() == v);
        },
        None => {},
    }
}

/// What a plan makes of one path that both snapshots have.
proof fn lemma_compared_result(
    full: Diff,
    d: Diff,
    plan: SyncPlan,
    local: Seq<(Seq<char>, SnapshotItemMetadata)>,
    remote: Seq<(Seq<char>, SnapshotItemMetadata)>,
    p: Seq<char>,
    reduced: bool,
)
    requires
        is_diff(full, local, remote),
        contents(local).contains_key(p),
        contents(remote).contains_key(p),
        last_prevails(at(local, p), contents(remote)[p], reduced),
        if reduced {
            is_reduced(d, full)
        } else {
            d == full
        },
        plan.carries_out(d),
    ensures
        ({
            let (before, after) = (contents(remote), after_plan(contents(remote), plan));
            &&& after.contains_key(p)
            &&& {
                ||| after[p] == contents(local)[p]
                ||| reduced && after[p] == before[p] && nearly_same(before[p], contents(local)[p])
            }
        }),
{
    let r = contents(remote);
    let told = at(local, p);
    let prev = r[p];
    let last = told.last();
    lemma_compared_at(full, local, remote, p);
    lemma_plan_at(d, plan, p);
    if reduced {
        lemma_at_pick(entries(full.modified@), significant(), p);
    }
    let m1 = after_deletions(r, entries(plan.to_delete@));
    let m2 = after_creations(m1, texts(plan.to_create_dirs@));
    lemma_after_deletions(r, entries(plan.to_delete@), p);
    lemma_after_creations(m1, texts(plan.to_create_dirs@), p);
    lemma_after_transfers(m2, entries(plan.to_transfer@), p);
    lemma_pick_none();
    let fm = at(entries(full.modified@), p);
    let m = at(entries(d.modified@), p);
    let t = at(entries(d.type_changed@), p);
    let sent = pick_values(m, modified_files());
    let made = pick_values(t, new_files());
    assert(at(entries(plan.to_transfer@), p) =~= sent + made);
    if reduced {
        lemma_picked(fm, significant());
    }
    // What is sent was told of the path, and has to be carried out.
    assert forall|k: int| #![trigger m[k]] 0 <= k < m.len() implies exists|i: int|
        0 <= i < told.len() && #[trigger] told[i] == SnapshotItemMetadata::File(m[k].new)
            && is_carried_out(prev, told[i], reduced) && prev is File by {
        let j = if reduced {
            choose|j: int| 0 <= j < fm.len() && significant()(#[trigger] fm[j]) == Some(m[k])
        } else {
            k
        };
        assert(fm[j] == m[k]);
        let i = choose|i: int|
            0 <= i < told.len() && change_between(prev, #[trigger] told[i]) == Some(
                DiffType::Modified(fm[j]),
            );
        assert(told[i] == SnapshotItemMetadata::File(m[k].new));
    }
    assert forall|k: int| #![trigger t[k]] 0 <= k < t.len() implies exists|i: int|
        0 <= i < told.len() && #[trigger] told[i] == t[k].new && is_carried_out(
            prev,
            told[i],
            reduced,
        ) && (prev is File <==> t[k].new is Directory) by {
        let i = choose|i: int|
            0 <= i < told.len() && change_between(prev, #[trigger] told[i]) == Some(
                DiffType::TypeChanged(t[k]),
            );
        assert(told[i] == t[k].new);
    }
    if last is File && is_carried_out(prev, last, reduced) {
        if prev is File {
            assert forall|k: int| 0 <= k < t.len() implies new_files()(#[trigger] t[k]) is None by {
                assert(t[k].new is Directory);
            }
            lemma_pick_nothing(t, new_files());
            assert(fm.last() == (DiffItemModified { prev: prev->File_0, new: last->File_0 }));
            if reduced {
                assert(significant()(fm.last()) == Some(fm.last()));
            }
            assert(m.last() == fm.last());
            assert(modified_files()(m.last()) == Some(last->File_0));
            assert(sent.last() == last->File_0);
            assert((sent + made).last() == sent.last());
        } else {
            assert(t.last().new == last);
            assert(new_files()(t.last()) == Some(last->File_0));
            assert(made.last() == last->File_0);
            assert((sent + made).last() == made.last());
        }
    } else {
        if m.len() > 0 {
            assert(m[0] == m[0]);
            let i = choose|i: int|
                0 <= i < told.len() && #[trigger] told[i] == SnapshotItemMetadata::File(m[0].new)
                    && is_carried_out(prev, told[i], reduced) && prev is File;
            assert(false);
        }
        assert forall|k: int| 0 <= k < t.len() implies new_files()(#[trigger] t[k]) is None by {
            let i = choose|i: int|
                0 <= i < told.len() && #[trigger] told[i] == t[k].new && is_carried_out(
                    prev,
                    told[i],
                    reduced,
                ) && (prev is File <==> t[k].new is Directory);
            assert(told[i] is Directory);
        }
        lemma_pick_nothing(t, new_files());
        assert(m =~= seq![]);
        assert(sent + made =~= seq![]);
        if last is Directory && prev is File {
            assert(t.last() == (DiffItemTypeChanged { prev, new: last }));
            assert(new_dirs()(t.last()) is Some);
            assert(pick_values(t, new_dirs()).len() > 0);
        } else {
            if t.len() > 0 {
                assert(t[0] == t[0]);
                let i = choose|i: int|
                    0 <= i < told.len() && #[trigger] told[i] == t[0].new && is_carried_out(
                        prev,
                        told[i],
                        reduced,
                    ) && (prev is File <==> t[0].new is Directory);
                assert(false);
            }
            assert(t =~= seq![]);
        }
    }
}

/// What a plan makes of one path, whether or not the modifications that do not count were left
/// out.
proof fn lemma_plan_result(
    full: Diff,
    d: Diff,
    plan: SyncPlan,
    local: Seq<(Seq<char>, SnapshotItemMetadata)>,
    remote: Seq<(Seq<char>, SnapshotItemMetadata)>,
    p: Seq<char>,
    reduced: bool,
)
    requires
        is_diff(full, local, remote),
        local_prevails(local, remote, reduced),
        if reduced {
            is_reduced(d, full)
        } else {
            d == full
        },
        plan.carries_out(d),
    ensures
        after_plan(contents(remote), plan).contains_key(p) <==> contents(local).contains_key(p),
        contents(local).contains_key(p) ==> {
            let (before, after) = (contents(remote), after_plan(contents(remote), plan));
            ||| after[p] == contents(local)[p]
            ||| reduced && before.contains_key(p) && after[p] == before[p] && nearly_same(
                before[p],
                contents(local)[p],
            )
        },
{
    let (l, r) = (contents(local), contents(remote));
    if l.contains_key(p) && r.contains_key(p) {
        assert(last_prevails(at(local, p), r[p], reduced));
        lemma_compared_result(full, d, plan, local, remote, p, reduced);
    } else {
        let c = change_at(l, r, p);
        lemma_lists_at(full, local, remote, p);
        lemma_plan_at(d, plan, p);
        if reduced {
            lemma_at_pick(entries(full.modified@), significant(), p);
        }
        let m1 = after_deletions(r, entries(plan.to_delete@));
        let m2 = after_creations(m1, texts(plan.to_create_dirs@));
        lemma_after_deletions(r, entries(plan.to_delete@), p);
        lemma_after_creations(m1, texts(plan.to_create_dirs@), p);
        lemma_after_transfers(m2, entries(plan.to_transfer@), p);
        match c {
            Some(DiffType::Added(i)) => {
                lemma_pick_single(i, added_dirs());
                lemma_pick_single(i, added_files());
            },
            Some(DiffType::Deleted(i)) => {
                lemma_pick_single(i, removed());
            },
            _ => {},
        }
        lemma_pick_none();
    }
}

proof fn lemma_pick_none()
    ensures
        pick_values(Seq::<DiffItemAdded>::empty(), added_dirs()).len() == 0,
        pick_values(Seq::<DiffItemAdded>::empty(), added_files()).len() == 0,
        pick_values(Seq::<DiffItemModified>::empty(), modified_files()).len() == 0,
        pick_values(Seq::<DiffItemModified>::empty(), significant()).len() == 0,
        pick_values(Seq::<DiffItemTypeChanged>::empty(), new_dirs()).len() == 0,
        pick_values(Seq::<DiffItemTypeChanged>::empty(), new_files()).len() == 0,
        pick_values(Seq::<DiffItemTypeChanged>::empty(), replaced()).len() == 0,
        pick_values(Seq::<DiffItemDeleted>::empty(), removed()).len() == 0,
{
}

/// What a snapshot that names no path twice tells of its paths is what a plan makes of them.
pub proof fn law_distinct_paths_prevail(
    local: Seq<(Seq<char>, SnapshotItemMetadata)>,
    remote: Seq<(Seq<char>, SnapshotItemMetadata)>,
    reduced: bool,
)
    requires
        paths_distinct(local),
    ensures
        local_prevails(local, remote, reduced),
{
    assert forall|p: Seq<char>|
        contents(local).contains_key(p) && contents(remote).contains_key(
            p,
        ) implies #[trigger] last_prevails(at(local, p), contents(remote)[p], reduced) by {
        lemma_distinct_at(local, p);
    }
}

/// Carrying out the plan of a diff makes the remote side hold what the local side holds, each
/// path as the local snapshot tells of it last.
pub proof fn law_plan_reaches_local(
    d: Diff,
    plan: SyncPlan,
    local: Seq<(Seq<char>, SnapshotItemMetadata)>,
    remote: Seq<(Seq<char>, SnapshotItemMetadata)>,
)
    requires
        is_diff(d, local, remote),
        local_prevails(local, remote, false),
        plan.carries_out(d),
    ensures
        after_plan(contents(remote), plan) == contents(local),
{
    let (after, l) = (after_plan(contents(remote), plan), contents(local));
    assert forall|p: Seq<char>| #[trigger] after.contains_key(p) <==> l.contains_key(p) by {
        lemma_plan_result(d, d, plan, local, remote, p, false);
    }
    assert forall|p: Seq<char>| #[trigger] l.contains_key(p) implies after[p] == l[p] by {
        lemma_plan_result(d, d, plan, local, remote, p, false);
    }
    assert(after =~= l);
}

/// Where the modifications that do not count are left out, the remote side has the same paths
/// as the local one, and the same items but for those: they stay as they were.
pub proof fn law_reduced_plan_nearly_reaches_local(
    full: Diff,
    d: Diff,
    plan: SyncPlan,
    local: Seq<(Seq<char>, SnapshotItemMetadata)>,
    remote: Seq<(Seq<char>, SnapshotItemMetadata)>,
    p: Seq<char>,
)
    requires
        is_diff(full, local, remote),
        local_prevails(local, remote, true),
        is_reduced(d, full),
        plan.carries_out(d),
    ensures
        after_plan(contents(remote), plan).contains_key(p) <==> contents(local).contains_key(p),
        contents(local).contains_key(p) ==> {
            let (before, after) = (contents(remote), after_plan(contents(remote), plan));
            ||| after[p] == contents(local)[p]
            ||| before.contains_key(p) && after[p] == before[p] && nearly_same(
                before[p],
                contents(local)[p],
            )
        },
{
    lemma_plan_result(full, d, plan, local, remote, p, true);
}

/// A file whose size changed, or whose modification time changed by more than a second, is sent: the
/// remote side then holds it as the local side does.
pub proof fn law_changed_file_is_sent(
    full: Diff,
    d: Diff,
    plan: SyncPlan,
    local: Seq<(Seq<char>, SnapshotItemMetadata)>,
    remote: Seq<(Seq<char>, SnapshotItemMetadata)>,
    p: Seq<char>,
    prev: SnapshotFileMetadata,
    new: SnapshotFileMetadata,
)
    requires
        is_diff(full, local, remote),
        local_prevails(local, remote, true),
        is_reduced(d, full),
        plan.carries_out(d),
        contents(remote).contains_key(p) && contents(remote)[p] == SnapshotItemMetadata::File(prev),
        contents(local).contains_key(p) && contents(local)[p] == SnapshotItemMetadata::File(new),
        prev.size != new.size || new.last_modif_date > prev.last_modif_date + 1
            || prev.last_modif_date > new.last_modif_date + 1,
    ensures
        after_plan(contents(remote), plan).contains_key(p),
        after_plan(contents(remote), plan)[p] == SnapshotItemMetadata::File(new),
{
    lemma_plan_result(full, d, plan, local, remote, p, true);
}

/// A file of the same size whose modification time changed by a second or less is left as it is,
/// where the local snapshot names no path twice: the plan does nothing at its path.
pub proof fn law_close_file_is_left(
    full: Diff,
    d: Diff,
    plan: SyncPlan,
    local: Seq<(Seq<char>, SnapshotItemMetadata)>,
    remote: Seq<(Seq<char>, SnapshotItemMetadata)>,
    p: Seq<char>,
    prev: SnapshotFileMetadata,
    new: SnapshotFileMetadata,
)
    requires
        is_diff(full, local, remote),
        paths_distinct(local),
        is_reduced(d, full),
        plan.carries_out(d),
        contents(remote).contains_key(p) && contents(remote)[p] == SnapshotItemMetadata::File(prev),
        contents(local).contains_key(p) && contents(local)[p] == SnapshotItemMetadata::File(new),
        prev.size == new.size,
        -1 <= new.last_modif_date - prev.last_modif_date <= 1,
    ensures
        at(entries(plan.to_delete@), p).len() == 0,
        !texts(plan.to_create_dirs@).contains(p),
        at(entries(plan.to_transfer@), p).len() == 0,
        after_plan(contents(remote), plan)[p] == SnapshotItemMetadata::File(prev),
{
    let r = contents(remote);
    lemma_lists_at(full, local, remote, p);
    lemma_plan_at(d, plan, p);
    lemma_at_pick(entries(full.modified@), significant(), p);
    match change_at(contents(local), r, p) {
        Some(DiffType::Modified(i)) => {
            lemma_pick_single(i, significant());
        },
        _ => {},
    }
    lemma_pick_none();
    let m1 = after_deletions(r, entries(plan.to_delete@));
    let m2 = after_creations(m1, texts(plan.to_create_dirs@));
    lemma_after_deletions(r, entries(plan.to_delete@), p);
    lemma_after_creations(m1, texts(plan.to_create_dirs@), p);
    lemma_after_transfers(m2, entries(plan.to_transfer@), p);
}

/// What is picked out of a list names paths of the list only.
proof fn lemma_pick_names<T, U>(s: Seq<(Seq<char>, T)>, f: spec_fn(T) -> Option<U>, i: int)
    requires
        0 <= i < pick(s, f).len(),
    ensures
        names(s, pick(s, f)[i].0),
{
    lemma_pick_entries(s, f);
    let k = choose|k: int| 0 <= k < s.len() && (#[trigger] s[k]).0 == pick(s, f)[i].0;
    assert(s[k].0 == pick(s, f)[i].0);
}

/// A directory is created before all that lies below it, but for new directories below what was
/// a file.
pub proof fn law_parents_created_first(
    d: Diff,
    plan: SyncPlan,
    local: Seq<(Seq<char>, SnapshotItemMetadata)>,
    remote: Seq<(Seq<char>, SnapshotItemMetadata)>,
    i: int,
    j: int,
    below: Seq<char>,
)
    requires
        is_diff(d, local, remote),
        plan.carries_out(d),
        0 <= i < plan.to_create_dirs@.len(),
        0 <= j < plan.to_create_dirs@.len(),
        below.len() > 0,
        plan.to_create_dirs@[j]@ == plan.to_create_dirs@[i]@ + below,
        !(names(entries(d.type_changed@), plan.to_create_dirs@[i]@) && names(
            entries(d.added@),
            plan.to_create_dirs@[j]@,
        )),
    ensures
        i < j,
{
    let (a, t) = (entries(d.added@), entries(d.type_changed@));
    let (s, u) = (pick(a, added_dirs()), pick(t, new_dirs()));
    lemma_pick_entries(a, added_dirs());
    lemma_pick_entries(t, new_dirs());
    let dirs = texts(plan.to_create_dirs@);
    let n = s.len() as int;
    assert(dirs == paths_of(s) + paths_of(u));
    law_parent_before_child(dirs[i], below);
    if j == i {
        law_path_order_irreflexive(dirs[i]);
    } else if j < i && i < n {
        assert(dirs[i] == s[i].0 && dirs[j] == s[j].0);
    } else if j < i && n <= j {
        assert(dirs[i] == u[i - n].0 && dirs[j] == u[j - n].0);
    } else if j < i {
        assert(dirs[i] == u[i - n].0 && dirs[j] == s[j].0);
        lemma_pick_names(t, new_dirs(), i - n);
        lemma_pick_names(a, added_dirs(), j);
    }
}

/// What lies below a directory is deleted before it, but for what lies below a directory that
/// became a file.
pub proof fn law_children_deleted_first(
    d: Diff,
    plan: SyncPlan,
    local: Seq<(Seq<char>, SnapshotItemMetadata)>,
    remote: Seq<(Seq<char>, SnapshotItemMetadata)>,
    i: int,
    j: int,
    below: Seq<char>,
)
    requires
        is_diff(d, local, remote),
        plan.carries_out(d),
        0 <= i < plan.to_delete@.len(),
        0 <= j < plan.to_delete@.len(),
        below.len() > 0,
        plan.to_delete@[j].0@ == plan.to_delete@[i].0@ + below,
        !(names(entries(d.type_changed@), plan.to_delete@[i].0@) && names(
            entries(d.deleted@),
            plan.to_delete@[j].0@,
        )),
    ensures
        j < i,
{
    let (x, t) = (entries(d.deleted@), entries(d.type_changed@));
    let (s, u) = (pick(x, removed()), pick(t, replaced()));
    lemma_pick_entries(x, removed());
    lemma_pick_entries(t, replaced());
    let all = entries(plan.to_delete@);
    assert(all == (s + u).reverse());
    let (n, m) = (s.len() as int, all.len() as int);
    assert(m == plan.to_delete@.len() && m == s.len() + u.len());
    let (p, q) = (m - 1 - i, m - 1 - j);
    assert(all[i] == (s + u)[p] && all[j] == (s + u)[q]);
    law_parent_before_child(all[i].0, below);
    if i == j {
        law_path_order_irreflexive(all[i].0);
    } else if q < p && p < n {
        assert(all[i] == s[p] && all[j] == s[q]);
    } else if q < p && n <= q {
        assert(all[i] == u[p - n] && all[j] == u[q - n]);
    } else if q < p {
        assert(all[i] == u[p - n] && all[j] == s[q]);
        lemma_pick_names(t, replaced(), p - n);
        lemma_pick_names(x, removed(), q);
    }
}

/// An item that changed its type is deleted and made again.
pub proof fn law_type_change_replaces(d: Diff, plan: SyncPlan, i: int)
    requires
        plan.carries_out(d),
        0 <= i < d.type_changed@.len(),
    ensures
        names(entries(plan.to_delete@), d.type_changed@[i].0@),
        d.type_changed@[i].1.new is Directory ==> texts(plan.to_create_dirs@).contains(
            d.type_changed@[i].0@,
        ),
        d.type_changed@[i].1.new is File ==> names(
            entries(plan.to_transfer@),
            d.type_changed@[i].0@,
        ),
{
    let p = d.type_changed@[i].0@;
    let t = entries(d.type_changed@);
    let v = d.type_changed@[i].1;
    assert(t[i] == (p, v));
    lemma_at_contains(t, i);
    lemma_plan_at(d, plan, p);
    let k = choose|k: int| 0 <= k < at(t, p).len() && at(t, p)[k] == v;
    lemma_picked(at(t, p), replaced());
    assert(replaced()(at(t, p)[k]) is Some);
    if v.new is Directory {
        lemma_picked(at(t, p), new_dirs());
        assert(new_dirs()(at(t, p)[k]) is Some);
    } else {
        lemma_picked(at(t, p), new_files());
        assert(new_files()(at(t, p)[k]) is Some);
    }
    lemma_names_at(entries(plan.to_delete@), p);
    lemma_names_at(entries(plan.to_transfer@), p);
}

} // verus!

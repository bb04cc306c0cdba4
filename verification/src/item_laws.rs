//! What diffs and plans say of the items of the snapshots.
use vstd::prelude::*;

use crate::diffing::{
    as_added, as_deleted, as_modified, as_type_changed, change_between, changes, changes_at, is_diff,
    sorts_by_kind, Diff, DiffItem, DiffItemAdded, DiffItemDeleted, DiffItemModified,
    DiffItemTypeChanged, DiffType,
};
use crate::entries::{
    at, contents, entries, lemma_at_contains, lemma_at_from, lemma_at_has, lemma_contents_at,
    lemma_lists, lemma_pick_entries, lemma_pick_has, lemma_picked, lists, paths_distinct, paths_of,
    pick, pick_values, texts,
};
use crate::order::path_less;
use crate::plan::{
    added_dirs, added_files, modified_files, new_dirs, new_files, removed, replaced, SyncPlan,
};
use crate::snapshot::{Snapshot, SnapshotFileMetadata, SnapshotItemMetadata};
use crate::sync_laws::{law_each_path_once, names};

verus! {

/// Whether a snapshot has an item with a path and with some metadata.
pub open spec fn holds(s: Snapshot, p: Seq<char>, m: SnapshotItemMetadata) -> bool {
    exists|i: int|
        0 <= i < s.items@.len() && (#[trigger] s.items@[i]).relative_path@ == p
            && s.items@[i].metadata == m
}

/// Whether a snapshot has an item with a path.
pub open spec fn knows(s: Snapshot, p: Seq<char>) -> bool {
    exists|i: int| 0 <= i < s.items@.len() && (#[trigger] s.items@[i]).relative_path@ == p
}

/// Whether no two items of a snapshot have the same path.
pub open spec fn names_once(s: Snapshot) -> bool {
    forall|i: int, j: int|
        #![trigger s.items@[i], s.items@[j]]
        0 <= i < j < s.items@.len() ==> s.items@[i].relative_path@ != s.items@[j].relative_path@
}

proof fn lemma_listing(s: Snapshot, p: Seq<char>, m: SnapshotItemMetadata)
    ensures
        holds(s, p, m) <==> s.listing().contains((p, m)),
        knows(s, p) <==> contents(s.listing()).contains_key(p),
        names_once(s) ==> paths_distinct(s.listing()),
{
    let l = s.listing();
    if holds(s, p, m) {
        let i = choose|i: int|
            0 <= i < s.items@.len() && (#[trigger] s.items@[i]).relative_path@ == p
                && s.items@[i].metadata == m;
        assert(l[i] == (p, m));
    }
    if l.contains((p, m)) {
        let i = choose|i: int| 0 <= i < l.len() && l[i] == (p, m);
        assert(s.items@[i].relative_path@ == p && s.items@[i].metadata == m);
    }
    lemma_contents_at(l, p);
    if knows(s, p) {
        let i = choose|i: int| 0 <= i < s.items@.len() && (#[trigger] s.items@[i]).relative_path@ == p;
        assert(l[i].0 == p);
        lemma_at_contains(l, i);
    }
    if at(l, p).len() > 0 {
        let v = at(l, p)[0];
        assert(at(l, p).contains(v));
        lemma_at_from(l, p, v);
        let i = choose|i: int| 0 <= i < l.len() && l[i] == (p, v);
        assert(s.items@[i].relative_path@ == p);
    }
    if names_once(s) {
        assert forall|i: int, j: int|
            #![trigger l[i], l[j]]
            0 <= i < j < l.len() implies l[i].0 != l[j].0 by {
            assert(s.items@[i].relative_path@ != s.items@[j].relative_path@);
        }
    }
}

/// What is told of a path by a snapshot that names it once.
proof fn lemma_told_once(s: Snapshot, p: Seq<char>, m: SnapshotItemMetadata)
    requires
        names_once(s),
    ensures
        holds(s, p, m) <==> contents(s.listing()).contains_key(p) && contents(s.listing())[p] == m,
        contents(s.listing()).contains_key(p) ==> at(s.listing(), p) == seq![
            contents(s.listing())[p],
        ],
{
    let l = s.listing();
    lemma_listing(s, p, m);
    lemma_contents_at(l, p);
    lemma_at_has(l, p, m);
    let here = at(l, p);
    lemma_told_at_most_once(l, p);
    if here.len() == 1 {
        assert(here[0] == here.last());
        assert(here.contains(here[0]));
        assert(here =~= seq![here[0]]);
    }
}

proof fn lemma_told_at_most_once<T>(s: Seq<(Seq<char>, T)>, p: Seq<char>)
    requires
        paths_distinct(s),
    ensures
        at(s, p).len() <= 1,
    decreases s.len(),
{
    if s.len() > 0 {
        let t = s.drop_last();
        assert forall|i: int, j: int|
            #![trigger t[i], t[j]]
            0 <= i < j < t.len() implies t[i].0 != t[j].0 by {
            assert(s[i].0 != s[j].0);
        }
        lemma_told_at_most_once(t, p);
        if s.last().0 == p && at(t, p).len() > 0 {
            let v = at(t, p)[0];
            assert(at(t, p).contains(v));
            lemma_at_from(t, p, v);
            let i = choose|i: int| 0 <= i < t.len() && t[i] == (p, v);
            assert(s[i].0 == s[s.len() - 1].0);
        }
    }
}

proof fn lemma_picked_single<T, U>(v: T, f: spec_fn(T) -> Option<U>, u: U)
    ensures
        pick_values(seq![v], f).contains(u) <==> f(v) == Some(u),
{
    lemma_picked(seq![v], f);
    assert(seq![v][0] == v);
    if pick_values(seq![v], f).contains(u) {
        let k = choose|k: int|
            0 <= k < pick_values(seq![v], f).len() && pick_values(seq![v], f)[k] == u;
        let i = choose|i: int|
            0 <= i < seq![v].len() && f(#[trigger] seq![v][i]) == Some(
                pick_values(seq![v], f)[k],
            );
        assert(i == 0);
    }
}

/// What happened at a path, told by the items of snapshots that name each path once.
proof fn lemma_changes_by_items(local: Snapshot, remote: Snapshot, p: Seq<char>, t: DiffType)
    requires
        names_once(local),
        names_once(remote),
    ensures
        changes_at(local.listing(), remote.listing(), p).contains(t) <==> match t {
            DiffType::Added(i) => holds(local, p, i.new) && !knows(remote, p),
            DiffType::Deleted(i) => holds(remote, p, i.prev) && !knows(local, p),
            DiffType::Modified(i) => holds(local, p, SnapshotItemMetadata::File(i.new)) && holds(
                remote,
                p,
                SnapshotItemMetadata::File(i.prev),
            ) && i.prev != i.new,
            DiffType::TypeChanged(i) => holds(local, p, i.new) && holds(remote, p, i.prev) && (
            i.new is Directory) != (i.prev is Directory),
        },
        changes_at(local.listing(), remote.listing(), p).len() <= 1,
{
    let (l, r) = (contents(local.listing()), contents(remote.listing()));
    let c = changes_at(local.listing(), remote.listing(), p);
    let any = SnapshotItemMetadata::Directory;
    lemma_listing(local, p, any);
    lemma_listing(remote, p, any);
    lemma_told_once(local, p, any);
    lemma_told_once(remote, p, any);
    match t {
        DiffType::Added(i) => {
            lemma_told_once(local, p, i.new);
        },
        DiffType::Deleted(i) => {
            lemma_told_once(remote, p, i.prev);
        },
        DiffType::Modified(i) => {
            lemma_told_once(local, p, SnapshotItemMetadata::File(i.new));
            lemma_told_once(remote, p, SnapshotItemMetadata::File(i.prev));
        },
        DiffType::TypeChanged(i) => {
            lemma_told_once(local, p, i.new);
            lemma_told_once(remote, p, i.prev);
        },
    }
    if l.contains_key(p) && r.contains_key(p) {
        let f = crate::diffing::change_from(r[p]);
        lemma_picked_single(l[p], f, t);
        assert(f(l[p]) == change_between(r[p], l[p]));
        reveal_with_fuel(pick_values, 2);
        assert(seq![l[p]].drop_last() =~= seq![]);
    } else if l.contains_key(p) {
        assert(c[0] == DiffType::Added(DiffItemAdded { new: l[p] }));
    } else if r.contains_key(p) {
        assert(c[0] == DiffType::Deleted(DiffItemDeleted { prev: r[p] }));
    }
}

/// The list of one kind has what happened, of that kind.
proof fn lemma_listed_change<T>(
    v: Seq<(String, T)>,
    f: spec_fn(DiffType) -> Option<T>,
    c: Seq<DiffType>,
    p: Seq<char>,
    u: T,
)
    requires
        at(entries(v), p) == pick_values(c, f),
    ensures
        lists(v, p, u) <==> exists|t: DiffType| #[trigger] c.contains(t) && f(t) == Some(u),
{
    lemma_lists(v, p, u);
    lemma_at_has(entries(v), p, u);
    lemma_picked(c, f);
    if pick_values(c, f).contains(u) {
        let k = choose|k: int| 0 <= k < pick_values(c, f).len() && pick_values(c, f)[k] == u;
        let i = choose|i: int| 0 <= i < c.len() && f(#[trigger] c[i]) == Some(pick_values(c, f)[k]);
        assert(c.contains(c[i]));
    }
    if exists|t: DiffType| #[trigger] c.contains(t) && f(t) == Some(u) {
        let t = choose|t: DiffType| #[trigger] c.contains(t) && f(t) == Some(u);
        let i = choose|i: int| 0 <= i < c.len() && c[i] == t;
        assert(f(c[i]) is Some);
    }
}

/// An item is listed as added where the local snapshot has it and the remote one has nothing at its
/// path, and nowhere else.
pub proof fn law_added_is_only_local(
    d: Diff,
    local: Snapshot,
    remote: Snapshot,
    p: Seq<char>,
    m: SnapshotItemMetadata,
)
    requires
        is_diff(d, local.listing(), remote.listing()),
        names_once(local),
        names_once(remote),
    ensures
        lists(d.added@, p, DiffItemAdded { new: m }) <==> holds(local, p, m) && !knows(remote, p),
{
    let c = changes_at(local.listing(), remote.listing(), p);
    let u = DiffItemAdded { new: m };
    assert(at(entries(d.added@), p) == pick_values(c, as_added()));
    lemma_listed_change(d.added@, as_added(), c, p, u);
    lemma_changes_by_items(local, remote, p, DiffType::Added(u));
    assert(as_added()(DiffType::Added(u)) == Some(u));
}

/// An item is listed as deleted where the remote snapshot has it and the local one has nothing at
/// its path, and nowhere else.
pub proof fn law_deleted_is_only_remote(
    d: Diff,
    local: Snapshot,
    remote: Snapshot,
    p: Seq<char>,
    m: SnapshotItemMetadata,
)
    requires
        is_diff(d, local.listing(), remote.listing()),
        names_once(local),
        names_once(remote),
    ensures
        lists(d.deleted@, p, DiffItemDeleted { prev: m }) <==> holds(remote, p, m) && !knows(
            local,
            p,
        ),
{
    let c = changes_at(local.listing(), remote.listing(), p);
    let u = DiffItemDeleted { prev: m };
    assert(at(entries(d.deleted@), p) == pick_values(c, as_deleted()));
    lemma_listed_change(d.deleted@, as_deleted(), c, p, u);
    lemma_changes_by_items(local, remote, p, DiffType::Deleted(u));
    assert(as_deleted()(DiffType::Deleted(u)) == Some(u));
}

/// A file is listed as modified where both snapshots have a file at its path that differs in size,
/// seconds or nanoseconds, and nowhere else.
pub proof fn law_modified_differs(
    d: Diff,
    local: Snapshot,
    remote: Snapshot,
    p: Seq<char>,
    prev: SnapshotFileMetadata,
    new: SnapshotFileMetadata,
)
    requires
        is_diff(d, local.listing(), remote.listing()),
        names_once(local),
        names_once(remote),
    ensures
        lists(d.modified@, p, DiffItemModified { prev, new }) <==> {
            &&& holds(remote, p, SnapshotItemMetadata::File(prev))
            &&& holds(local, p, SnapshotItemMetadata::File(new))
            &&& prev.size != new.size || prev.last_modif_date != new.last_modif_date
                || prev.last_modif_date_ns != new.last_modif_date_ns
        },
{
    let c = changes_at(local.listing(), remote.listing(), p);
    let u = DiffItemModified { prev, new };
    assert(at(entries(d.modified@), p) == pick_values(c, as_modified()));
    lemma_listed_change(d.modified@, as_modified(), c, p, u);
    lemma_changes_by_items(local, remote, p, DiffType::Modified(u));
    assert(as_modified()(DiffType::Modified(u)) == Some(u));
}

/// An item is listed with another type where one snapshot has a directory at its path and the other
/// one a file, and nowhere else.
pub proof fn law_type_changed_differs(
    d: Diff,
    local: Snapshot,
    remote: Snapshot,
    p: Seq<char>,
    prev: SnapshotItemMetadata,
    new: SnapshotItemMetadata,
)
    requires
        is_diff(d, local.listing(), remote.listing()),
        names_once(local),
        names_once(remote),
    ensures
        lists(d.type_changed@, p, DiffItemTypeChanged { prev, new }) <==> {
            &&& holds(remote, p, prev)
            &&& holds(local, p, new)
            &&& (prev is Directory && new is File) || (prev is File && new is Directory)
        },
{
    let c = changes_at(local.listing(), remote.listing(), p);
    let u = DiffItemTypeChanged { prev, new };
    assert(at(entries(d.type_changed@), p) == pick_values(c, as_type_changed()));
    lemma_listed_change(d.type_changed@, as_type_changed(), c, p, u);
    lemma_changes_by_items(local, remote, p, DiffType::TypeChanged(u));
    assert(as_type_changed()(DiffType::TypeChanged(u)) == Some(u));
}

/// The lists of a diff are in the order of their paths, and no path comes twice in one of them.
pub proof fn law_diff_lists_rise(d: Diff, local: Snapshot, remote: Snapshot, i: int, j: int)
    requires
        is_diff(d, local.listing(), remote.listing()),
        names_once(local),
        0 <= i < j,
    ensures
        j < d.added@.len() ==> path_less(d.added@[i].0@, d.added@[j].0@),
        j < d.modified@.len() ==> path_less(d.modified@[i].0@, d.modified@[j].0@),
        j < d.type_changed@.len() ==> path_less(d.type_changed@[i].0@, d.type_changed@[j].0@),
        j < d.deleted@.len() ==> path_less(d.deleted@[i].0@, d.deleted@[j].0@),
{
    lemma_listing(local, seq![], SnapshotItemMetadata::Directory);
    law_each_path_once(d, local.listing(), remote.listing());
    let (a, m) = (entries(d.added@), entries(d.modified@));
    let (t, x) = (entries(d.type_changed@), entries(d.deleted@));
    if j < a.len() {
        assert(path_less(a[i].0, a[j].0));
    }
    if j < m.len() {
        assert(path_less(m[i].0, m[j].0));
    }
    if j < t.len() {
        assert(path_less(t[i].0, t[j].0));
    }
    if j < x.len() {
        assert(path_less(x[i].0, x[j].0));
    }
}

/// Of a path that a snapshot names more than once, the last item counts.
pub proof fn law_last_item_counts(s: Snapshot, i: int, p: Seq<char>)
    requires
        0 <= i < s.items@.len(),
        forall|j: int|
            i < j < s.items@.len() ==> (#[trigger] s.items@[j]).relative_path@
                != s.items@[i].relative_path@,
    ensures
        contents(s.listing()).contains_key(s.items@[i].relative_path@),
        contents(s.listing())[s.items@[i].relative_path@] == s.items@[i].metadata,
        contents(s.listing()).contains_key(p) <==> knows(s, p),
{
    lemma_listing(s, p, SnapshotItemMetadata::Directory);
    let l = s.listing();
    assert forall|j: int| i < j < l.len() implies (#[trigger] l[j]).0 != l[i].0 by {
        assert(s.items@[j].relative_path@ != s.items@[i].relative_path@);
    }
    lemma_last_counts(l, i);
}

proof fn lemma_last_counts<T>(s: Seq<(Seq<char>, T)>, i: int)
    requires
        0 <= i < s.len(),
        forall|j: int| i < j < s.len() ==> (#[trigger] s[j]).0 != s[i].0,
    ensures
        contents(s).contains_key(s[i].0),
        contents(s)[s[i].0] == s[i].1,
    decreases s.len(),
{
    if i < s.len() - 1 {
        assert(s[s.len() - 1].0 != s[i].0);
        let t = s.drop_last();
        assert forall|j: int| i < j < t.len() implies (#[trigger] t[j]).0 != t[i].0 by {
            assert(s[j].0 != s[i].0);
        }
        lemma_last_counts(t, i);
    }
}

/// Every change is in the list of its kind, as it was, and no list has anything else.
pub proof fn law_changes_are_sorted_by_kind(items: Seq<DiffItem>, d: Diff, p: Seq<char>, t: DiffType)
    requires
        sorts_by_kind(items, d),
    ensures
        ({
            let given = exists|i: int|
                0 <= i < items.len() && (#[trigger] items[i]).path@ == p && items[i].status == t;
            match t {
                DiffType::Added(a) => lists(d.added@, p, a) <==> given,
                DiffType::Modified(m) => lists(d.modified@, p, m) <==> given,
                DiffType::TypeChanged(c) => lists(d.type_changed@, p, c) <==> given,
                DiffType::Deleted(x) => lists(d.deleted@, p, x) <==> given,
            }
        }),
        d.added@.len() + d.modified@.len() + d.type_changed@.len() + d.deleted@.len()
            == items.len(),
{
    let c = changes(items);
    if exists|i: int|
        0 <= i < items.len() && (#[trigger] items[i]).path@ == p && items[i].status == t {
        let i = choose|i: int|
            0 <= i < items.len() && (#[trigger] items[i]).path@ == p && items[i].status == t;
        assert(c[i] == (p, t));
    }
    if c.contains((p, t)) {
        let i = choose|i: int| 0 <= i < c.len() && c[i] == (p, t);
        assert(items[i].path@ == p && items[i].status == t);
    }
    match t {
        DiffType::Added(a) => {
            lemma_lists(d.added@, p, a);
            lemma_pick_has(c, as_added(), p, a);
            assert(as_added()(t) == Some(a));
        },
        DiffType::Modified(m) => {
            lemma_lists(d.modified@, p, m);
            lemma_pick_has(c, as_modified(), p, m);
            assert(as_modified()(t) == Some(m));
        },
        DiffType::TypeChanged(m) => {
            lemma_lists(d.type_changed@, p, m);
            lemma_pick_has(c, as_type_changed(), p, m);
            assert(as_type_changed()(t) == Some(m));
        },
        DiffType::Deleted(x) => {
            lemma_lists(d.deleted@, p, x);
            lemma_pick_has(c, as_deleted(), p, x);
            assert(as_deleted()(t) == Some(x));
        },
    }
    lemma_kinds_add_up(c);
    assert(entries(d.added@).len() == d.added@.len());
    assert(entries(d.modified@).len() == d.modified@.len());
    assert(entries(d.type_changed@).len() == d.type_changed@.len());
    assert(entries(d.deleted@).len() == d.deleted@.len());
    assert(c.len() == items.len());
}

proof fn lemma_kinds_add_up(c: Seq<(Seq<char>, DiffType)>)
    ensures
        pick(c, as_added()).len() + pick(c, as_modified()).len() + pick(
            c,
            as_type_changed(),
        ).len() + pick(c, as_deleted()).len() == c.len(),
    decreases c.len(),
{
    if c.len() > 0 {
        lemma_kinds_add_up(c.drop_last());
    }
}

// ---------------------------------------------------------------------------------------------
// Plans
// ---------------------------------------------------------------------------------------------

/// An item is to be deleted, as the remote side has it, where it was deleted or changed its type, and
/// nowhere else. There are as many items to delete as such changes.
pub proof fn law_what_is_deleted(d: Diff, plan: SyncPlan, p: Seq<char>, m: SnapshotItemMetadata)
    requires
        plan.carries_out(d),
    ensures
        lists(plan.to_delete@, p, m) <==> {
            ||| lists(d.deleted@, p, DiffItemDeleted { prev: m })
            ||| exists|new: SnapshotItemMetadata| #[trigger]
                lists(d.type_changed@, p, DiffItemTypeChanged { prev: m, new })
        },
        plan.to_delete@.len() == d.deleted@.len() + d.type_changed@.len(),
{
    let (x, t) = (entries(d.deleted@), entries(d.type_changed@));
    let (a, b) = (pick(x, removed()), pick(t, replaced()));
    let all = entries(plan.to_delete@);
    lemma_lists(plan.to_delete@, p, m);
    lemma_lists(d.deleted@, p, DiffItemDeleted { prev: m });
    lemma_pick_has(x, removed(), p, m);
    lemma_pick_has(t, replaced(), p, m);
    lemma_reverse_has(a + b, (p, m));
    lemma_concat_has(a, b, (p, m));
    assert(removed()(DiffItemDeleted { prev: m }) == Some(m));
    if a.contains((p, m)) {
        let i = choose|i: DiffItemDeleted| #[trigger] x.contains((p, i)) && removed()(i) == Some(m);
        assert(i == DiffItemDeleted { prev: m });
    }
    if b.contains((p, m)) {
        let i = choose|i: DiffItemTypeChanged| #[trigger]
            t.contains((p, i)) && replaced()(i) == Some(m);
        assert(i == DiffItemTypeChanged { prev: m, new: i.new });
        lemma_lists(d.type_changed@, p, DiffItemTypeChanged { prev: m, new: i.new });
    }
    if exists|new: SnapshotItemMetadata| #[trigger]
        lists(d.type_changed@, p, DiffItemTypeChanged { prev: m, new }) {
        let new = choose|new: SnapshotItemMetadata| #[trigger]
            lists(d.type_changed@, p, DiffItemTypeChanged { prev: m, new });
        let i = DiffItemTypeChanged { prev: m, new };
        lemma_lists(d.type_changed@, p, i);
        assert(t.contains((p, i)) && replaced()(i) == Some(m));
    }
    crate::entries::lemma_pick_all(x, removed());
    crate::entries::lemma_pick_all(t, replaced());
    assert(all.len() == plan.to_delete@.len());
    assert(x.len() == d.deleted@.len() && t.len() == d.type_changed@.len());
}

/// A directory is to be created where one was added, or where a file became one, and nowhere else.
pub proof fn law_what_is_created(d: Diff, plan: SyncPlan, p: Seq<char>)
    requires
        plan.carries_out(d),
    ensures
        (exists|k: int| 0 <= k < plan.to_create_dirs@.len() && (#[trigger] plan.to_create_dirs@[k])@ == p)
            <==> {
            ||| lists(d.added@, p, DiffItemAdded { new: SnapshotItemMetadata::Directory })
            ||| exists|prev: SnapshotItemMetadata| #[trigger]
                lists(
                    d.type_changed@,
                    p,
                    DiffItemTypeChanged { prev, new: SnapshotItemMetadata::Directory },
                )
        },
{
    let dir = SnapshotItemMetadata::Directory;
    let (a, t) = (entries(d.added@), entries(d.type_changed@));
    let (s, u) = (pick(a, added_dirs()), pick(t, new_dirs()));
    let all = texts(plan.to_create_dirs@);
    lemma_lists(d.added@, p, DiffItemAdded { new: dir });
    lemma_pick_has(a, added_dirs(), p, ());
    lemma_pick_has(t, new_dirs(), p, ());
    lemma_paths_has(s, p);
    lemma_paths_has(u, p);
    lemma_concat_has(paths_of(s), paths_of(u), p);
    assert(all == paths_of(s) + paths_of(u));
    if exists|k: int| 0 <= k < plan.to_create_dirs@.len() && (#[trigger] plan.to_create_dirs@[k])@ == p {
        let k = choose|k: int|
            0 <= k < plan.to_create_dirs@.len() && (#[trigger] plan.to_create_dirs@[k])@ == p;
        assert(all[k] == p);
    }
    if all.contains(p) {
        let k = choose|k: int| 0 <= k < all.len() && all[k] == p;
        assert(plan.to_create_dirs@[k]@ == p);
    }
    assert(added_dirs()(DiffItemAdded { new: dir }) == Some(()));
    if s.contains((p, ())) {
        let i = choose|i: DiffItemAdded| #[trigger] a.contains((p, i)) && added_dirs()(i) == Some(());
        assert(i == DiffItemAdded { new: dir });
    }
    if u.contains((p, ())) {
        let i = choose|i: DiffItemTypeChanged| #[trigger]
            t.contains((p, i)) && new_dirs()(i) == Some(());
        assert(i == DiffItemTypeChanged { prev: i.prev, new: dir });
        lemma_lists(d.type_changed@, p, DiffItemTypeChanged { prev: i.prev, new: dir });
    }
    if exists|prev: SnapshotItemMetadata| #[trigger]
        lists(d.type_changed@, p, DiffItemTypeChanged { prev, new: dir }) {
        let prev = choose|prev: SnapshotItemMetadata| #[trigger]
            lists(d.type_changed@, p, DiffItemTypeChanged { prev, new: dir });
        let i = DiffItemTypeChanged { prev, new: dir };
        lemma_lists(d.type_changed@, p, i);
        assert(t.contains((p, i)) && new_dirs()(i) == Some(()));
    }
}

/// A file is to be sent, as the local side has it, where it was added, modified, or made of a
/// directory, and nowhere else. Every addition, modification and change of type is created or sent.
pub proof fn law_what_is_sent(d: Diff, plan: SyncPlan, p: Seq<char>, m: SnapshotFileMetadata)
    requires
        plan.carries_out(d),
    ensures
        lists(plan.to_transfer@, p, m) <==> {
            ||| lists(d.added@, p, DiffItemAdded { new: SnapshotItemMetadata::File(m) })
            ||| exists|prev: SnapshotFileMetadata| #[trigger]
                lists(d.modified@, p, DiffItemModified { prev, new: m })
            ||| exists|prev: SnapshotItemMetadata| #[trigger]
                lists(
                    d.type_changed@,
                    p,
                    DiffItemTypeChanged { prev, new: SnapshotItemMetadata::File(m) },
                )
        },
        plan.to_create_dirs@.len() + plan.to_transfer@.len() == d.added@.len() + d.modified@.len()
            + d.type_changed@.len(),
{
    let file = SnapshotItemMetadata::File(m);
    let (a, o, t) = (entries(d.added@), entries(d.modified@), entries(d.type_changed@));
    let (s, v, u) = (pick(a, added_files()), pick(o, modified_files()), pick(t, new_files()));
    lemma_lists(plan.to_transfer@, p, m);
    lemma_lists(d.added@, p, DiffItemAdded { new: file });
    lemma_pick_has(a, added_files(), p, m);
    lemma_pick_has(o, modified_files(), p, m);
    lemma_pick_has(t, new_files(), p, m);
    lemma_concat_has(s + v, u, (p, m));
    lemma_concat_has(s, v, (p, m));
    assert(added_files()(DiffItemAdded { new: file }) == Some(m));
    if s.contains((p, m)) {
        let i = choose|i: DiffItemAdded| #[trigger] a.contains((p, i)) && added_files()(i) == Some(m);
        assert(i == DiffItemAdded { new: file });
    }
    if v.contains((p, m)) {
        let i = choose|i: DiffItemModified| #[trigger]
            o.contains((p, i)) && modified_files()(i) == Some(m);
        assert(i == DiffItemModified { prev: i.prev, new: m });
        lemma_lists(d.modified@, p, DiffItemModified { prev: i.prev, new: m });
    }
    if exists|prev: SnapshotFileMetadata| #[trigger]
        lists(d.modified@, p, DiffItemModified { prev, new: m }) {
        let prev = choose|prev: SnapshotFileMetadata| #[trigger]
            lists(d.modified@, p, DiffItemModified { prev, new: m });
        let i = DiffItemModified { prev, new: m };
        lemma_lists(d.modified@, p, i);
        assert(o.contains((p, i)) && modified_files()(i) == Some(m));
    }
    if u.contains((p, m)) {
        let i = choose|i: DiffItemTypeChanged| #[trigger]
            t.contains((p, i)) && new_files()(i) == Some(m);
        assert(i == DiffItemTypeChanged { prev: i.prev, new: file });
        lemma_lists(d.type_changed@, p, DiffItemTypeChanged { prev: i.prev, new: file });
    }
    if exists|prev: SnapshotItemMetadata| #[trigger]
        lists(d.type_changed@, p, DiffItemTypeChanged { prev, new: file }) {
        let prev = choose|prev: SnapshotItemMetadata| #[trigger]
            lists(d.type_changed@, p, DiffItemTypeChanged { prev, new: file });
        let i = DiffItemTypeChanged { prev, new: file };
        lemma_lists(d.type_changed@, p, i);
        assert(t.contains((p, i)) && new_files()(i) == Some(m));
    }
    lemma_added_add_up(a);
    lemma_changed_add_up(t);
    crate::entries::lemma_pick_all(o, modified_files());
    assert(texts(plan.to_create_dirs@).len() == plan.to_create_dirs@.len());
    assert(entries(plan.to_transfer@).len() == plan.to_transfer@.len());
    assert(a.len() == d.added@.len() && o.len() == d.modified@.len());
    assert(t.len() == d.type_changed@.len());
}

proof fn lemma_added_add_up(a: Seq<(Seq<char>, DiffItemAdded)>)
    ensures
        pick(a, added_dirs()).len() + pick(a, added_files()).len() == a.len(),
    decreases a.len(),
{
    if a.len() > 0 {
        lemma_added_add_up(a.drop_last());
    }
}

proof fn lemma_changed_add_up(t: Seq<(Seq<char>, DiffItemTypeChanged)>)
    ensures
        pick(t, new_dirs()).len() + pick(t, new_files()).len() == t.len(),
    decreases t.len(),
{
    if t.len() > 0 {
        lemma_changed_add_up(t.drop_last());
    }
}

proof fn lemma_concat_has<T>(s: Seq<T>, t: Seq<T>, e: T)
    ensures
        (s + t).contains(e) <==> s.contains(e) || t.contains(e),
{
    let all = s + t;
    if s.contains(e) {
        let i = choose|i: int| 0 <= i < s.len() && s[i] == e;
        assert(all[i] == e);
    }
    if t.contains(e) {
        let i = choose|i: int| 0 <= i < t.len() && t[i] == e;
        assert(all[s.len() + i] == e);
    }
    if all.contains(e) {
        let i = choose|i: int| 0 <= i < all.len() && all[i] == e;
        if i < s.len() {
            assert(s[i] == e);
        } else {
            assert(t[i - s.len()] == e);
        }
    }
}

proof fn lemma_reverse_has<T>(s: Seq<T>, e: T)
    ensures
        s.reverse().contains(e) <==> s.contains(e),
{
    let r = s.reverse();
    if s.contains(e) {
        let i = choose|i: int| 0 <= i < s.len() && s[i] == e;
        assert(r[s.len() - 1 - i] == e);
    }
    if r.contains(e) {
        let i = choose|i: int| 0 <= i < r.len() && r[i] == e;
        assert(s[s.len() - 1 - i] == e);
    }
}

proof fn lemma_paths_has(s: Seq<(Seq<char>, ())>, p: Seq<char>)
    ensures
        paths_of(s).contains(p) <==> s.contains((p, ())),
{
    let q = paths_of(s);
    if q.contains(p) {
        let i = choose|i: int| 0 <= i < q.len() && q[i] == p;
        assert(s[i] == (p, ()));
    }
    if s.contains((p, ())) {
        let i = choose|i: int| 0 <= i < s.len() && s[i] == (p, ());
        assert(q[i] == p);
    }
}

/// Whether a list, as the code holds it, names a path.
pub open spec fn is_listed<T>(v: Seq<(String, T)>, p: Seq<char>) -> bool {
    exists|k: int| 0 <= k < v.len() && (#[trigger] v[k]).0@ == p
}

proof fn lemma_is_listed<T, U>(v: Seq<(String, T)>, f: spec_fn(T) -> Option<U>, i: int)
    requires
        0 <= i < pick(entries(v), f).len(),
    ensures
        is_listed(v, pick(entries(v), f)[i].0),
        names(entries(v), pick(entries(v), f)[i].0),
{
    let s = entries(v);
    lemma_pick_entries(s, f);
    let k = choose|k: int| 0 <= k < s.len() && (#[trigger] s[k]).0 == pick(s, f)[i].0;
    assert(v[k].0@ == pick(s, f)[i].0);
}

proof fn lemma_listed_names<T>(v: Seq<(String, T)>, p: Seq<char>)
    ensures
        is_listed(v, p) <==> names(entries(v), p),
{
    let s = entries(v);
    if is_listed(v, p) {
        let k = choose|k: int| 0 <= k < v.len() && (#[trigger] v[k]).0@ == p;
        assert(s[k].0 == p);
    }
    if names(s, p) {
        let k = choose|k: int| 0 <= k < s.len() && (#[trigger] s[k]).0 == p;
        assert(v[k].0@ == p);
    }
}

/// Files are sent in this order: the added ones, the modified ones, and those that were directories,
/// each of these in the order of their paths.
pub proof fn law_transfers_in_order(
    d: Diff,
    plan: SyncPlan,
    local: Snapshot,
    remote: Snapshot,
    i: int,
    j: int,
)
    requires
        is_diff(d, local.listing(), remote.listing()),
        names_once(local),
        plan.carries_out(d),
        0 <= i < plan.to_transfer@.len(),
        0 <= j < plan.to_transfer@.len(),
    ensures
        ({
            let (p, q) = (plan.to_transfer@[i].0@, plan.to_transfer@[j].0@);
            &&& is_listed(d.added@, p) && is_listed(d.modified@, q) ==> i < j
            &&& is_listed(d.added@, p) && is_listed(d.type_changed@, q) ==> i < j
            &&& is_listed(d.modified@, p) && is_listed(d.type_changed@, q) ==> i < j
            &&& i < j && is_listed(d.added@, p) && is_listed(d.added@, q) ==> path_less(p, q)
            &&& i < j && is_listed(d.modified@, p) && is_listed(d.modified@, q) ==> path_less(p, q)
            &&& i < j && is_listed(d.type_changed@, p) && is_listed(d.type_changed@, q)
                ==> path_less(p, q)
        }),
{
    let (a, o, t) = (entries(d.added@), entries(d.modified@), entries(d.type_changed@));
    let (s, v, u) = (pick(a, added_files()), pick(o, modified_files()), pick(t, new_files()));
    lemma_listing(local, seq![], SnapshotItemMetadata::Directory);
    law_each_path_once(d, local.listing(), remote.listing());
    lemma_pick_entries(a, added_files());
    lemma_pick_entries(o, modified_files());
    lemma_pick_entries(t, new_files());
    let all = entries(plan.to_transfer@);
    assert(all == s + v + u);
    assert(all.len() == plan.to_transfer@.len());
    assert((s + v + u).len() == s.len() + v.len() + u.len());
    let (n, m) = (s.len() as int, s.len() + v.len());
    let (p, q) = (all[i].0, all[j].0);
    lemma_listed_names(d.added@, p);
    lemma_listed_names(d.modified@, p);
    lemma_listed_names(d.type_changed@, p);
    lemma_listed_names(d.added@, q);
    lemma_listed_names(d.modified@, q);
    lemma_listed_names(d.type_changed@, q);
    if i < n {
        assert(all[i] == s[i]);
        lemma_is_listed(d.added@, added_files(), i);
    } else if i < m {
        assert(all[i] == v[i - n]);
        lemma_is_listed(d.modified@, modified_files(), i - n);
    } else {
        assert(all[i] == u[i - m]);
        lemma_is_listed(d.type_changed@, new_files(), i - m);
    }
    if j < n {
        assert(all[j] == s[j]);
        lemma_is_listed(d.added@, added_files(), j);
    } else if j < m {
        assert(all[j] == v[j - n]);
        lemma_is_listed(d.modified@, modified_files(), j - n);
    } else {
        assert(all[j] == u[j - m]);
        lemma_is_listed(d.type_changed@, new_files(), j - m);
    }
}

/// Directories are created in this order: the added ones, and those that were files, each of these
/// in the order of their paths.
pub proof fn law_creations_in_order(
    d: Diff,
    plan: SyncPlan,
    local: Snapshot,
    remote: Snapshot,
    i: int,
    j: int,
)
    requires
        is_diff(d, local.listing(), remote.listing()),
        names_once(local),
        plan.carries_out(d),
        0 <= i < plan.to_create_dirs@.len(),
        0 <= j < plan.to_create_dirs@.len(),
    ensures
        ({
            let (p, q) = (plan.to_create_dirs@[i]@, plan.to_create_dirs@[j]@);
            &&& is_listed(d.added@, p) && is_listed(d.type_changed@, q) ==> i < j
            &&& i < j && is_listed(d.added@, p) && is_listed(d.added@, q) ==> path_less(p, q)
            &&& i < j && is_listed(d.type_changed@, p) && is_listed(d.type_changed@, q)
                ==> path_less(p, q)
        }),
{
    let (a, t) = (entries(d.added@), entries(d.type_changed@));
    let (s, u) = (pick(a, added_dirs()), pick(t, new_dirs()));
    lemma_listing(local, seq![], SnapshotItemMetadata::Directory);
    law_each_path_once(d, local.listing(), remote.listing());
    lemma_pick_entries(a, added_dirs());
    lemma_pick_entries(t, new_dirs());
    let all = texts(plan.to_create_dirs@);
    assert(all == paths_of(s) + paths_of(u));
    assert(all.len() == plan.to_create_dirs@.len());
    assert((paths_of(s) + paths_of(u)).len() == s.len() + u.len());
    let n = s.len() as int;
    let (p, q) = (all[i], all[j]);
    lemma_listed_names(d.added@, p);
    lemma_listed_names(d.type_changed@, p);
    lemma_listed_names(d.added@, q);
    lemma_listed_names(d.type_changed@, q);
    if i < n {
        assert(all[i] == s[i].0);
        lemma_is_listed(d.added@, added_dirs(), i);
    } else {
        assert(all[i] == u[i - n].0);
        lemma_is_listed(d.type_changed@, new_dirs(), i - n);
    }
    if j < n {
        assert(all[j] == s[j].0);
        lemma_is_listed(d.added@, added_dirs(), j);
    } else {
        assert(all[j] == u[j - n].0);
        lemma_is_listed(d.type_changed@, new_dirs(), j - n);
    }
}

/// Items are deleted in this order: those that changed their type, and the deleted ones, each of
/// these against the order of their paths.
pub proof fn law_deletions_in_order(
    d: Diff,
    plan: SyncPlan,
    local: Snapshot,
    remote: Snapshot,
    i: int,
    j: int,
)
    requires
        is_diff(d, local.listing(), remote.listing()),
        names_once(local),
        plan.carries_out(d),
        0 <= i < plan.to_delete@.len(),
        0 <= j < plan.to_delete@.len(),
    ensures
        ({
            let (p, q) = (plan.to_delete@[i].0@, plan.to_delete@[j].0@);
            &&& is_listed(d.type_changed@, p) && is_listed(d.deleted@, q) ==> i < j
            &&& i < j && is_listed(d.deleted@, p) && is_listed(d.deleted@, q) ==> path_less(q, p)
            &&& i < j && is_listed(d.type_changed@, p) && is_listed(d.type_changed@, q)
                ==> path_less(q, p)
        }),
{
    let (x, t) = (entries(d.deleted@), entries(d.type_changed@));
    let (s, u) = (pick(x, removed()), pick(t, replaced()));
    lemma_listing(local, seq![], SnapshotItemMetadata::Directory);
    law_each_path_once(d, local.listing(), remote.listing());
    lemma_pick_entries(x, removed());
    lemma_pick_entries(t, replaced());
    let all = entries(plan.to_delete@);
    assert(all == (s + u).reverse());
    let (n, m) = (s.len() as int, s.len() + u.len());
    assert((s + u).reverse().len() == (s + u).len());
    assert(all.len() == plan.to_delete@.len());
    assert(all.len() == m);
    let (e, f) = (m - 1 - i, m - 1 - j);
    assert(all[i] == (s + u)[e] && all[j] == (s + u)[f]);
    let (p, q) = (all[i].0, all[j].0);
    lemma_listed_names(d.deleted@, p);
    lemma_listed_names(d.type_changed@, p);
    lemma_listed_names(d.deleted@, q);
    lemma_listed_names(d.type_changed@, q);
    if e < n {
        assert(all[i] == s[e]);
        lemma_is_listed(d.deleted@, removed(), e);
    } else {
        assert(all[i] == u[e - n]);
        lemma_is_listed(d.type_changed@, replaced(), e - n);
    }
    if f < n {
        assert(all[j] == s[f]);
        lemma_is_listed(d.deleted@, removed(), f);
    } else {
        assert(all[j] == u[f - n]);
        lemma_is_listed(d.type_changed@, replaced(), f - n);
    }
}

/// Each time that the local snapshot names a file, it is compared with what the remote one tells last
/// of its path.
pub proof fn law_every_occurrence_is_compared(
    d: Diff,
    local: Snapshot,
    remote: Snapshot,
    i: int,
    prev: SnapshotFileMetadata,
    new: SnapshotFileMetadata,
)
    requires
        is_diff(d, local.listing(), remote.listing()),
        0 <= i < local.items@.len(),
        local.items@[i].metadata == SnapshotItemMetadata::File(new),
        contents(remote.listing()).contains_key(local.items@[i].relative_path@),
        contents(remote.listing())[local.items@[i].relative_path@] == SnapshotItemMetadata::File(
            prev,
        ),
        prev != new,
    ensures
        lists(d.modified@, local.items@[i].relative_path@, DiffItemModified { prev, new }),
{
    let p = local.items@[i].relative_path@;
    let (l, r) = (local.listing(), remote.listing());
    let u = DiffItemModified { prev, new };
    let c = changes_at(l, r, p);
    assert(l[i] == (p, SnapshotItemMetadata::File(new)));
    lemma_at_contains(l, i);
    lemma_contents_at(l, p);
    let here = at(l, p);
    let k = choose|k: int| 0 <= k < here.len() && here[k] == SnapshotItemMetadata::File(new);
    let f = crate::diffing::change_from(contents(r)[p]);
    lemma_picked(here, f);
    assert(f(here[k]) == Some(DiffType::Modified(u)));
    assert(c.contains(DiffType::Modified(u)));
    assert(at(entries(d.modified@), p) == pick_values(c, as_modified()));
    lemma_listed_change(d.modified@, as_modified(), c, p, u);
    assert(as_modified()(DiffType::Modified(u)) == Some(u));
}

} // verus!

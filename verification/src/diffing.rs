//! What changed between two snapshots.
use vstd::hash_map::StringHashMap;
use vstd::prelude::*;

use crate::entries::{
    at, contents, entries, lemma_at_absent, lemma_at_concat, lemma_at_contains, lemma_at_pick,
    lemma_at_push, lemma_contents_at, lemma_pick_entries, lemma_pick_push, lemma_sorted_drop_last,
    paths_sorted, pick, pick_values,
};
use crate::order::{
    is_before, law_path_order_irreflexive, law_path_order_total, law_path_order_transitive,
    path_less,
};
use crate::snapshot::{Snapshot, SnapshotFileMetadata, SnapshotItem, SnapshotItemMetadata};

verus! {

/// The changes that lead from one snapshot to another, by kind. Each list is in path order.
#[derive(Debug)]
pub struct Diff {
    pub added: Vec<(String, DiffItemAdded)>,
    pub modified: Vec<(String, DiffItemModified)>,
    pub type_changed: Vec<(String, DiffItemTypeChanged)>,
    pub deleted: Vec<(String, DiffItemDeleted)>,
}

/// One change, of any kind.
#[derive(Debug)]
pub struct DiffItem {
    pub status: DiffType,
    pub path: String,
}

/// What happened to an item.
#[derive(Debug, Clone, Copy, PartialEq, Eq, Structural)]
pub enum DiffType {
    Added(DiffItemAdded),
    Modified(DiffItemModified),
    /// A file became a directory, or a directory became a file.
    TypeChanged(DiffItemTypeChanged),
    Deleted(DiffItemDeleted),
}

#[derive(Debug, Clone, Copy, PartialEq, Eq, Structural)]
pub struct DiffItemAdded {
    pub new: SnapshotItemMetadata,
}

#[derive(Debug, Clone, Copy, PartialEq, Eq, Structural)]
pub struct DiffItemModified {
    pub prev: SnapshotFileMetadata,
    pub new: SnapshotFileMetadata,
}

#[derive(Debug, Clone, Copy, PartialEq, Eq, Structural)]
pub struct DiffItemTypeChanged {
    pub prev: SnapshotItemMetadata,
    pub new: SnapshotItemMetadata,
}

#[derive(Debug, Clone, Copy, PartialEq, Eq, Structural)]
pub struct DiffItemDeleted {
    pub prev: SnapshotItemMetadata,
}

// ---------------------------------------------------------------------------------------------
// Model
// ---------------------------------------------------------------------------------------------

/// A list of changes, each seen as its path and what happened there.
pub open spec fn changes(items: Seq<DiffItem>) -> Seq<(Seq<char>, DiffType)> {
    items.map_values(|i: DiffItem| (i.path@, i.status))
}

/// Picks the additions.
pub open spec fn as_added() -> spec_fn(DiffType) -> Option<DiffItemAdded> {
    |t: DiffType|
        match t {
            DiffType::Added(i) => Some(i),
            _ => None,
        }
}

/// Picks the modifications.
pub open spec fn as_modified() -> spec_fn(DiffType) -> Option<DiffItemModified> {
    |t: DiffType|
        match t {
            DiffType::Modified(i) => Some(i),
            _ => None,
        }
}

/// Picks the changes of type.
pub open spec fn as_type_changed() -> spec_fn(DiffType) -> Option<DiffItemTypeChanged> {
    |t: DiffType|
        match t {
            DiffType::TypeChanged(i) => Some(i),
            _ => None,
        }
}

/// Picks the deletions.
pub open spec fn as_deleted() -> spec_fn(DiffType) -> Option<DiffItemDeleted> {
    |t: DiffType|
        match t {
            DiffType::Deleted(i) => Some(i),
            _ => None,
        }
}

/// What happened to an item that was `prev` and is `new`: nothing where both are directories or
/// files with the same metadata.
pub open spec fn change_between(
    prev: SnapshotItemMetadata,
    new: SnapshotItemMetadata,
) -> Option<DiffType> {
    match (new, prev) {
        (SnapshotItemMetadata::Directory, SnapshotItemMetadata::Directory) => None,
        (SnapshotItemMetadata::File(n), SnapshotItemMetadata::File(p)) => if n == p {
            None
        } else {
            Some(DiffType::Modified(DiffItemModified { prev: p, new: n }))
        },
        _ => Some(DiffType::TypeChanged(DiffItemTypeChanged { prev, new })),
    }
}

/// What happened to an item that was `prev`, as a function of what it is now.
pub open spec fn change_from(prev: SnapshotItemMetadata) -> spec_fn(
    SnapshotItemMetadata,
) -> Option<DiffType> {
    |new: SnapshotItemMetadata| change_between(prev, new)
}

/// What happened at one path. A path that only one side has was added or deleted, as that side
/// tells of it last; one that both have is compared, each time that the local side names it,
/// with what the remote side tells of it last.
pub open spec fn changes_at(
    local: Seq<(Seq<char>, SnapshotItemMetadata)>,
    remote: Seq<(Seq<char>, SnapshotItemMetadata)>,
    p: Seq<char>,
) -> Seq<DiffType> {
    let l = contents(local);
    let r = contents(remote);
    if l.contains_key(p) && r.contains_key(p) {
        pick_values(at(local, p), change_from(r[p]))
    } else if l.contains_key(p) {
        seq![DiffType::Added(DiffItemAdded { new: l[p] })]
    } else if r.contains_key(p) {
        seq![DiffType::Deleted(DiffItemDeleted { prev: r[p] })]
    } else {
        seq![]
    }
}

/// Whether a list of entries is in path order and tells of each path what `f` picks from what
/// happened there.
pub open spec fn lists_changes<T>(
    s: Seq<(Seq<char>, T)>,
    f: spec_fn(DiffType) -> Option<T>,
    local: Seq<(Seq<char>, SnapshotItemMetadata)>,
    remote: Seq<(Seq<char>, SnapshotItemMetadata)>,
) -> bool {
    &&& paths_sorted(s)
    &&& forall|p: Seq<char>| #[trigger]
        at(s, p) == pick_values(changes_at(local, remote, p), f)
}

/// Whether a diff tells all that happened between two snapshots, and nothing else.
pub open spec fn is_diff(
    d: Diff,
    local: Seq<(Seq<char>, SnapshotItemMetadata)>,
    remote: Seq<(Seq<char>, SnapshotItemMetadata)>,
) -> bool {
    &&& lists_changes(entries(d.added@), as_added(), local, remote)
    &&& lists_changes(entries(d.modified@), as_modified(), local, remote)
    &&& lists_changes(entries(d.type_changed@), as_type_changed(), local, remote)
    &&& lists_changes(entries(d.deleted@), as_deleted(), local, remote)
}

/// Whether a diff is made of some changes, sorted by their kind. Within a kind they keep their order.
pub open spec fn sorts_by_kind(items: Seq<DiffItem>, d: Diff) -> bool {
    &&& entries(d.added@) == pick(changes(items), as_added())
    &&& entries(d.modified@) == pick(changes(items), as_modified())
    &&& entries(d.type_changed@) == pick(changes(items), as_type_changed())
    &&& entries(d.deleted@) == pick(changes(items), as_deleted())
}

// ---------------------------------------------------------------------------------------------
// Code
// ---------------------------------------------------------------------------------------------

impl Diff {
    /// Sorts changes by their kind. Within a kind they keep their order.
    pub fn new(items: Vec<DiffItem>) -> (r: Self)
        ensures
            sorts_by_kind(items@, r),
    {
        let mut added: Vec<(String, DiffItemAdded)> = Vec::new();
        let mut modified: Vec<(String, DiffItemModified)> = Vec::new();
        let mut type_changed: Vec<(String, DiffItemTypeChanged)> = Vec::new();
        let mut deleted: Vec<(String, DiffItemDeleted)> = Vec::new();
        let ghost all = items@;
        assert(changes(all.take(0)) =~= seq![]);
        assert(entries(added@) =~= seq![]);
        assert(entries(modified@) =~= seq![]);
        assert(entries(type_changed@) =~= seq![]);
        assert(entries(deleted@) =~= seq![]);
        for item in it: items
            invariant
                it.seq() == all,
                entries(added@) == pick(changes(all.take(it.index() as int)), as_added()),
                entries(modified@) == pick(changes(all.take(it.index() as int)), as_modified()),
                entries(type_changed@) == pick(
                    changes(all.take(it.index() as int)),
                    as_type_changed(),
                ),
                entries(deleted@) == pick(changes(all.take(it.index() as int)), as_deleted()),
        {
            let ghost n = it.index() as int;
            let ghost before = changes(all.take(n));
            let ghost e = (item.path@, item.status);
            let ghost (a0, m0, t0, d0) = (added@, modified@, type_changed@, deleted@);
            proof {
                assert(changes(all.take(n + 1)) =~= before.push(e));
                lemma_pick_push(before, e, as_added());
                lemma_pick_push(before, e, as_modified());
                lemma_pick_push(before, e, as_type_changed());
                lemma_pick_push(before, e, as_deleted());
            }
            match item.status {
                DiffType::Added(i) => {
                    added.push((item.path, i));
                    assert(entries(added@) =~= entries(a0).push((e.0, i)));
                },
                DiffType::Modified(i) => {
                    modified.push((item.path, i));
                    assert(entries(modified@) =~= entries(m0).push((e.0, i)));
                },
                DiffType::TypeChanged(i) => {
                    type_changed.push((item.path, i));
                    assert(entries(type_changed@) =~= entries(t0).push((e.0, i)));
                },
                DiffType::Deleted(i) => {
                    deleted.push((item.path, i));
                    assert(entries(deleted@) =~= entries(d0).push((e.0, i)));
                },
            }
        }
        assert(all.take(all.len() as int) =~= all);
        Self { added, modified, type_changed, deleted }
    }
}

proof fn lemma_contents_push<T>(s: Seq<(Seq<char>, T)>, e: (Seq<char>, T))
    ensures
        contents(s.push(e)) == contents(s).insert(e.0, e.1),
{
    assert(s.push(e).drop_last() =~= s);
}

/// Indexes the items of a snapshot by their paths. Where a path occurs more than once, its last
/// item counts.
pub fn build_item_names_hashmap(snapshot: &Snapshot) -> (r: StringHashMap<SnapshotItemMetadata>)
    ensures
        r@ == contents(snapshot.listing()),
{
    let mut r: StringHashMap<SnapshotItemMetadata> = StringHashMap::new();
    let n: usize = snapshot.items.len();
    let ghost all = snapshot.listing();
    assert(all.take(0) =~= seq![]);
    for i in 0..n
        invariant
            n == snapshot.items@.len(),
            all == snapshot.listing(),
            r@ == contents(all.take(i as int)),
    {
        let item: &SnapshotItem = &snapshot.items[i];
        r.insert(item.relative_path.clone(), item.metadata);
        proof {
            let e = (item.relative_path@, item.metadata);
            assert(all.take(i + 1) =~= all.take(i as int).push(e));
            lemma_contents_push(all.take(i as int), e);
        }
    }
    assert(all.take(n as int) =~= all);
    r
}

/// The items of a snapshot whose paths another one does not have, each path once.
fn missing_items(
    snapshot: &Snapshot,
    items: &StringHashMap<SnapshotItemMetadata>,
    others: &StringHashMap<SnapshotItemMetadata>,
) -> (r: Vec<(String, SnapshotItemMetadata)>)
    requires
        items@ == contents(snapshot.listing()),
    ensures
        forall|p: Seq<char>| #[trigger]
            at(entries(r@), p) == if items@.contains_key(p) && !others@.contains_key(p) {
                seq![items@[p]]
            } else {
                seq![]
            },
{
    let mut r: Vec<(String, SnapshotItemMetadata)> = Vec::new();
    let mut seen: StringHashMap<()> = StringHashMap::new();
    let n: usize = snapshot.items.len();
    let ghost all = snapshot.listing();
    assert(all.take(0) =~= seq![]);
    assert(entries(r@) =~= seq![]);
    for i in 0..n
        invariant
            n == snapshot.items@.len(),
            all == snapshot.listing(),
            items@ == contents(all),
            forall|p: Seq<char>| #[trigger]
                seen@.contains_key(p) <==> contents(all.take(i as int)).contains_key(p),
            forall|p: Seq<char>| #[trigger]
                at(entries(r@), p) == if seen@.contains_key(p) && !others@.contains_key(p) {
                    seq![items@[p]]
                } else {
                    seq![]
                },
    {
        let item: &SnapshotItem = &snapshot.items[i];
        let path: &str = item.relative_path.as_str();
        let ghost q = item.relative_path@;
        let ghost r0 = r@;
        let ghost seen0 = seen@;
        proof {
            let e = (q, item.metadata);
            assert(all.take(i + 1) =~= all.take(i as int).push(e));
            lemma_contents_push(all.take(i as int), e);
            assert(e == all[i as int]);
            lemma_contents_of_entry(all, i as int);
        }
        if !seen.contains_key(path) {
            seen.insert(item.relative_path.clone(), ());
            if !others.contains_key(path) {
                match items.get(path) {
                    Some(metadata) => {
                        r.push((item.relative_path.clone(), *metadata));
                        proof {
                            assert(entries(r@) =~= entries(r0).push((q, items@[q])));
                            assert forall|p: Seq<char>| #[trigger]
                                at(entries(r@), p) == if seen@.contains_key(p)
                                && !others@.contains_key(p) {
                                seq![items@[p]]
                            } else {
                                seq![]
                            } by {
                                lemma_at_push(entries(r0), (q, items@[q]), p);
                                assert(seen@.contains_key(p) <==> seen0.contains_key(p) || p == q);
                                if p == q {
                                    assert(at(entries(r0), p) =~= seq![]);
                                    assert(at(entries(r@), p) =~= seq![items@[p]]);
                                }
                            }
                        }
                    },
                    None => {
                        assert(false);
                    },
                }
            }
        }
    }
    assert(all.take(n as int) =~= all);
    r
}

/// A path that a list names is in its contents.
proof fn lemma_contents_of_entry<T>(s: Seq<(Seq<char>, T)>, i: int)
    requires
        0 <= i < s.len(),
    ensures
        contents(s).contains_key(s[i].0),
{
    lemma_at_contains(s, i);
    lemma_contents_at(s, s[i].0);
}

/// What happened to an item that was `prev` and is `new`.
fn compare_items(prev: SnapshotItemMetadata, new: SnapshotItemMetadata) -> (r: Option<DiffType>)
    ensures
        r == change_between(prev, new),
{
    match (new, prev) {
        // Both directories: no change.
        (SnapshotItemMetadata::Directory, SnapshotItemMetadata::Directory) => None,
        // A directory on one side, a file on the other.
        (SnapshotItemMetadata::Directory, SnapshotItemMetadata::File(_))
        | (SnapshotItemMetadata::File(_), SnapshotItemMetadata::Directory) => Some(
            DiffType::TypeChanged(DiffItemTypeChanged { prev, new }),
        ),
        // Otherwise their metadata tell whether something changed.
        (SnapshotItemMetadata::File(n), SnapshotItemMetadata::File(p)) => {
            if n == p {
                None
            } else {
                Some(DiffType::Modified(DiffItemModified { prev: p, new: n }))
            }
        },
    }
}

/// Of the items of a snapshot whose paths another one has too, those that differ there.
fn changed_items(
    snapshot: &Snapshot,
    others: &StringHashMap<SnapshotItemMetadata>,
) -> (r: Vec<DiffItem>)
    ensures
        forall|p: Seq<char>| #[trigger]
            at(changes(r@), p) == if others@.contains_key(p) {
                pick_values(at(snapshot.listing(), p), change_from(others@[p]))
            } else {
                seq![]
            },
{
    let mut r: Vec<DiffItem> = Vec::new();
    let n: usize = snapshot.items.len();
    let ghost all = snapshot.listing();
    assert(all.take(0) =~= seq![]);
    assert(changes(r@) =~= seq![]);
    for i in 0..n
        invariant
            n == snapshot.items@.len(),
            all == snapshot.listing(),
            forall|p: Seq<char>| #[trigger]
                at(changes(r@), p) == if others@.contains_key(p) {
                    pick_values(at(all.take(i as int), p), change_from(others@[p]))
                } else {
                    seq![]
                },
    {
        let item: &SnapshotItem = &snapshot.items[i];
        let ghost q = item.relative_path@;
        let ghost e = (q, item.metadata);
        let ghost r0 = r@;
        let ghost before = all.take(i as int);
        assert(all.take(i + 1) =~= before.push(e));
        match others.get(item.relative_path.as_str()) {
            Some(prev) => {
                match compare_items(*prev, item.metadata) {
                    Some(status) => {
                        r.push(DiffItem { path: item.relative_path.clone(), status });
                        assert(changes(r@) =~= changes(r0).push((q, status)));
                    },
                    None => {},
                }
            },
            None => {},
        }
        assert forall|p: Seq<char>| #[trigger]
            at(changes(r@), p) == if others@.contains_key(p) {
            pick_values(at(all.take(i + 1), p), change_from(others@[p]))
        } else {
            seq![]
        } by {
            lemma_at_push(before, e, p);
            if p == q {
                let f = change_from(others@[p]);
                assert(at(before, p).push(e.1).drop_last() =~= at(before, p));
            }
            if r@ != r0 {
                lemma_at_push(changes(r0), changes(r@).last(), p);
            }
        }
    }
    assert(all.take(n as int) =~= all);
    r
}

/// Whether no path of one list comes before a path of another.
spec fn all_before<T>(s: Seq<(Seq<char>, T)>, t: Seq<(Seq<char>, T)>) -> bool {
    forall|i: int, j: int|
        #![trigger s[i], t[j]]
        0 <= i < s.len() && 0 <= j < t.len() ==> !path_less(t[j].0, s[i].0)
}

/// Where the largest path of two sorted lists ends the first one, the second does not name it.
proof fn lemma_smaller_paths_absent<T>(s: Seq<(Seq<char>, T)>, p: Seq<char>)
    requires
        s.len() > 0,
        paths_sorted(s),
        path_less(s.last().0, p),
    ensures
        at(s, p) == Seq::<T>::empty(),
{
    assert forall|i: int| 0 <= i < s.len() implies (#[trigger] s[i]).0 != p by {
        if s[i].0 == p {
            law_path_order_irreflexive(p);
            if i < s.len() - 1 {
                assert(!path_less(s[s.len() - 1].0, s[i].0));
            }
        }
    }
    lemma_at_absent(s, p);
}

/// Every path of a sorted list is at most a path that comes after none of the last one's.
proof fn lemma_last_is_largest<T>(s: Seq<(Seq<char>, T)>, p: Seq<char>)
    requires
        s.len() > 0,
        paths_sorted(s),
        !path_less(p, s.last().0),
    ensures
        forall|i: int| 0 <= i < s.len() ==> !path_less(p, (#[trigger] s[i]).0),
{
    assert forall|i: int| 0 <= i < s.len() implies !path_less(p, (#[trigger] s[i]).0) by {
        if path_less(p, s[i].0) && i < s.len() - 1 {
            let last = s[s.len() - 1].0;
            assert(!path_less(last, s[i].0));
            law_path_order_total(last, s[i].0);
            if path_less(s[i].0, last) {
                law_path_order_transitive(p, s[i].0, last);
            }
        }
    }
}

/// One step of merging: `x`, the last entry of `from`, moves to the front of what was merged.
proof fn lemma_move_to_front(
    from: Seq<(Seq<char>, DiffType)>,
    other: Seq<(Seq<char>, DiffType)>,
    done: Seq<(Seq<char>, DiffType)>,
)
    requires
        from.len() > 0,
        paths_sorted(from),
        paths_sorted(other),
        paths_sorted(done),
        all_before(from, done),
        all_before(other, done),
        other.len() == 0 || !path_less(from.last().0, other.last().0),
    ensures
        paths_sorted(from.drop_last()),
        paths_sorted(seq![from.last()] + done),
        all_before(from.drop_last(), seq![from.last()] + done),
        all_before(other, seq![from.last()] + done),
        forall|p: Seq<char>| #[trigger]
            at(from, p) == at(from.drop_last(), p) + at(seq![from.last()], p),
        forall|p: Seq<char>| #[trigger]
            at(seq![from.last()] + done, p) == at(seq![from.last()], p) + at(done, p),
{
    let x = from.last();
    let next = seq![x] + done;
    lemma_sorted_drop_last(from);
    assert(from[from.len() - 1] == x);
    if other.len() > 0 {
        lemma_last_is_largest(other, x.0);
    }
    assert forall|i: int, j: int| #![trigger next[i], next[j]] 0 <= i < j < next.len() implies
        !path_less(next[j].0, next[i].0) by {
        assert(next[j] == done[j - 1]);
        if i == 0 {
            assert(!path_less(done[j - 1].0, from[from.len() - 1].0));
        } else {
            assert(next[i] == done[i - 1]);
        }
    }
    assert forall|i: int, j: int|
        #![trigger from.drop_last()[i], next[j]]
        0 <= i < from.drop_last().len() && 0 <= j < next.len() implies !path_less(
        next[j].0,
        from.drop_last()[i].0,
    ) by {
        assert(from.drop_last()[i] == from[i]);
        if j == 0 {
            assert(!path_less(from[from.len() - 1].0, from[i].0));
        } else {
            assert(next[j] == done[j - 1]);
        }
    }
    assert forall|i: int, j: int|
        #![trigger other[i], next[j]]
        0 <= i < other.len() && 0 <= j < next.len() implies !path_less(next[j].0, other[i].0) by {
        if j > 0 {
            assert(next[j] == done[j - 1]);
        }
    }
    assert forall|p: Seq<char>| #[trigger]
        at(from, p) == at(from.drop_last(), p) + at(seq![x], p) by {
        assert(from =~= from.drop_last() + seq![x]);
        lemma_at_concat(from.drop_last(), seq![x], p);
    }
    assert forall|p: Seq<char>| #[trigger]
        at(next, p) == at(seq![x], p) + at(done, p) by {
        lemma_at_concat(seq![x], done, p);
    }
}

/// Merges two sorted lists. Of entries with the same path those of the first list come first.
fn merge(first: Vec<DiffItem>, second: Vec<DiffItem>) -> (r: Vec<DiffItem>)
    requires
        paths_sorted(changes(first@)),
        paths_sorted(changes(second@)),
    ensures
        paths_sorted(changes(r@)),
        forall|p: Seq<char>| #[trigger]
            at(changes(r@), p) == at(changes(first@), p) + at(changes(second@), p),
{
    let ghost first0 = changes(first@);
    let ghost second0 = changes(second@);
    let mut a: Vec<DiffItem> = first;
    let mut b: Vec<DiffItem> = second;
    // What was merged so far, from the end to the front.
    let mut backwards: Vec<DiffItem> = Vec::new();
    let ghost mut done: Seq<(Seq<char>, DiffType)> = seq![];
    assert forall|p: Seq<char>| #[trigger]
        at(first0, p) + at(second0, p) == at(first0, p) + at(second0, p) + at(done, p) by {
        assert(at(first0, p) + at(second0, p) =~= at(first0, p) + at(second0, p) + at(done, p));
    }
    while a.len() > 0 || b.len() > 0
        invariant
            paths_sorted(changes(a@)),
            paths_sorted(changes(b@)),
            paths_sorted(done),
            all_before(changes(a@), done),
            all_before(changes(b@), done),
            changes(backwards@) == done.reverse(),
            forall|p: Seq<char>|
                #![trigger at(done, p)]
                at(first0, p) + at(second0, p) == at(changes(a@), p) + at(changes(b@), p) + at(
                    done,
                    p,
                ),
        decreases a@.len() + b@.len(),
    {
        let ghost (a0, b0, done0, back0) = (changes(a@), changes(b@), done, backwards@);
        let from_first: bool = b.len() == 0 || (a.len() > 0 && is_before(
            b[b.len() - 1].path.as_str(),
            a[a.len() - 1].path.as_str(),
        ));
        if from_first {
            match a.pop() {
                Some(item) => {
                    proof {
                        let x = (item.path@, item.status);
                        assert(a0.last() == x);
                        assert(changes(a@) =~= a0.drop_last());
                        if b0.len() > 0 {
                            assert(path_less(b0.last().0, x.0));
                            lemma_before_not_after(b0.last().0, x.0);
                        }
                        lemma_move_to_front(a0, b0, done0);
                        done = seq![x] + done0;
                        assert forall|p: Seq<char>|
                            #![trigger at(done, p)]
                            at(first0, p) + at(second0, p) == at(changes(a@), p) + at(
                            changes(b@),
                            p,
                        ) + at(done, p) by {
                            let moved = at(seq![x], p);
                            assert(at(done0, p) == at(done0, p));
                            assert(at(a0, p) == at(a0.drop_last(), p) + moved);
                            if p == x.0 && b0.len() > 0 {
                                lemma_smaller_paths_absent(b0, p);
                            }
                            if p != x.0 {
                                lemma_at_absent(seq![x], p);
                            }
                            assert(moved + at(b0, p) =~= at(b0, p) + moved) by {
                                assert(moved.len() == 0 || at(b0, p).len() == 0);
                            }
                            assert(at(a0, p) + at(b0, p) + at(done0, p) =~= at(a0.drop_last(), p)
                                + at(b0, p) + at(done, p)) by {
                                assert(at(a0, p) + at(b0, p) =~= at(a0.drop_last(), p) + (moved
                                    + at(b0, p)));
                                assert(at(done, p) == moved + at(done0, p));
                            }
                        }
                    }
                    backwards.push(item);
                },
                None => {
                    assert(false);
                },
            }
        } else {
            match b.pop() {
                Some(item) => {
                    proof {
                        let x = (item.path@, item.status);
                        assert(b0.last() == x);
                        assert(changes(b@) =~= b0.drop_last());
                        if a0.len() > 0 {
                            assert(!path_less(x.0, a0.last().0));
                        }
                        lemma_move_to_front(b0, a0, done0);
                        done = seq![x] + done0;
                        assert forall|p: Seq<char>|
                            #![trigger at(done, p)]
                            at(first0, p) + at(second0, p) == at(changes(a@), p) + at(
                            changes(b@),
                            p,
                        ) + at(done, p) by {
                            let moved = at(seq![x], p);
                            assert(at(done0, p) == at(done0, p));
                            assert(at(b0, p) == at(b0.drop_last(), p) + moved);
                            assert(at(done, p) == moved + at(done0, p));
                            assert(at(a0, p) + at(b0, p) + at(done0, p) =~= at(a0, p) + at(
                                b0.drop_last(),
                                p,
                            ) + at(done, p));
                        }
                    }
                    backwards.push(item);
                },
                None => {
                    assert(false);
                },
            }
        }
        proof {
            let x = (backwards@.last().path@, backwards@.last().status);
            assert(done == seq![x] + done0);
            assert(changes(backwards@) =~= changes(back0).push(x));
            assert(done.reverse() =~= done0.reverse().push(x));
        }
    }
    assert forall|p: Seq<char>| #[trigger]
        at(done, p) == at(first0, p) + at(second0, p) by {
        assert(at(changes(a@), p) =~= seq![]);
        assert(at(changes(b@), p) =~= seq![]);
        assert(at(changes(a@), p) + at(changes(b@), p) + at(done, p) =~= at(done, p));
    }
    let ghost back = backwards@;
    let r: Vec<DiffItem> = reversed(backwards);
    proof {
        assert(changes(back).len() == done.len());
        assert forall|i: int| 0 <= i < done.len() implies changes(r@)[i] == done[i] by {
            assert(changes(back)[done.len() - 1 - i] == done.reverse()[done.len() - 1 - i]);
        }
        assert(changes(r@) =~= done);
    }
    r
}

/// Where one path comes before another, that one does not come before it.
proof fn lemma_before_not_after(a: Seq<char>, b: Seq<char>)
    requires
        path_less(a, b),
    ensures
        !path_less(b, a),
{
    if path_less(b, a) {
        law_path_order_transitive(a, b, a);
        law_path_order_irreflexive(a);
    }
}

/// Turns a list round.
fn reversed(items: Vec<DiffItem>) -> (r: Vec<DiffItem>)
    ensures
        r@ == items@.reverse(),
{
    let ghost all = items@;
    let mut rest: Vec<DiffItem> = items;
    let mut r: Vec<DiffItem> = Vec::with_capacity(rest.len());
    while rest.len() > 0
        invariant
            rest@.len() <= all.len(),
            rest@ == all.take(rest@.len() as int),
            r@ == all.skip(rest@.len() as int).reverse(),
        decreases rest@.len(),
    {
        match rest.pop() {
            Some(item) => {
                r.push(item);
                assert(r@ =~= all.skip(rest@.len() as int).reverse());
            },
            None => {
                assert(false);
            },
        }
    }
    assert(all.skip(0) =~= all);
    r
}

/// Sorts changes by path. Those with the same path keep their order.
fn sort_by_path(items: Vec<DiffItem>) -> (r: Vec<DiffItem>)
    ensures
        paths_sorted(changes(r@)),
        forall|p: Seq<char>| #[trigger] at(changes(r@), p) == at(changes(items@), p),
    decreases items@.len(),
{
    let n: usize = items.len();
    if n <= 1 {
        return items;
    }
    let ghost all = changes(items@);
    let mut first: Vec<DiffItem> = items;
    let second: Vec<DiffItem> = first.split_off(n / 2);
    let ghost (f, s) = (changes(first@), changes(second@));
    let r: Vec<DiffItem> = merge(sort_by_path(first), sort_by_path(second));
    assert forall|p: Seq<char>| #[trigger] at(changes(r@), p) == at(all, p) by {
        assert(all =~= f + s);
        lemma_at_concat(f, s, p);
    }
    r
}

/// Finds what changed from the remote snapshot to the local one.
pub fn build_diff(local: &Snapshot, remote: &Snapshot) -> (r: Diff)
    ensures
        is_diff(r, local.listing(), remote.listing()),
{
    let source_items: StringHashMap<SnapshotItemMetadata> = build_item_names_hashmap(local);
    let backed_up_items: StringHashMap<SnapshotItemMetadata> = build_item_names_hashmap(remote);
    let ghost l = local.listing();
    let ghost b = remote.listing();

    let added: Vec<(String, SnapshotItemMetadata)> = missing_items(
        local,
        &source_items,
        &backed_up_items,
    );
    let deleted: Vec<(String, SnapshotItemMetadata)> = missing_items(
        remote,
        &backed_up_items,
        &source_items,
    );
    let mut diff: Vec<DiffItem> = changed_items(local, &backed_up_items);
    let ghost changed0 = changes(diff@);
    let ghost added0 = entries(added@);
    let ghost deleted0 = entries(deleted@);

    let ghost d0 = diff@;
    for entry in it: added
        invariant
            entries(it.seq()) == added0,
            changes(diff@) == changes(d0) + pick(added0.take(it.index() as int), to_added()),
    {
        let ghost before = diff@;
        diff.push(
            DiffItem { path: entry.0, status: DiffType::Added(DiffItemAdded { new: entry.1 }) },
        );
        proof {
            let n = it.index() as int;
            assert(added0[n] == (entry.0@, entry.1));
            assert(added0.take(n + 1) =~= added0.take(n).push(added0[n]));
            lemma_pick_push(added0.take(n), added0[n], to_added());
            assert(changes(diff@) =~= changes(before).push(changes(diff@).last()));
        }
    }
    let ghost d1 = diff@;
    for entry in it: deleted
        invariant
            entries(it.seq()) == deleted0,
            changes(diff@) == changes(d1) + pick(deleted0.take(it.index() as int), to_deleted()),
    {
        let ghost before = diff@;
        diff.push(
            DiffItem { path: entry.0, status: DiffType::Deleted(DiffItemDeleted { prev: entry.1 }) },
        );
        proof {
            let n = it.index() as int;
            assert(deleted0[n] == (entry.0@, entry.1));
            assert(deleted0.take(n + 1) =~= deleted0.take(n).push(deleted0[n]));
            lemma_pick_push(deleted0.take(n), deleted0[n], to_deleted());
            assert(changes(diff@) =~= changes(before).push(changes(diff@).last()));
        }
    }
    let ghost all = changes(diff@);
    let sorted: Vec<DiffItem> = sort_by_path(diff);
    let ghost s = changes(sorted@);
    proof {
        assert(added0.take(added0.len() as int) =~= added0);
        assert(deleted0.take(deleted0.len() as int) =~= deleted0);
        let a1 = pick(added0, to_added());
        let e1 = pick(deleted0, to_deleted());
        assert(all == changed0 + a1 + e1);
        assert forall|p: Seq<char>| #[trigger] at(s, p) == changes_at(l, b, p) by {
            lemma_at_concat(changed0 + a1, e1, p);
            lemma_at_concat(changed0, a1, p);
            lemma_at_pick(added0, to_added(), p);
            lemma_at_pick(deleted0, to_deleted(), p);
            lemma_contents_at(l, p);
            reveal_with_fuel(pick_values, 2);
            assert(at(s, p) =~= changes_at(l, b, p));
        }
        lemma_lists_picked(s, as_added(), l, b);
        lemma_lists_picked(s, as_modified(), l, b);
        lemma_lists_picked(s, as_type_changed(), l, b);
        lemma_lists_picked(s, as_deleted(), l, b);
    }
    Diff::new(sorted)
}

/// Tells of an item that it was added.
spec fn to_added() -> spec_fn(SnapshotItemMetadata) -> Option<DiffType> {
    |m: SnapshotItemMetadata| Some(DiffType::Added(DiffItemAdded { new: m }))
}

/// Tells of an item that it was deleted.
spec fn to_deleted() -> spec_fn(SnapshotItemMetadata) -> Option<DiffType> {
    |m: SnapshotItemMetadata| Some(DiffType::Deleted(DiffItemDeleted { prev: m }))
}

/// One kind of the changes, picked out of the sorted list of all.
proof fn lemma_lists_picked<T>(
    s: Seq<(Seq<char>, DiffType)>,
    f: spec_fn(DiffType) -> Option<T>,
    local: Seq<(Seq<char>, SnapshotItemMetadata)>,
    remote: Seq<(Seq<char>, SnapshotItemMetadata)>,
)
    requires
        paths_sorted(s),
        forall|p: Seq<char>| #[trigger] at(s, p) == changes_at(local, remote, p),
    ensures
        lists_changes(pick(s, f), f, local, remote),
{
    lemma_pick_entries(s, f);
    assert forall|p: Seq<char>| #[trigger]
        at(pick(s, f), p) == pick_values(changes_at(local, remote, p), f) by {
        lemma_at_pick(s, f, p);
        assert(at(s, p) == changes_at(local, remote, p));
    }
}

} // verus!

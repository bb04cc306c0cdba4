//! What has to be done on the server so that it holds what the client has.
use vstd::prelude::*;

use crate::diffing::{
    Diff, DiffItemAdded, DiffItemDeleted, DiffItemModified, DiffItemTypeChanged,
};
use crate::entries::{
    entries, lemma_entries_push, lemma_lists, lemma_paths_push, lemma_pick_all, lemma_pick_entries,
    lemma_pick_has, lemma_pick_push, lemma_texts_push, lists, paths_of, paths_sorted, pick, texts,
};
use crate::snapshot::{SnapshotFileMetadata, SnapshotItemMetadata};
use crate::text::{encloses, lemma_encloses};

verus! {

// ---------------------------------------------------------------------------------------------
// Which modifications count
// ---------------------------------------------------------------------------------------------

/// Whether a modification counts: the size changed, or the modification times, in whole seconds,
/// are more than one second apart.
pub open spec fn is_significant(m: DiffItemModified) -> bool {
    ||| m.new.size != m.prev.size
    ||| m.new.last_modif_date > m.prev.last_modif_date + 1
    ||| m.prev.last_modif_date > m.new.last_modif_date + 1
}

/// Picks the modifications that count.
pub open spec fn significant() -> spec_fn(DiffItemModified) -> Option<DiffItemModified> {
    |m: DiffItemModified|
        if is_significant(m) {
            Some(m)
        } else {
            None
        }
}

/// Picks the modifications that do not count.
pub open spec fn insignificant() -> spec_fn(DiffItemModified) -> Option<DiffItemModified> {
    |m: DiffItemModified|
        if is_significant(m) {
            None
        } else {
            Some(m)
        }
}

/// The modifications of a diff, with those that do not count set apart.
pub struct ModifiedItems {
    pub kept: Vec<(String, DiffItemModified)>,
    pub ignored: Vec<(String, DiffItemModified)>,
}

/// Whether a modification counts.
pub fn counts_as_modified(m: &DiffItemModified) -> (r: bool)
    ensures
        r == is_significant(*m),
{
    if m.new.size != m.prev.size {
        return true;
    }
    let apart: u64 = if m.new.last_modif_date >= m.prev.last_modif_date {
        m.new.last_modif_date - m.prev.last_modif_date
    } else {
        m.prev.last_modif_date - m.new.last_modif_date
    };
    apart > 1
}

/// Whether modifications were set apart: those that count, and those that do not.
pub open spec fn sets_apart(
    modified: Seq<(String, DiffItemModified)>,
    kept: Seq<(String, DiffItemModified)>,
    ignored: Seq<(String, DiffItemModified)>,
) -> bool {
    &&& entries(kept) == pick(entries(modified), significant())
    &&& entries(ignored) == pick(entries(modified), insignificant())
}

impl ModifiedItems {
    /// Sets the modifications that do not count apart. Both lists keep their order.
    pub fn new(modified: Vec<(String, DiffItemModified)>) -> (r: Self)
        ensures
            sets_apart(modified@, r.kept@, r.ignored@),
    {
        let mut kept: Vec<(String, DiffItemModified)> = Vec::new();
        let mut ignored: Vec<(String, DiffItemModified)> = Vec::new();
        let ghost all = entries(modified@);
        assert(all.take(0) =~= seq![]);
        assert(entries(kept@) =~= seq![]);
        assert(entries(ignored@) =~= seq![]);
        for item in it: modified
            invariant
                entries(it.seq()) == all,
                entries(kept@) == pick(all.take(it.index() as int), significant()),
                entries(ignored@) == pick(all.take(it.index() as int), insignificant()),
        {
            let ghost n = it.index() as int;
            let ghost e = (item.0@, item.1);
            let ghost (k0, i0) = (kept@, ignored@);
            proof {
                assert(all[n] == e);
                assert(all.take(n + 1) =~= all.take(n).push(e));
                lemma_pick_push(all.take(n), e, significant());
                lemma_pick_push(all.take(n), e, insignificant());
            }
            if counts_as_modified(&item.1) {
                kept.push(item);
                assert(entries(kept@) =~= entries(k0).push(e));
            } else {
                ignored.push(item);
                assert(entries(ignored@) =~= entries(i0).push(e));
            }
        }
        assert(all.take(all.len() as int) =~= all);
        Self { kept, ignored }
    }
}

/// Whether a diff is another one without the modifications that do not count.
pub open spec fn is_reduced(d: Diff, full: Diff) -> bool {
    &&& entries(d.added@) == entries(full.added@)
    &&& entries(d.modified@) == pick(entries(full.modified@), significant())
    &&& entries(d.type_changed@) == entries(full.type_changed@)
    &&& entries(d.deleted@) == entries(full.deleted@)
}

impl Diff {
    /// Leaves the modifications that do not count out of a diff, and gives them too.
    pub fn without_insignificant(self) -> (r: (Diff, Vec<(String, DiffItemModified)>))
        ensures
            is_reduced(r.0, self),
            entries(r.1@) == pick(entries(self.modified@), insignificant()),
    {
        let items: ModifiedItems = ModifiedItems::new(self.modified);
        (
            Diff {
                added: self.added,
                modified: items.kept,
                type_changed: self.type_changed,
                deleted: self.deleted,
            },
            items.ignored,
        )
    }
}

/// What is told of a modified item that is ignored.
pub open spec fn ignored_modification_text(path: Seq<char>) -> Seq<char> {
    "Ignoring modified item '"@ + path + "' as modification time is no more than 2 seconds."@
}

/// Tells that a modified item is ignored.
pub fn ignored_message(path: &str) -> (r: String)
    ensures
        r@ == ignored_modification_text(path@),
{
    let mut r: String = String::from_str("Ignoring modified item '");
    r.append(path);
    r.append("' as modification time is no more than 2 seconds.");
    r
}

/// Whether a diff holds no change.
pub open spec fn is_empty(d: Diff) -> bool {
    &&& d.added@.len() == 0
    &&& d.modified@.len() == 0
    &&& d.type_changed@.len() == 0
    &&& d.deleted@.len() == 0
}

/// Whether a diff holds no change.
pub fn nothing_to_do(diff: &Diff) -> (r: bool)
    ensures
        r == is_empty(*diff),
{
    diff.added.len() == 0 && diff.modified.len() == 0 && diff.type_changed.len() == 0
        && diff.deleted.len() == 0
}

// ---------------------------------------------------------------------------------------------
// The plan
// ---------------------------------------------------------------------------------------------

/// What to do on the server: the items to delete, the directories to create and the files to
/// send, each in the order in which that is asked for.
#[derive(Debug)]
pub struct SyncPlan {
    pub to_delete: Vec<(String, SnapshotItemMetadata)>,
    pub to_create_dirs: Vec<String>,
    pub to_transfer: Vec<(String, SnapshotFileMetadata)>,
}

/// The metadata of a file.
pub open spec fn file_of(m: SnapshotItemMetadata) -> Option<SnapshotFileMetadata> {
    match m {
        SnapshotItemMetadata::Directory => None,
        SnapshotItemMetadata::File(f) => Some(f),
    }
}

/// Something for a directory.
pub open spec fn dir_of(m: SnapshotItemMetadata) -> Option<()> {
    match m {
        SnapshotItemMetadata::Directory => Some(()),
        SnapshotItemMetadata::File(_) => None,
    }
}

/// Picks the added directories.
pub open spec fn added_dirs() -> spec_fn(DiffItemAdded) -> Option<()> {
    |a: DiffItemAdded| dir_of(a.new)
}

/// Picks the added files.
pub open spec fn added_files() -> spec_fn(DiffItemAdded) -> Option<SnapshotFileMetadata> {
    |a: DiffItemAdded| file_of(a.new)
}

/// Takes the modified files as they are now.
pub open spec fn modified_files() -> spec_fn(DiffItemModified) -> Option<SnapshotFileMetadata> {
    |m: DiffItemModified| Some(m.new)
}

/// Picks the items that became directories.
pub open spec fn new_dirs() -> spec_fn(DiffItemTypeChanged) -> Option<()> {
    |t: DiffItemTypeChanged| dir_of(t.new)
}

/// Picks the items that became files.
pub open spec fn new_files() -> spec_fn(DiffItemTypeChanged) -> Option<SnapshotFileMetadata> {
    |t: DiffItemTypeChanged| file_of(t.new)
}

/// Takes the items whose type changed as they were.
pub open spec fn replaced() -> spec_fn(DiffItemTypeChanged) -> Option<SnapshotItemMetadata> {
    |t: DiffItemTypeChanged| Some(t.prev)
}

/// Takes the deleted items as they were.
pub open spec fn removed() -> spec_fn(DiffItemDeleted) -> Option<SnapshotItemMetadata> {
    |d: DiffItemDeleted| Some(d.prev)
}

/// The directories to create: the added ones, then what became a directory.
pub open spec fn dirs_to_create(d: Diff) -> Seq<Seq<char>> {
    paths_of(pick(entries(d.added@), added_dirs())) + paths_of(
        pick(entries(d.type_changed@), new_dirs()),
    )
}

/// The files to send: the added ones, then the modified ones, then what became a file.
pub open spec fn files_to_transfer(d: Diff) -> Seq<(Seq<char>, SnapshotFileMetadata)> {
    pick(entries(d.added@), added_files()) + pick(entries(d.modified@), modified_files()) + pick(
        entries(d.type_changed@),
        new_files(),
    )
}

/// The items to delete: the deleted ones and then what changed its type, all of it from the end
/// to the front.
pub open spec fn items_to_delete(d: Diff) -> Seq<(Seq<char>, SnapshotItemMetadata)> {
    (pick(entries(d.deleted@), removed()) + pick(
        entries(d.type_changed@),
        replaced(),
    )).reverse()
}

/// The size of all the files of a list.
pub open spec fn total_size(s: Seq<(Seq<char>, SnapshotFileMetadata)>) -> nat
    decreases s.len(),
{
    if s.len() == 0 {
        0
    } else {
        total_size(s.drop_last()) + s.last().1.size as nat
    }
}

proof fn lemma_total_size_take(s: Seq<(Seq<char>, SnapshotFileMetadata)>, n: int)
    requires
        0 <= n <= s.len(),
    ensures
        total_size(s.take(n)) <= total_size(s),
    decreases s.len() - n,
{
    if n < s.len() {
        lemma_total_size_take(s, n + 1);
        assert(s.take(n + 1).drop_last() =~= s.take(n));
    } else {
        assert(s.take(n) =~= s);
    }
}

/// The directories of two lists of changes, one after the other.
fn collect_dirs(diff: &Diff) -> (r: Vec<String>)
    ensures
        texts(r@) == dirs_to_create(*diff),
{
    let mut r: Vec<String> = Vec::new();
    let ghost added = entries(diff.added@);
    let ghost changed = entries(diff.type_changed@);
    assert(added.take(0) =~= seq![]);
    assert(texts(r@) =~= paths_of(pick(added.take(0), added_dirs())));
    for i in 0..diff.added.len()
        invariant
            added == entries(diff.added@),
            texts(r@) == paths_of(pick(added.take(i as int), added_dirs())),
    {
        let item: &(String, DiffItemAdded) = &diff.added[i];
        let ghost r0 = r@;
        proof {
            let e = (item.0@, item.1);
            assert(added[i as int] == e);
            assert(added.take(i + 1) =~= added.take(i as int).push(e));
            lemma_pick_push(added.take(i as int), e, added_dirs());
        }
        match item.1.new {
            SnapshotItemMetadata::Directory => {
                r.push(item.0.clone());
                proof {
                    lemma_texts_push(r0, r@.last());
                    lemma_paths_push(pick(added.take(i as int), added_dirs()), (item.0@, ()));
                    assert(r@ =~= r0.push(r@.last()));
                }
            },
            SnapshotItemMetadata::File(_) => {},
        }
    }
    assert(added.take(added.len() as int) =~= added);
    let ghost first = texts(r@);
    assert(changed.take(0) =~= seq![]);
    assert(texts(r@) =~= first + paths_of(pick(changed.take(0), new_dirs())));
    for i in 0..diff.type_changed.len()
        invariant
            changed == entries(diff.type_changed@),
            texts(r@) == first + paths_of(pick(changed.take(i as int), new_dirs())),
    {
        let item: &(String, DiffItemTypeChanged) = &diff.type_changed[i];
        let ghost r0 = r@;
        let ghost picked = paths_of(pick(changed.take(i as int), new_dirs()));
        proof {
            let e = (item.0@, item.1);
            assert(changed[i as int] == e);
            assert(changed.take(i + 1) =~= changed.take(i as int).push(e));
            lemma_pick_push(changed.take(i as int), e, new_dirs());
        }
        match item.1.new {
            SnapshotItemMetadata::Directory => {
                r.push(item.0.clone());
                proof {
                    lemma_texts_push(r0, r@.last());
                    lemma_paths_push(pick(changed.take(i as int), new_dirs()), (item.0@, ()));
                    assert(r@ =~= r0.push(r@.last()));
                    assert((first + picked).push(item.0@) =~= first + picked.push(item.0@));
                }
            },
            SnapshotItemMetadata::File(_) => {},
        }
    }
    assert(changed.take(changed.len() as int) =~= changed);
    r
}

/// The files to send.
fn collect_files(diff: &Diff) -> (r: Vec<(String, SnapshotFileMetadata)>)
    ensures
        entries(r@) == files_to_transfer(*diff),
{
    let mut r: Vec<(String, SnapshotFileMetadata)> = Vec::new();
    let ghost added = entries(diff.added@);
    let ghost modified = entries(diff.modified@);
    let ghost changed = entries(diff.type_changed@);
    assert(added.take(0) =~= seq![]);
    assert(entries(r@) =~= pick(added.take(0), added_files()));
    for i in 0..diff.added.len()
        invariant
            added == entries(diff.added@),
            entries(r@) == pick(added.take(i as int), added_files()),
    {
        let item: &(String, DiffItemAdded) = &diff.added[i];
        proof {
            let e = (item.0@, item.1);
            assert(added[i as int] == e);
            assert(added.take(i + 1) =~= added.take(i as int).push(e));
            lemma_pick_push(added.take(i as int), e, added_files());
        }
        match item.1.new {
            SnapshotItemMetadata::Directory => {},
            SnapshotItemMetadata::File(metadata) => {
                r.push((item.0.clone(), metadata));
                assert(entries(r@) =~= pick(added.take(i + 1), added_files()));
            },
        }
    }
    assert(added.take(added.len() as int) =~= added);
    let ghost first = entries(r@);
    assert(modified.take(0) =~= seq![]);
    assert(entries(r@) =~= first + pick(modified.take(0), modified_files()));
    for i in 0..diff.modified.len()
        invariant
            modified == entries(diff.modified@),
            entries(r@) == first + pick(modified.take(i as int), modified_files()),
    {
        let item: &(String, DiffItemModified) = &diff.modified[i];
        proof {
            let e = (item.0@, item.1);
            assert(modified[i as int] == e);
            assert(modified.take(i + 1) =~= modified.take(i as int).push(e));
            lemma_pick_push(modified.take(i as int), e, modified_files());
        }
        let ghost r0 = r@;
        let ghost picked = pick(modified.take(i as int), modified_files());
        r.push((item.0.clone(), item.1.new));
        proof {
            let e = (item.0@, item.1.new);
            lemma_entries_push(r0, r@.last());
            assert(r@ =~= r0.push(r@.last()));
            assert((first + picked).push(e) =~= first + picked.push(e));
        }
    }
    assert(modified.take(modified.len() as int) =~= modified);
    let ghost second = entries(r@);
    assert(changed.take(0) =~= seq![]);
    assert(entries(r@) =~= second + pick(changed.take(0), new_files()));
    for i in 0..diff.type_changed.len()
        invariant
            changed == entries(diff.type_changed@),
            entries(r@) == second + pick(changed.take(i as int), new_files()),
    {
        let item: &(String, DiffItemTypeChanged) = &diff.type_changed[i];
        proof {
            let e = (item.0@, item.1);
            assert(changed[i as int] == e);
            assert(changed.take(i + 1) =~= changed.take(i as int).push(e));
            lemma_pick_push(changed.take(i as int), e, new_files());
        }
        match item.1.new {
            SnapshotItemMetadata::Directory => {},
            SnapshotItemMetadata::File(metadata) => {
                let ghost r0 = r@;
                let ghost picked = pick(changed.take(i as int), new_files());
                r.push((item.0.clone(), metadata));
                proof {
                    let e = (item.0@, metadata);
                    lemma_entries_push(r0, r@.last());
                    assert(r@ =~= r0.push(r@.last()));
                    assert((second + picked).push(e) =~= second + picked.push(e));
                }
            },
        }
    }
    assert(changed.take(changed.len() as int) =~= changed);
    r
}

/// The items to delete: first those whose type changed, then the deleted ones, each list from
/// its end to its front.
fn collect_deletions(diff: &Diff) -> (r: Vec<(String, SnapshotItemMetadata)>)
    ensures
        entries(r@) == items_to_delete(*diff),
{
    let mut r: Vec<(String, SnapshotItemMetadata)> = Vec::new();
    let ghost deleted = entries(diff.deleted@);
    let ghost changed = entries(diff.type_changed@);
    let ghost d = pick(deleted, removed());
    let ghost c = pick(changed, replaced());
    proof {
        lemma_pick_all(deleted, removed());
        lemma_pick_all(changed, replaced());
    }
    let mut i: usize = diff.type_changed.len();
    while i > 0
        invariant
            changed == entries(diff.type_changed@),
            c == pick(changed, replaced()),
            c.len() == changed.len(),
            forall|k: int| 0 <= k < c.len() ==> #[trigger] c[k] == (changed[k].0, changed[k].1.prev),
            i <= diff.type_changed@.len(),
            entries(r@) == c.skip(i as int).reverse(),
        decreases i,
    {
        i -= 1;
        let item: &(String, DiffItemTypeChanged) = &diff.type_changed[i];
        let ghost r0 = r@;
        r.push((item.0.clone(), item.1.prev));
        proof {
            let e = (item.0@, item.1.prev);
            assert(changed[i as int] == (item.0@, item.1));
            assert(c[i as int] == e);
            lemma_entries_push(r0, r@.last());
            assert(r@ =~= r0.push(r@.last()));
            assert(c.skip(i as int).reverse() =~= c.skip(i + 1).reverse().push(e));
        }
    }
    assert(c.skip(0) =~= c);
    let ghost first = entries(r@);
    let mut j: usize = diff.deleted.len();
    assert(entries(r@) =~= first + d.skip(j as int).reverse());
    while j > 0
        invariant
            deleted == entries(diff.deleted@),
            d == pick(deleted, removed()),
            d.len() == deleted.len(),
            forall|k: int| 0 <= k < d.len() ==> #[trigger] d[k] == (deleted[k].0, deleted[k].1.prev),
            j <= diff.deleted@.len(),
            entries(r@) == first + d.skip(j as int).reverse(),
        decreases j,
    {
        j -= 1;
        let item: &(String, DiffItemDeleted) = &diff.deleted[j];
        let ghost r0 = r@;
        r.push((item.0.clone(), item.1.prev));
        proof {
            let e = (item.0@, item.1.prev);
            assert(deleted[j as int] == (item.0@, item.1));
            assert(d[j as int] == e);
            lemma_entries_push(r0, r@.last());
            assert(r@ =~= r0.push(r@.last()));
            assert(first + d.skip(j as int).reverse() =~= (first + d.skip(j + 1).reverse()).push(e));
        }
    }
    assert(d.skip(0) =~= d);
    assert((d + c).reverse() =~= c.reverse() + d.reverse());
    r
}

/// Whether a size is that of all the files to send, or missing where a `u64` cannot hold it.
pub open spec fn is_transfer_size(r: Option<u64>, plan: SyncPlan) -> bool {
    &&& r is Some <==> total_size(entries(plan.to_transfer@)) <= u64::MAX
    &&& r is Some ==> r->0 == total_size(entries(plan.to_transfer@))
}

impl SyncPlan {
    /// Whether a plan does what a diff asks for.
    pub open spec fn carries_out(&self, d: Diff) -> bool {
        &&& entries(self.to_delete@) == items_to_delete(d)
        &&& texts(self.to_create_dirs@) == dirs_to_create(d)
        &&& entries(self.to_transfer@) == files_to_transfer(d)
    }

    /// Plans what a diff asks for.
    pub fn new(diff: &Diff) -> (r: Self)
        ensures
            r.carries_out(*diff),
    {
        Self {
            to_delete: collect_deletions(diff),
            to_create_dirs: collect_dirs(diff),
            to_transfer: collect_files(diff),
        }
    }

    /// The size of all the files to send, or nothing where a `u64` cannot hold it.
    pub fn transfer_size(&self) -> (r: Option<u64>)
        ensures
            is_transfer_size(r, *self),
    {
        let mut sum: u64 = 0;
        let ghost all = entries(self.to_transfer@);
        assert(all.take(0) =~= seq![]);
        for i in 0..self.to_transfer.len()
            invariant
                all == entries(self.to_transfer@),
                sum == total_size(all.take(i as int)),
        {
            let size: u64 = self.to_transfer[i].1.size;
            proof {
                assert(all[i as int].1.size == size);
                assert(all.take(i + 1).drop_last() =~= all.take(i as int));
                assert(all.take(i + 1).last() == all[i as int]);
                lemma_total_size_take(all, i + 1);
            }
            if size > u64::MAX - sum {
                return None;
            }
            sum = sum + size;
        }
        assert(all.take(all.len() as int) =~= all);
        Some(sum)
    }
}

// ---------------------------------------------------------------------------------------------
// Laws
// ---------------------------------------------------------------------------------------------

/// A modification counts where the size changed or the modification time, in whole seconds, changed
/// by more than a second, and nowhere else. Each one is kept or ignored by that, and none is lost,
/// made up or altered.
pub proof fn law_modifications_are_set_apart(
    modified: Seq<(String, DiffItemModified)>,
    kept: Seq<(String, DiffItemModified)>,
    ignored: Seq<(String, DiffItemModified)>,
    p: Seq<char>,
    m: DiffItemModified,
)
    requires
        sets_apart(modified, kept, ignored),
    ensures
        ({
            let far = m.prev.size != m.new.size || m.new.last_modif_date > m.prev.last_modif_date + 1
                || m.prev.last_modif_date > m.new.last_modif_date + 1;
            &&& lists(kept, p, m) <==> lists(modified, p, m) && far
            &&& lists(ignored, p, m) <==> lists(modified, p, m) && !far
        }),
        kept.len() + ignored.len() == modified.len(),
        paths_sorted(entries(modified)) ==> paths_sorted(entries(kept)) && paths_sorted(
            entries(ignored),
        ),
{
    let s = entries(modified);
    lemma_lists(modified, p, m);
    lemma_lists(kept, p, m);
    lemma_lists(ignored, p, m);
    lemma_pick_has(s, significant(), p, m);
    lemma_pick_has(s, insignificant(), p, m);
    lemma_pick_entries(s, significant());
    lemma_pick_entries(s, insignificant());
    lemma_apart_lengths(s);
    assert(entries(kept).len() == kept.len());
    assert(entries(ignored).len() == ignored.len());
    assert(s.len() == modified.len());
    if s.contains((p, m)) {
        assert(significant()(m) == (if is_significant(m) {
            Some(m)
        } else {
            None
        }));
    }
}

proof fn lemma_apart_lengths(s: Seq<(Seq<char>, DiffItemModified)>)
    ensures
        pick(s, significant()).len() + pick(s, insignificant()).len() == s.len(),
    decreases s.len(),
{
    if s.len() > 0 {
        lemma_apart_lengths(s.drop_last());
    }
}

/// Whether a modification counts does not depend on which side is the newer one, nor on the time
/// itself: only on the sizes and on how far apart the times are.
pub proof fn law_counting_is_symmetric(m: DiffItemModified)
    ensures
        is_significant(m) == is_significant(DiffItemModified { prev: m.new, new: m.prev }),
        !is_significant(m) <==> m.prev.size == m.new.size && -1 <= m.new.last_modif_date
            - m.prev.last_modif_date <= 1,
{
}

/// The size of all the files is the sum of their sizes.
pub proof fn law_transfer_size_adds_up(
    s: Seq<(Seq<char>, SnapshotFileMetadata)>,
    t: Seq<(Seq<char>, SnapshotFileMetadata)>,
    e: (Seq<char>, SnapshotFileMetadata),
)
    ensures
        total_size(s + t) == total_size(s) + total_size(t),
        total_size(seq![e]) == e.1.size,
        total_size(Seq::<(Seq<char>, SnapshotFileMetadata)>::empty()) == 0,
    decreases t.len(),
{
    reveal_with_fuel(total_size, 2);
    assert(seq![e].drop_last() =~= seq![]);
    if t.len() == 0 {
        assert(s + t =~= s);
    } else {
        assert((s + t).drop_last() =~= s + t.drop_last());
        law_transfer_size_adds_up(s, t.drop_last(), e);
    }
}

/// Every file to send adds its size: without the file at one place, that much is missing.
pub proof fn law_each_file_adds_its_size(plan: SyncPlan, r: Option<u64>, k: int)
    requires
        is_transfer_size(r, plan),
        r is Some,
        0 <= k < plan.to_transfer@.len(),
    ensures
        ({
            let all = entries(plan.to_transfer@);
            r->0 == total_size(all.take(k)) + plan.to_transfer@[k].1.size + total_size(
                all.skip(k + 1),
            )
        }),
{
    let all = entries(plan.to_transfer@);
    let e = all[k];
    assert(all =~= all.take(k) + seq![e] + all.skip(k + 1));
    law_transfer_size_adds_up(all.take(k) + seq![e], all.skip(k + 1), e);
    law_transfer_size_adds_up(all.take(k), seq![e], e);
}

/// What is told of an ignored modification names its path.
pub proof fn law_ignored_modification_is_named(path: Seq<char>)
    ensures
        encloses(
            ignored_modification_text(path),
            "Ignoring modified item '"@,
            path,
            "' as modification time is no more than 2 seconds."@,
        ),
{
    lemma_encloses(
        "Ignoring modified item '"@,
        path,
        "' as modification time is no more than 2 seconds."@,
    );
}

} // verus!

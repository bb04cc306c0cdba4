//! Making a snapshot while a directory is walked.
//!
//! The walk itself is done elsewhere. For each item that it meets, `SnapshotBuilder::visit` tells
//! whether the item has to be looked at, and `SnapshotBuilder::record` takes what was found.
use vstd::prelude::*;
use vstd::utf8::{decode_utf8, encode_utf8, valid_utf8};

use crate::entries::{lemma_texts_push, paths_distinct, texts};
use crate::path::{
    components, is_trimmed, join, law_join_then_strip, law_strip_then_join, starts_with, strip_prefix,
    stripped,
};
use crate::snapshot::{
    listing_of, Snapshot, SnapshotFileMetadata, SnapshotItem, SnapshotItemMetadata,
    SnapshotOptions, SnapshotResult,
};
use crate::text::{
    decimal, decimal_text, encloses, is_numeral, law_decimal_denotes, lemma_encloses, lossy_text,
    numeral, utf8_lossy, utf8_text,
};

verus! {

/// When a file was modified last, as the file system tells it.
#[derive(Debug)]
pub enum ModificationTime {
    /// It is not known, for the given reason.
    Unavailable(String),
    /// It lies before the Unix epoch; the text says by how much.
    BeforeEpoch(String),
    /// The time since the Unix epoch.
    SinceEpoch { secs: u64, nanos: u32 },
}

/// What the file system tells of an item.
#[derive(Debug)]
pub struct ItemStat {
    pub is_symlink: bool,
    pub is_dir: bool,
    pub is_file: bool,
    pub size: u64,
    pub modified: ModificationTime,
}

/// Why an item cannot be part of a snapshot.
#[derive(Debug)]
pub enum ItemError {
    /// The file system told nothing of the item, for the given reason.
    NoMetadata(String),
    Symlink,
    NoModificationTime { path: String, cause: String },
    InvalidModificationTime { path: String, cause: String },
    UnknownType,
    InvalidRelativePath { path: String },
}

/// Why a snapshot cannot be made.
#[derive(Debug)]
pub enum SnapshotError {
    /// The walk could not go on, for the given reason. The texts after it say what caused that.
    Walk { reason: String, causes: Vec<String> },
    Item { path: String, cause: ItemError },
    InvalidRoot { path: String },
}

// ---------------------------------------------------------------------------------------------
// Messages
// ---------------------------------------------------------------------------------------------

/// One text after another.
fn joined_text(a: &str, b: &str) -> (r: String)
    ensures
        r@ == a@ + b@,
{
    let mut r: String = String::from_str(a);
    r.append(b);
    r
}

/// Puts texts behind others.
fn push_texts(to: &mut Vec<String>, from: &Vec<String>)
    ensures
        texts(final(to)@) == texts(old(to)@) + texts(from@),
{
    let ghost start = texts(to@);
    let ghost all = texts(from@);
    assert(texts(to@) =~= start + all.take(0));
    for i in 0..from.len()
        invariant
            all == texts(from@),
            texts(to@) == start + all.take(i as int),
    {
        let text: String = from[i].clone();
        proof {
            lemma_texts_push(to@, text);
            assert(all.take(i + 1) =~= all.take(i as int).push(text@));
        }
        to.push(text);
        assert(texts(to@) =~= start + all.take(i + 1));
    }
    assert(all.take(all.len() as int) =~= all);
}

impl ItemError {
    /// What an error says, and after it what caused it.
    pub open spec fn says(&self) -> Seq<Seq<char>> {
        match *self {
            ItemError::NoMetadata(cause) => seq![cause@],
            ItemError::Symlink => seq!["Symbolc links are unsupported."@],
            ItemError::NoModificationTime { path, cause } => seq![
                "Failed to get modification time of file: "@ + path@,
                cause@,
            ],
            ItemError::InvalidModificationTime { path, cause } => seq![
                "Found invalid modification time for file: "@ + path@,
                cause@,
            ],
            ItemError::UnknownType => seq![
                "Unknown item type (not a symlink, file nor directory)"@,
            ],
            ItemError::InvalidRelativePath { path } => seq![
                "Relative path contains invalid UTF-8 characters: "@ + path@,
            ],
        }
    }

    /// Says what went wrong, and after it what caused that.
    pub fn messages(&self) -> (r: Vec<String>)
        ensures
            texts(r@) == self.says(),
    {
        let mut r: Vec<String> = Vec::new();
        match self {
            ItemError::NoMetadata(cause) => {
                r.push(cause.clone());
            },
            ItemError::Symlink => {
                r.push(String::from_str("Symbolc links are unsupported."));
            },
            ItemError::NoModificationTime { path, cause } => {
                r.push(joined_text("Failed to get modification time of file: ", path.as_str()));
                r.push(cause.clone());
            },
            ItemError::InvalidModificationTime { path, cause } => {
                r.push(joined_text("Found invalid modification time for file: ", path.as_str()));
                r.push(cause.clone());
            },
            ItemError::UnknownType => {
                r.push(String::from_str("Unknown item type (not a symlink, file nor directory)"));
            },
            ItemError::InvalidRelativePath { path } => {
                r.push(
                    joined_text(
                        "Relative path contains invalid UTF-8 characters: ",
                        path.as_str(),
                    ),
                );
            },
        }
        assert(texts(r@) =~= self.says());
        r
    }
}

impl SnapshotError {
    /// What an error says, what caused it left out.
    pub open spec fn says(&self) -> Seq<char> {
        match *self {
            SnapshotError::Walk { reason, causes: _ } => reason@,
            SnapshotError::Item { path, cause: _ } => "Failed analysis on filesystem item: "@
                + path@,
            SnapshotError::InvalidRoot { path } =>
                "Provided path contains invalid UTF-8 characters: "@ + path@,
        }
    }

    /// What an error says, and after it what caused it.
    pub open spec fn says_all(&self) -> Seq<Seq<char>> {
        match *self {
            SnapshotError::Walk { reason, causes } => seq![reason@] + texts(causes@),
            SnapshotError::Item { path: _, cause } => seq![self.says()] + cause.says(),
            SnapshotError::InvalidRoot { path: _ } => seq![self.says()],
        }
    }

    /// Says what went wrong, and after it what caused that.
    pub fn messages(&self) -> (r: Vec<String>)
        ensures
            texts(r@) == self.says_all(),
    {
        let mut r: Vec<String> = Vec::new();
        r.push(self.message());
        match self {
            SnapshotError::Walk { reason: _, causes } => {
                push_texts(&mut r, causes);
            },
            SnapshotError::Item { path: _, cause } => {
                push_texts(&mut r, &cause.messages());
            },
            SnapshotError::InvalidRoot { path: _ } => {},
        }
        assert(texts(r@) =~= self.says_all());
        r
    }

    /// Says what went wrong.
    pub fn message(&self) -> (r: String)
        ensures
            r@ == self.says(),
    {
        match self {
            SnapshotError::Walk { reason, causes: _ } => reason.clone(),
            SnapshotError::Item { path, cause: _ } => joined_text(
                "Failed analysis on filesystem item: ",
                path.as_str(),
            ),
            SnapshotError::InvalidRoot { path } => joined_text(
                "Provided path contains invalid UTF-8 characters: ",
                path.as_str(),
            ),
        }
    }
}

// ---------------------------------------------------------------------------------------------
// One item
// ---------------------------------------------------------------------------------------------

/// The metadata that a snapshot keeps of an item, where it can keep any.
pub open spec fn metadata_of(stat: ItemStat) -> Option<SnapshotItemMetadata> {
    if stat.is_symlink {
        None
    } else if stat.is_dir {
        Some(SnapshotItemMetadata::Directory)
    } else if stat.is_file {
        match stat.modified {
            ModificationTime::SinceEpoch { secs, nanos } => Some(
                SnapshotItemMetadata::File(
                    SnapshotFileMetadata {
                        size: stat.size,
                        last_modif_date: secs,
                        last_modif_date_ns: nanos,
                    },
                ),
            ),
            _ => None,
        }
    } else {
        None
    }
}

/// The path of an item, seen from the directory `from`.
pub open spec fn relative_path(path: Seq<u8>, from: Seq<u8>) -> Seq<u8> {
    strip_prefix(path, from)->0
}

/// The entry of a snapshot that an item gives, where it gives one.
pub open spec fn entry_of(
    path: Seq<u8>,
    from: Seq<u8>,
    stat: Result<ItemStat, String>,
) -> Option<(Seq<char>, SnapshotItemMetadata)> {
    match stat {
        Ok(s) => match metadata_of(s) {
            Some(m) => if valid_utf8(relative_path(path, from)) {
                Some((decode_utf8(relative_path(path, from)), m))
            } else {
                None
            },
            None => None,
        },
        Err(_) => None,
    }
}

/// Whether a text shows a path as it is told to the user: the path itself, where it is text.
pub open spec fn shows(t: Seq<char>, path: Seq<u8>) -> bool {
    &&& t == utf8_lossy(path)
    &&& valid_utf8(path) ==> t == decode_utf8(path)
}

/// Whether an error is the one that an item gives. What the file system tells is looked at first,
/// the path of the item last.
pub open spec fn is_item_error(
    e: ItemError,
    path: Seq<u8>,
    from: Seq<u8>,
    stat: Result<ItemStat, String>,
) -> bool {
    match (e, stat) {
        (ItemError::NoMetadata(cause), Err(c)) => cause@ == c@,
        (ItemError::Symlink, Ok(s)) => s.is_symlink,
        (ItemError::UnknownType, Ok(s)) => !s.is_symlink && !s.is_dir && !s.is_file,
        (ItemError::NoModificationTime { path: p, cause }, Ok(s)) => {
            &&& !s.is_symlink && !s.is_dir && s.is_file
            &&& s.modified is Unavailable
            &&& s.modified->Unavailable_0@ == cause@
            &&& shows(p@, path)
        },
        (ItemError::InvalidModificationTime { path: p, cause }, Ok(s)) => {
            &&& !s.is_symlink && !s.is_dir && s.is_file
            &&& s.modified is BeforeEpoch
            &&& s.modified->BeforeEpoch_0@ == cause@
            &&& shows(p@, path)
        },
        (ItemError::InvalidRelativePath { path: p }, Ok(s)) => {
            &&& metadata_of(s) is Some
            &&& !valid_utf8(relative_path(path, from))
            &&& p@ == utf8_lossy(relative_path(path, from))
        },
        _ => false,
    }
}

/// Whether an entry or an error is the one that an item gives.
pub open spec fn is_item_result(
    r: Result<SnapshotItem, ItemError>,
    path: Seq<u8>,
    from: Seq<u8>,
    stat: Result<ItemStat, String>,
) -> bool {
    match r {
        Ok(item) => entry_of(path, from, stat) == Some((item.relative_path@, item.metadata)),
        Err(e) => entry_of(path, from, stat) is None && is_item_error(e, path, from, stat),
    }
}

/// Makes the entry of one item, which lies below the directory `from`.
pub fn snapshot_item(path: &[u8], from: &[u8], stat: Result<ItemStat, String>) -> (r: Result<
    SnapshotItem,
    ItemError,
>)
    requires
        starts_with(path@, from@),
    ensures
        is_item_result(r, path@, from@, stat),
{
    let s: ItemStat = match stat {
        Ok(s) => s,
        Err(cause) => return Err(ItemError::NoMetadata(cause)),
    };
    if s.is_symlink {
        return Err(ItemError::Symlink);
    }
    let metadata: SnapshotItemMetadata = if s.is_dir {
        SnapshotItemMetadata::Directory
    } else if s.is_file {
        match s.modified {
            ModificationTime::Unavailable(cause) => {
                return Err(ItemError::NoModificationTime { path: lossy_text(path), cause });
            },
            ModificationTime::BeforeEpoch(cause) => {
                return Err(ItemError::InvalidModificationTime { path: lossy_text(path), cause });
            },
            ModificationTime::SinceEpoch { secs, nanos } => SnapshotItemMetadata::File(
                SnapshotFileMetadata {
                    size: s.size,
                    last_modif_date: secs,
                    last_modif_date_ns: nanos,
                },
            ),
        }
    } else {
        return Err(ItemError::UnknownType);
    };
    match stripped(path, from) {
        Some(relative) => {
            match utf8_text(relative.as_slice()) {
                Some(relative_path) => Ok(SnapshotItem { relative_path, metadata }),
                None => Err(
                    ItemError::InvalidRelativePath { path: lossy_text(relative.as_slice()) },
                ),
            }
        },
        None => {
            assert(false);
            Err(ItemError::UnknownType)
        },
    }
}

// ---------------------------------------------------------------------------------------------
// The walk
// ---------------------------------------------------------------------------------------------

/// A snapshot in the making.
#[derive(Debug)]
pub struct SnapshotBuilder {
    pub from_dir: Vec<u8>,
    pub options: SnapshotOptions,
    pub items: Vec<SnapshotItem>,
    pub debug: Vec<String>,
}

/// What is told of an item that is left out.
pub open spec fn ignored_text(relative_path: Seq<u8>) -> Seq<char> {
    "Ignored item based on provided options: "@ + utf8_lossy(relative_path)
}

/// Whether what is told of an item that is left out shows its path itself, where that is text.
pub open spec fn shows_readable(relative_path: Seq<u8>) -> bool {
    valid_utf8(relative_path) ==> ignored_text(relative_path)
        == "Ignored item based on provided options: "@ + decode_utf8(relative_path)
}

/// What is told of how many items were met.
pub open spec fn progress_text(total: nat) -> Seq<char> {
    "Analyzed "@ + decimal(total) + " item(s)"@
}

/// Whether the snapshot of a directory has yet to begin.
pub open spec fn begins(b: SnapshotBuilder, from_dir: Vec<u8>, options: SnapshotOptions) -> bool {
    &&& b.from_dir == from_dir
    &&& b.options == options
    &&& b.listing() == Seq::<(Seq<char>, SnapshotItemMetadata)>::empty()
    &&& texts(b.debug@) == Seq::<Seq<char>>::empty()
}

/// Whether a builder met an item as it has to: `r` tells whether the item has to be looked at, and
/// one that does not is noted.
pub open spec fn visits(
    before: SnapshotBuilder,
    path: Seq<u8>,
    is_file: bool,
    r: bool,
    after: SnapshotBuilder,
) -> bool {
    let relative = relative_path(path, before.from_dir@);
    &&& r == !before.options.ignores(relative, is_file)
    &&& after.from_dir == before.from_dir
    &&& after.options == before.options
    &&& after.items == before.items
    &&& texts(after.debug@) == if r {
        texts(before.debug@)
    } else {
        texts(before.debug@).push(ignored_text(relative))
    }
    &&& !r ==> shows_readable(relative)
}

/// Whether a builder took what was found of an item as it has to: its entry is added, or an error
/// tells why there is none.
pub open spec fn records(
    before: SnapshotBuilder,
    path: Seq<u8>,
    stat: Result<ItemStat, String>,
    r: Result<(), SnapshotError>,
    after: SnapshotBuilder,
) -> bool {
    &&& after.from_dir == before.from_dir
    &&& after.options == before.options
    &&& after.debug == before.debug
    &&& match entry_of(path, before.from_dir@, stat) {
        Some(entry) => r is Ok && after.listing() == before.listing().push(entry),
        None => {
            &&& after.items == before.items
            &&& r matches Err(SnapshotError::Item { path: p, cause })
            &&& shows(p@, path)
            &&& is_item_error(cause, path, before.from_dir@, stat)
        },
    }
}

/// Whether a snapshot is the one that a builder made.
pub open spec fn finishes(b: SnapshotBuilder, r: Result<SnapshotResult, SnapshotError>) -> bool {
    &&& r is Ok <==> valid_utf8(b.from_dir@)
    &&& match r {
        Ok(result) => {
            &&& result.snapshot.from_dir@ == decode_utf8(b.from_dir@)
            &&& result.snapshot.items == b.items
            &&& result.debug == b.debug
        },
        Err(e) => e matches SnapshotError::InvalidRoot { path } && path@ == utf8_lossy(b.from_dir@),
    }
}

impl SnapshotBuilder {
    /// The entries found so far.
    pub open spec fn listing(&self) -> Seq<(Seq<char>, SnapshotItemMetadata)> {
        listing_of(self.items@)
    }

    /// Begins the snapshot of a directory.
    pub fn new(from_dir: Vec<u8>, options: SnapshotOptions) -> (r: Self)
        ensures
            begins(r, from_dir, options),
    {
        let r: SnapshotBuilder = SnapshotBuilder {
            from_dir,
            options,
            items: Vec::new(),
            debug: Vec::new(),
        };
        assert(r.listing() =~= seq![]);
        assert(texts(r.debug@) =~= seq![]);
        r
    }

    /// Meets an item. Tells whether it has to be looked at; one that the options leave out is
    /// only noted. `is_file` tells whether there is a regular file at `path`.
    pub fn visit(&mut self, path: &[u8], is_file: bool) -> (r: bool)
        requires
            starts_with(path@, old(self).from_dir@),
        ensures
            visits(*old(self), path@, is_file, r, *final(self)),
    {
        match stripped(path, self.from_dir.as_slice()) {
            Some(relative) => {
                if self.options.should_ignore(relative.as_slice(), is_file) {
                    let shown: String = lossy_text(relative.as_slice());
                    let note: String = joined_text(
                        "Ignored item based on provided options: ",
                        shown.as_str(),
                    );
                    proof {
                        lemma_texts_push(self.debug@, note);
                    }
                    self.debug.push(note);
                    false
                } else {
                    true
                }
            },
            None => {
                assert(false);
                true
            },
        }
    }

    /// Takes what was found of an item.
    pub fn record(&mut self, path: &[u8], stat: Result<ItemStat, String>) -> (r: Result<
        (),
        SnapshotError,
    >)
        requires
            starts_with(path@, old(self).from_dir@),
        ensures
            records(*old(self), path@, stat, r, *final(self)),
    {
        match snapshot_item(path, self.from_dir.as_slice(), stat) {
            Ok(item) => {
                let ghost before = self.listing();
                let ghost entry = (item.relative_path@, item.metadata);
                self.items.push(item);
                assert(self.listing() =~= before.push(entry));
                Ok(())
            },
            Err(cause) => Err(SnapshotError::Item { path: lossy_text(path), cause }),
        }
    }

    /// Tells how many items were met.
    pub fn progress(&self) -> (r: String)
        ensures
            r@ == progress_text(self.items@.len() + self.debug@.len()),
    {
        let total: u128 = self.items.len() as u128 + self.debug.len() as u128;
        let mut r: String = String::from_str("Analyzed ");
        r.append(decimal_text(total).as_str());
        r.append(" item(s)");
        r
    }

    /// Ends a snapshot.
    pub fn finish(self) -> (r: Result<SnapshotResult, SnapshotError>)
        ensures
            finishes(self, r),
    {
        match utf8_text(self.from_dir.as_slice()) {
            Some(from_dir) => Ok(
                SnapshotResult {
                    snapshot: Snapshot { from_dir, items: self.items },
                    debug: self.debug,
                },
            ),
            None => Err(
                SnapshotError::InvalidRoot { path: lossy_text(self.from_dir.as_slice()) },
            ),
        }
    }
}

// ---------------------------------------------------------------------------------------------
// Laws
// ---------------------------------------------------------------------------------------------

/// An item that a walk meets, and what is found of it where it is looked at.
pub struct Visit {
    pub path: Seq<u8>,
    pub is_file: bool,
    pub stat: Result<ItemStat, String>,
}

/// Whether a builder met an item without error: it was noted, or its entry was added.
pub open spec fn met(before: SnapshotBuilder, v: Visit, after: SnapshotBuilder) -> bool {
    let relative = relative_path(v.path, before.from_dir@);
    let entry = entry_of(v.path, before.from_dir@, v.stat);
    &&& after.from_dir == before.from_dir
    &&& after.options == before.options
    &&& if before.options.ignores(relative, v.is_file) {
        &&& after.items == before.items
        &&& texts(after.debug@) == texts(before.debug@).push(ignored_text(relative))
        &&& shows_readable(relative)
    } else {
        &&& entry is Some
        &&& after.listing() == before.listing().push(entry->0)
        &&& texts(after.debug@) == texts(before.debug@)
    }
}

/// The entries that a walk gives: those of the items that are not left out, in order.
pub open spec fn entries_of_walk(
    from: Seq<u8>,
    options: SnapshotOptions,
    visits: Seq<Visit>,
) -> Seq<(Seq<char>, SnapshotItemMetadata)>
    decreases visits.len(),
{
    if visits.len() == 0 {
        seq![]
    } else {
        let v = visits.last();
        let before = entries_of_walk(from, options, visits.drop_last());
        if options.ignores(relative_path(v.path, from), v.is_file) {
            before
        } else {
            before.push(entry_of(v.path, from, v.stat)->0)
        }
    }
}

/// The notes that a walk gives: one for each item that is left out, in order.
pub open spec fn notes_of_walk(
    from: Seq<u8>,
    options: SnapshotOptions,
    visits: Seq<Visit>,
) -> Seq<Seq<char>>
    decreases visits.len(),
{
    if visits.len() == 0 {
        seq![]
    } else {
        let v = visits.last();
        let before = notes_of_walk(from, options, visits.drop_last());
        if options.ignores(relative_path(v.path, from), v.is_file) {
            before.push(ignored_text(relative_path(v.path, from)))
        } else {
            before
        }
    }
}

/// A walk that met items one after the other has listed those that are not left out, in order, and
/// noted those that are, in order too: each item is in one of the two lists, once. A note shows the
/// path itself where that is text.
pub proof fn law_walk_lists_unignored(states: Seq<SnapshotBuilder>, visits: Seq<Visit>)
    requires
        states.len() == visits.len() + 1,
        states[0].listing().len() == 0,
        states[0].debug@.len() == 0,
        forall|k: int| 0 <= k < visits.len() ==> met(states[k], #[trigger] visits[k], states[k + 1]),
    ensures
        states.last().from_dir == states[0].from_dir,
        states.last().options == states[0].options,
        states.last().listing() == entries_of_walk(
            states[0].from_dir@,
            states[0].options,
            visits,
        ),
        texts(states.last().debug@) == notes_of_walk(
            states[0].from_dir@,
            states[0].options,
            visits,
        ),
        states.last().items@.len() + states.last().debug@.len() == visits.len(),
        forall|k: int|
            0 <= k < visits.len() && states[0].options.ignores(
                relative_path((#[trigger] visits[k]).path, states[0].from_dir@),
                visits[k].is_file,
            ) ==> shows_readable(relative_path(visits[k].path, states[0].from_dir@)),
    decreases visits.len(),
{
    let n = visits.len() as int;
    if n == 0 {
        assert(states.last().listing() =~= seq![]);
        assert(texts(states.last().debug@) =~= seq![]);
        assert(states.last().listing().len() == states.last().items@.len());
    } else {
        let front = states.drop_last();
        assert forall|k: int| 0 <= k < n - 1 implies met(
            front[k],
            #[trigger] visits.drop_last()[k],
            front[k + 1],
        ) by {
            assert(met(states[k], visits[k], states[k + 1]));
        }
        law_walk_lists_unignored(front, visits.drop_last());
        assert(met(states[n - 1], visits[n - 1], states[n]));
        assert(texts(states[n].debug@).len() == states[n].debug@.len());
        assert(texts(states[n - 1].debug@).len() == states[n - 1].debug@.len());
        assert(states[n].listing().len() == states[n].items@.len());
        assert(states[n - 1].listing().len() == states[n - 1].items@.len());
        assert forall|k: int|
            0 <= k < n && states[0].options.ignores(
                relative_path((#[trigger] visits[k]).path, states[0].from_dir@),
                visits[k].is_file,
            ) implies shows_readable(relative_path(visits[k].path, states[0].from_dir@)) by {
            if k < n - 1 {
                assert(visits.drop_last()[k] == visits[k]);
            }
        }
    }
}

/// Whether an entry is named by the relative path of an item that a walk met.
pub open spec fn is_named_by(
    e: (Seq<char>, SnapshotItemMetadata),
    from: Seq<u8>,
    visits: Seq<Visit>,
    i: int,
) -> bool {
    let relative = relative_path(visits[i].path, from);
    0 <= i < visits.len() && valid_utf8(relative) && e.0 == decode_utf8(relative)
}

/// Whether the items of a walk that are not left out all have an entry.
pub open spec fn all_listed(from: Seq<u8>, options: SnapshotOptions, visits: Seq<Visit>) -> bool {
    forall|i: int|
        0 <= i < visits.len() && !options.ignores(
            relative_path((#[trigger] visits[i]).path, from),
            visits[i].is_file,
        ) ==> entry_of(visits[i].path, from, visits[i].stat) is Some
}

proof fn lemma_all_listed_front(from: Seq<u8>, options: SnapshotOptions, visits: Seq<Visit>)
    requires
        visits.len() > 0,
        all_listed(from, options, visits),
    ensures
        all_listed(from, options, visits.drop_last()),
{
    let front = visits.drop_last();
    assert forall|i: int|
        0 <= i < front.len() && !options.ignores(
            relative_path((#[trigger] front[i]).path, from),
            front[i].is_file,
        ) implies entry_of(front[i].path, from, front[i].stat) is Some by {
        assert(visits[i] == front[i]);
    }
}

/// Every entry of a snapshot is named by the relative path of an item that the walk met.
#[verifier::spinoff_prover]
pub proof fn law_walk_names_what_it_met(
    from: Seq<u8>,
    options: SnapshotOptions,
    visits: Seq<Visit>,
    k: int,
)
    requires
        all_listed(from, options, visits),
        0 <= k < entries_of_walk(from, options, visits).len(),
    ensures
        exists|i: int| #[trigger]
            is_named_by(entries_of_walk(from, options, visits)[k], from, visits, i),
    decreases visits.len(),
{
    let all = entries_of_walk(from, options, visits);
    let front = visits.drop_last();
    let before = entries_of_walk(from, options, front);
    let last = visits.len() - 1;
    assert(visits[last] == visits.last());
    if k < before.len() {
        lemma_all_listed_front(from, options, visits);
        law_walk_names_what_it_met(from, options, front, k);
        let i = choose|i: int| #[trigger] is_named_by(before[k], from, front, i);
        assert(visits[i] == front[i]);
        assert(all[k] == before[k]);
        assert(is_named_by(all[k], from, visits, i));
    } else {
        assert(is_named_by(all[k], from, visits, last));
    }
}

/// Where a walk meets no two items with the same relative path, its snapshot names no path twice.
#[verifier::spinoff_prover]
pub proof fn law_walk_names_paths_once(from: Seq<u8>, options: SnapshotOptions, visits: Seq<Visit>)
    requires
        forall|i: int, j: int|
            #![trigger visits[i], visits[j]]
            0 <= i < j < visits.len() ==> relative_path(visits[i].path, from) != relative_path(
                visits[j].path,
                from,
            ),
        all_listed(from, options, visits),
    ensures
        paths_distinct(entries_of_walk(from, options, visits)),
    decreases visits.len(),
{
    if visits.len() > 0 {
        let all = entries_of_walk(from, options, visits);
        let front = visits.drop_last();
        let before = entries_of_walk(from, options, front);
        let last = visits.len() - 1;
        assert(visits[last] == visits.last());
        lemma_all_listed_front(from, options, visits);
        assert forall|i: int, j: int|
            #![trigger front[i], front[j]]
            0 <= i < j < front.len() implies relative_path(front[i].path, from) != relative_path(
            front[j].path,
            from,
        ) by {
            assert(visits[i] == front[i] && visits[j] == front[j]);
        }
        law_walk_names_paths_once(from, options, front);
        assert forall|k: int, l: int|
            #![trigger all[k], all[l]]
            0 <= k < l < all.len() implies all[k].0 != all[l].0 by {
            assert(all[k] == before[k]);
            if l < before.len() {
                assert(all[l] == before[l]);
            } else {
                law_walk_names_what_it_met(from, options, front, k);
                let i = choose|i: int| #[trigger] is_named_by(before[k], from, front, i);
                assert(visits[i] == front[i]);
                let a = relative_path(visits[i].path, from);
                let b = relative_path(visits[last].path, from);
                assert(is_named_by(all[l], from, visits, last));
                vstd::utf8::decode_utf8_encode_utf8(a);
                vstd::utf8::decode_utf8_encode_utf8(b);
            }
        }
    }
}

/// A file is listed with the size and the modification time that the file system told, and a
/// directory as one.
pub proof fn law_entry_tells_what_was_found(
    r: Result<SnapshotItem, ItemError>,
    path: Seq<u8>,
    from: Seq<u8>,
    stat: ItemStat,
)
    requires
        is_item_result(r, path, from, Ok(stat)),
    ensures
        r matches Ok(item) ==> {
            &&& !stat.is_symlink
            &&& item.metadata is Directory <==> stat.is_dir
            &&& item.metadata matches SnapshotItemMetadata::File(m) ==> {
                &&& stat.is_file
                &&& m.size == stat.size
                &&& stat.modified == (ModificationTime::SinceEpoch {
                    secs: m.last_modif_date,
                    nanos: m.last_modif_date_ns,
                })
            }
        },
{
}

/// Files that differ in size or in modification time have different entries.
pub proof fn law_different_files_have_different_entries(
    r: SnapshotItem,
    s: SnapshotItem,
    path: Seq<u8>,
    from: Seq<u8>,
    a: ItemStat,
    b: ItemStat,
)
    requires
        is_item_result(Ok(r), path, from, Ok(a)),
        is_item_result(Ok(s), path, from, Ok(b)),
        !a.is_dir && !b.is_dir,
        a.size != b.size || a.modified != b.modified,
    ensures
        r.metadata != s.metadata,
{
    law_entry_tells_what_was_found(Ok(r), path, from, a);
    law_entry_tells_what_was_found(Ok(s), path, from, b);
}

/// An entry is made of every directory and of every file whose modification time is not before the
/// epoch, where the relative path is text and the item is no symbolic link.
pub proof fn law_when_an_item_is_listed(
    r: Result<SnapshotItem, ItemError>,
    path: Seq<u8>,
    from: Seq<u8>,
    stat: Result<ItemStat, String>,
)
    requires
        is_item_result(r, path, from, stat),
    ensures
        r is Ok <==> {
            &&& stat is Ok
            &&& !stat->Ok_0.is_symlink
            &&& stat->Ok_0.is_dir || (stat->Ok_0.is_file && stat->Ok_0.modified is SinceEpoch)
            &&& valid_utf8(strip_prefix(path, from)->0)
        },
{
}

/// Each error has its own reason, and tells what was found.
pub proof fn law_item_errors_have_their_reason(
    e: ItemError,
    path: Seq<u8>,
    from: Seq<u8>,
    stat: Result<ItemStat, String>,
)
    requires
        is_item_result(Err(e), path, from, stat),
    ensures
        e is NoMetadata <==> stat is Err,
        e matches ItemError::NoMetadata(cause) ==> cause@ == stat->Err_0@,
        e is Symlink <==> stat is Ok && stat->Ok_0.is_symlink,
        e is UnknownType <==> stat is Ok && !stat->Ok_0.is_symlink && !stat->Ok_0.is_dir
            && !stat->Ok_0.is_file,
        e matches ItemError::NoModificationTime { path: p, cause } ==> stat matches Ok(s)
            && s.modified matches ModificationTime::Unavailable(c) && c@ == cause@,
        e matches ItemError::InvalidModificationTime { path: p, cause } ==> stat matches Ok(s)
            && s.modified matches ModificationTime::BeforeEpoch(c) && c@ == cause@,
        e is InvalidRelativePath ==> !valid_utf8(strip_prefix(path, from)->0),
        stat matches Ok(s) ==> !s.is_symlink && !s.is_dir && s.is_file ==> {
            &&& e is NoModificationTime <==> s.modified is Unavailable
            &&& e is InvalidModificationTime <==> s.modified is BeforeEpoch
        },
{
}

/// What lies at `relative` below the directory of a snapshot is listed by that path, byte for byte.
pub proof fn law_entry_is_named_by_its_place(
    item: SnapshotItem,
    relative: Seq<u8>,
    from: Seq<u8>,
    stat: Result<ItemStat, String>,
)
    requires
        from.len() > 0,
        is_trimmed(relative),
        is_item_result(Ok(item), join(from, relative), from, stat),
    ensures
        encode_utf8(item.relative_path@) == relative,
{
    law_join_then_strip(from, relative);
    vstd::utf8::decode_utf8_encode_utf8(relative);
}

/// The path of an entry leads, from the directory of the snapshot, to the item.
pub proof fn law_entry_path_leads_to_item(
    item: SnapshotItem,
    path: Seq<u8>,
    from: Seq<u8>,
    stat: Result<ItemStat, String>,
)
    requires
        starts_with(path, from),
        is_item_result(Ok(item), path, from, stat),
    ensures
        components(join(from, encode_utf8(item.relative_path@))) == components(path),
{
    law_strip_then_join(path, from);
    vstd::utf8::decode_utf8_encode_utf8(strip_prefix(path, from)->0);
}

/// An item that was met and, where it had to be, looked at without error, counts as met.
pub proof fn law_visit_and_record_meet(
    before: SnapshotBuilder,
    v: Visit,
    wanted: bool,
    between: SnapshotBuilder,
    r: Result<(), SnapshotError>,
    after: SnapshotBuilder,
)
    requires
        visits(before, v.path, v.is_file, wanted, between),
        if wanted {
            records(between, v.path, v.stat, r, after) && r is Ok
        } else {
            after == between
        },
    ensures
        met(before, v, after),
        wanted ==> after.items@.len() == before.items@.len() + 1 && after.debug@.len()
            == before.debug@.len(),
        !wanted ==> after.items == before.items && after.debug@.len() == before.debug@.len() + 1,
{
    assert(texts(after.debug@).len() == after.debug@.len());
    assert(texts(before.debug@).len() == before.debug@.len());
    assert(after.listing().len() == after.items@.len());
    assert(before.listing().len() == before.items@.len());
    assert(between.listing().len() == between.items@.len());
}

/// Looking at an item has to be asked for where no option speaks against it, and only there: see
/// what the options leave out.
pub proof fn law_visit_follows_options(
    before: SnapshotBuilder,
    relative: Seq<u8>,
    is_file: bool,
    wanted: bool,
    after: SnapshotBuilder,
)
    requires
        before.from_dir@.len() > 0,
        is_trimmed(relative),
        visits(before, join(before.from_dir@, relative), is_file, wanted, after),
    ensures
        wanted <==> !before.options.ignores(relative, is_file),
        !wanted && valid_utf8(relative) ==> texts(after.debug@).len() > 0 && encloses(
            texts(after.debug@).last(),
            "Ignored item based on provided options: "@,
            decode_utf8(relative),
            seq![],
        ),
{
    law_join_then_strip(before.from_dir@, relative);
    if !wanted && valid_utf8(relative) {
        let (a, b) = ("Ignored item based on provided options: "@, decode_utf8(relative));
        lemma_encloses(a, b, seq![]);
        assert(a + b + seq![] =~= a + b);
    }
}

/// Each item that is not left out is listed, behind as many entries as were listed before it.
pub proof fn law_walk_lists_in_order(
    from: Seq<u8>,
    options: SnapshotOptions,
    visits: Seq<Visit>,
    i: int,
)
    requires
        0 <= i < visits.len(),
        !options.ignores(relative_path(visits[i].path, from), visits[i].is_file),
    ensures
        ({
            let all = entries_of_walk(from, options, visits);
            let place = entries_of_walk(from, options, visits.take(i)).len() as int;
            place < all.len() && all[place] == entry_of(visits[i].path, from, visits[i].stat)->0
        }),
    decreases visits.len(),
{
    let front = visits.drop_last();
    if i < visits.len() - 1 {
        assert(front[i] == visits[i]);
        assert(front.take(i) =~= visits.take(i));
        law_walk_lists_in_order(from, options, front, i);
    } else {
        assert(visits.take(i) =~= front);
        assert(visits[i] == visits.last());
    }
}

/// What a snapshot holds when it ends is what was found: the directory, the entries and the notes.
pub proof fn law_finished_snapshot_keeps_all(
    b: SnapshotBuilder,
    r: Result<SnapshotResult, SnapshotError>,
)
    requires
        finishes(b, r),
    ensures
        r matches Ok(result) ==> {
            &&& encode_utf8(result.snapshot.from_dir@) == b.from_dir@
            &&& result.snapshot.items@ == b.items@
            &&& result.debug@ == b.debug@
        },
        r is Err ==> !valid_utf8(b.from_dir@) && r->Err_0 is InvalidRoot,
{
    if valid_utf8(b.from_dir@) {
        vstd::utf8::decode_utf8_encode_utf8(b.from_dir@);
    }
}

/// The number that is told is the number of items that were met.
pub proof fn law_progress_tells_the_number(total: nat)
    ensures
        exists|digits: Seq<char>|
            {
                &&& #[trigger] encloses(progress_text(total), "Analyzed "@, digits, " item(s)"@)
                &&& is_numeral(digits)
                &&& numeral(digits) == total
            },
{
    law_decimal_denotes(total);
    lemma_encloses("Analyzed "@, decimal(total), " item(s)"@);
    assert(encloses(progress_text(total), "Analyzed "@, decimal(total), " item(s)"@));
}

/// Errors name the item or the directory that they are about.
pub proof fn law_snapshot_errors_name_the_path(e: SnapshotError)
    ensures
        e matches SnapshotError::Item { path, cause } ==> encloses(
            e.says(),
            "Failed analysis on filesystem item: "@,
            path@,
            seq![],
        ) && e.says_all() == seq![e.says()] + cause.says(),
        e matches SnapshotError::InvalidRoot { path } ==> encloses(
            e.says(),
            "Provided path contains invalid UTF-8 characters: "@,
            path@,
            seq![],
        ) && e.says_all() == seq![e.says()],
        e matches SnapshotError::Walk { reason, causes } ==> e.says() == reason@ && e.says_all().len()
            == 1 + causes@.len() && forall|k: int|
            0 <= k < causes@.len() ==> e.says_all()[k + 1] == (#[trigger] causes@[k])@,
{
    match e {
        SnapshotError::Item { path, cause: _ } => {
            lemma_encloses("Failed analysis on filesystem item: "@, path@, seq![]);
            assert(e.says() + Seq::<char>::empty() =~= e.says());
        },
        SnapshotError::InvalidRoot { path } => {
            lemma_encloses("Provided path contains invalid UTF-8 characters: "@, path@, seq![]);
            assert(e.says() + Seq::<char>::empty() =~= e.says());
        },
        SnapshotError::Walk { reason: _, causes: _ } => {},
    }
}

/// Errors about an item name the path that they show, and keep what caused them.
pub proof fn law_item_errors_name_the_path(e: ItemError)
    ensures
        e matches ItemError::NoMetadata(cause) ==> e.says() == seq![cause@],
        e matches ItemError::NoModificationTime { path, cause } ==> e.says().len() == 2
            && e.says()[1] == cause@ && encloses(
            e.says()[0],
            "Failed to get modification time of file: "@,
            path@,
            seq![],
        ),
        e matches ItemError::InvalidModificationTime { path, cause } ==> e.says().len() == 2
            && e.says()[1] == cause@ && encloses(
            e.says()[0],
            "Found invalid modification time for file: "@,
            path@,
            seq![],
        ),
        e matches ItemError::InvalidRelativePath { path } ==> e.says().len() == 1 && encloses(
            e.says()[0],
            "Relative path contains invalid UTF-8 characters: "@,
            path@,
            seq![],
        ),
{
    match e {
        ItemError::NoModificationTime { path, cause: _ } => {
            lemma_encloses("Failed to get modification time of file: "@, path@, seq![]);
        },
        ItemError::InvalidModificationTime { path, cause: _ } => {
            lemma_encloses("Found invalid modification time for file: "@, path@, seq![]);
        },
        ItemError::InvalidRelativePath { path } => {
            lemma_encloses("Relative path contains invalid UTF-8 characters: "@, path@, seq![]);
        },
        _ => {},
    }
    if e.says().len() > 0 {
        assert(e.says()[0] + Seq::<char>::empty() =~= e.says()[0]);
    }
}

/// A snapshot begins with nothing found, and keeps the directory and all the options.
pub proof fn law_snapshot_begins_empty(
    b: SnapshotBuilder,
    from_dir: Vec<u8>,
    options: SnapshotOptions,
)
    requires
        begins(b, from_dir, options),
    ensures
        b.items@.len() == 0,
        b.debug@.len() == 0,
        b.from_dir@ == from_dir@,
        b.options.ignore_paths@ == options.ignore_paths@,
        b.options.ignore_names@ == options.ignore_names@,
        b.options.ignore_exts@ == options.ignore_exts@,
{
    assert(b.listing().len() == b.items@.len());
    assert(texts(b.debug@).len() == b.debug@.len());
}

/// Where an item stops a snapshot, the error names the item by its whole path, and nothing that was
/// found before is lost.
pub proof fn law_stopped_snapshot_names_the_item(
    before: SnapshotBuilder,
    path: Seq<u8>,
    stat: Result<ItemStat, String>,
    e: SnapshotError,
    after: SnapshotBuilder,
)
    requires
        records(before, path, stat, Err(e), after),
    ensures
        e matches SnapshotError::Item { path: p, cause } && (valid_utf8(path) ==> encode_utf8(p@)
            == path),
        after.items@ == before.items@,
        after.debug@ == before.debug@,
{
    if valid_utf8(path) {
        vstd::utf8::decode_utf8_encode_utf8(path);
    }
}

/// What was found of an item is added behind what was found before.
pub proof fn law_recorded_item_comes_last(
    before: SnapshotBuilder,
    relative: Seq<u8>,
    stat: ItemStat,
    after: SnapshotBuilder,
)
    requires
        before.from_dir@.len() > 0,
        is_trimmed(relative),
        records(before, join(before.from_dir@, relative), Ok(stat), Ok(()), after),
    ensures
        after.items@.len() == before.items@.len() + 1,
        encode_utf8(after.items@.last().relative_path@) == relative,
        after.items@.last().metadata is Directory <==> stat.is_dir,
        after.items@.last().metadata matches SnapshotItemMetadata::File(m) ==> {
            &&& m.size == stat.size
            &&& stat.modified == (ModificationTime::SinceEpoch {
                secs: m.last_modif_date,
                nanos: m.last_modif_date_ns,
            })
        },
        forall|k: int|
            0 <= k < before.items@.len() ==> {
                &&& (#[trigger] after.items@[k]).relative_path@ == before.items@[k].relative_path@
                &&& after.items@[k].metadata == before.items@[k].metadata
            },
{
    let (x, y) = (before.listing(), after.listing());
    assert(x.len() == before.items@.len() && y.len() == after.items@.len());
    let last = after.items@.last();
    assert(y.last() == (last.relative_path@, last.metadata));
    law_join_then_strip(before.from_dir@, relative);
    vstd::utf8::decode_utf8_encode_utf8(relative);
    assert forall|k: int| 0 <= k < before.items@.len() implies {
        &&& (#[trigger] after.items@[k]).relative_path@ == before.items@[k].relative_path@
        &&& after.items@[k].metadata == before.items@[k].metadata
    } by {
        assert(y[k] == x[k]);
    }
}

} // verus!

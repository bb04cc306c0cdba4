//! What is told of a diff before it is carried out.
use vstd::prelude::*;

use crate::diffing::{DiffItemAdded, DiffItemDeleted, DiffItemModified, DiffItemTypeChanged};
use crate::snapshot::{SnapshotFileMetadata, SnapshotItemMetadata};
use crate::text::{encloses, lemma_encloses};

verus! {

/// The last second that can be shown as a date: the end of the year 9999.
pub const LAST_SHOWN_SECOND: u64 = 253402300799;

/// What `indicatif::HumanBytes` makes of a number of bytes.
pub uninterp spec fn human_bytes(size: u64) -> Seq<char>;

/// How the `time` crate displays a moment in UTC, given in seconds and nanoseconds since the Unix
/// epoch: `OffsetDateTime::from_unix_timestamp`, with the nanoseconds added.
pub uninterp spec fn unix_time(secs: u64, nanos: u32) -> Seq<char>;

/// Shows a number of bytes as `indicatif::HumanBytes` does. The text is a function of the number;
/// what it is, is not said.
#[verifier::external_body]
fn human_bytes_text(size: u64) -> (r: String)
    ensures
        r@ == human_bytes(size),
{
    indicatif::HumanBytes(size).to_string()
}

/// Shows a moment: `time::OffsetDateTime::from_unix_timestamp`, plus the nanoseconds, as the type
/// is displayed. The text is a function of the moment; what it is, is not said. A moment after
/// the year 9999 cannot be shown: the first call refuses it, and the addition panics on it.
#[verifier::external_body]
fn unix_time_text(secs: u64, nanos: u32) -> (r: String)
    requires
        can_be_shown(secs, nanos),
    ensures
        r@ == unix_time(secs, nanos),
{
    let whole = time::OffsetDateTime::from_unix_timestamp(secs as i64).unwrap();
    (whole + std::time::Duration::from_nanos(nanos as u64)).to_string()
}

/// Whether a moment can be shown as a date.
pub open spec fn can_be_shown(secs: u64, nanos: u32) -> bool {
    secs + nanos as int / 1_000_000_000 <= LAST_SHOWN_SECOND
}

/// Whether the modification time of a file can be shown as a date.
pub fn has_showable_time(m: &SnapshotFileMetadata) -> (r: bool)
    ensures
        r == can_be_shown(m.last_modif_date, m.last_modif_date_ns),
{
    let more: u64 = (m.last_modif_date_ns / 1_000_000_000) as u64;
    m.last_modif_date <= LAST_SHOWN_SECOND - more
}

/// One line of a report: a path and, where there is more to tell, what is told of it.
#[derive(Debug)]
pub struct ReportLine {
    pub label: String,
    pub detail: Option<String>,
}

impl View for ReportLine {
    type V = (Seq<char>, Option<Seq<char>>);

    open spec fn view(&self) -> (Seq<char>, Option<Seq<char>>) {
        (
            self.label@,
            match self.detail {
                Some(d) => Some(d@),
                None => None,
            },
        )
    }
}

/// The line for an item: a directory ends with a slash, a file is told with its size.
pub open spec fn item_line(path: Seq<char>, item: SnapshotItemMetadata) -> (
    Seq<char>,
    Option<Seq<char>>,
) {
    match item {
        SnapshotItemMetadata::Directory => (path + "/"@, None),
        SnapshotItemMetadata::File(m) => (path, Some(parenthesised(human_bytes(m.size)))),
    }
}

/// A text in parentheses.
pub open spec fn parenthesised(t: Seq<char>) -> Seq<char> {
    "("@ + t + ")"@
}

/// A change from one text to another.
pub open spec fn arrow(prev: Seq<char>, new: Seq<char>) -> Seq<char> {
    "("@ + prev + " => "@ + new + ")"@
}

/// How a file was modified: by its size, or else by its modification time.
pub open spec fn modification(m: DiffItemModified) -> Seq<char> {
    if m.prev.size != m.new.size {
        arrow(human_bytes(m.prev.size), human_bytes(m.new.size))
    } else {
        arrow(
            unix_time(m.prev.last_modif_date, m.prev.last_modif_date_ns),
            unix_time(m.new.last_modif_date, m.new.last_modif_date_ns),
        )
    }
}

/// The letter for the type of an item.
pub open spec fn type_letter(item: SnapshotItemMetadata) -> Seq<char> {
    match item {
        SnapshotItemMetadata::Directory => "D"@,
        SnapshotItemMetadata::File(_) => "F"@,
    }
}

/// Whether a line shows an item, with the size of a file as it is given.
pub open spec fn is_sized_line(
    r: ReportLine,
    path: Seq<char>,
    item: SnapshotItemMetadata,
    size: Seq<char>,
) -> bool {
    r@ == match item {
        SnapshotItemMetadata::Directory => (path + "/"@, None),
        SnapshotItemMetadata::File(_) => (path, Some(parenthesised(size))),
    }
}

/// Whether a line shows an added item.
pub open spec fn is_added_line(r: ReportLine, path: Seq<char>, added: DiffItemAdded) -> bool {
    r@ == item_line(path, added.new)
}

/// Whether a line shows a deleted item.
pub open spec fn is_deleted_line(r: ReportLine, path: Seq<char>, deleted: DiffItemDeleted) -> bool {
    r@ == item_line(path, deleted.prev)
}

/// Whether a line shows a modified file.
pub open spec fn is_modified_line(r: ReportLine, path: Seq<char>, m: DiffItemModified) -> bool {
    r@ == (path, Some(modification(m)))
}

/// Whether a text shows a size.
pub open spec fn is_shown_size(t: Seq<char>, size: u64) -> bool {
    t == human_bytes(size)
}

/// Puts a text in parentheses.
pub fn in_parentheses(t: &str) -> (r: String)
    ensures
        r@ == parenthesised(t@),
{
    let mut r: String = String::from_str("(");
    r.append(t);
    r.append(")");
    r
}

/// Writes a change from one text to another.
pub fn change_text(prev: &str, new: &str) -> (r: String)
    ensures
        r@ == arrow(prev@, new@),
{
    let mut r: String = String::from_str("(");
    r.append(prev);
    r.append(" => ");
    r.append(new);
    r.append(")");
    r
}

/// Writes the line for an item. `size` is the size of a file, as it is shown.
pub fn line_with_size(path: &str, item: &SnapshotItemMetadata, size: &str) -> (r: ReportLine)
    ensures
        is_sized_line(r, path@, *item, size@),
{
    let mut label: String = String::from_str(path);
    match item {
        SnapshotItemMetadata::Directory => {
            label.append("/");
            ReportLine { label, detail: None }
        },
        SnapshotItemMetadata::File(_) => ReportLine { label, detail: Some(in_parentheses(size)) },
    }
}

/// Writes the line for an item.
fn line_of_item(path: &str, item: &SnapshotItemMetadata) -> (r: ReportLine)
    ensures
        r@ == item_line(path@, *item),
{
    let size: String = match item {
        SnapshotItemMetadata::Directory => String::new(),
        SnapshotItemMetadata::File(m) => human_bytes_text(m.size),
    };
    line_with_size(path, item, size.as_str())
}

/// Writes the line for an added item.
pub fn added_line(path: &str, added: &DiffItemAdded) -> (r: ReportLine)
    ensures
        is_added_line(r, path@, *added),
{
    line_of_item(path, &added.new)
}

/// Writes the line for a deleted item.
pub fn deleted_line(path: &str, deleted: &DiffItemDeleted) -> (r: ReportLine)
    ensures
        is_deleted_line(r, path@, *deleted),
{
    line_of_item(path, &deleted.prev)
}

/// Writes the line for a modified file. One that only differs by its modification time is shown
/// with its dates.
pub fn modified_line(path: &str, modified: &DiffItemModified) -> (r: ReportLine)
    requires
        modified.prev != modified.new,
        modified.prev.size == modified.new.size ==> {
            &&& can_be_shown(modified.prev.last_modif_date, modified.prev.last_modif_date_ns)
            &&& can_be_shown(modified.new.last_modif_date, modified.new.last_modif_date_ns)
        },
    ensures
        is_modified_line(r, path@, *modified),
{
    let (prev, new): (&SnapshotFileMetadata, &SnapshotFileMetadata) = (
        &modified.prev,
        &modified.new,
    );
    let detail: String = if prev.size != new.size {
        change_text(
            human_bytes_text(prev.size).as_str(),
            human_bytes_text(new.size).as_str(),
        )
    } else {
        change_text(
            unix_time_text(prev.last_modif_date, prev.last_modif_date_ns).as_str(),
            unix_time_text(new.last_modif_date, new.last_modif_date_ns).as_str(),
        )
    };
    ReportLine { label: String::from_str(path), detail: Some(detail) }
}

/// The letter for the type of an item.
fn letter_of(item: &SnapshotItemMetadata) -> (r: &'static str)
    ensures
        r@ == type_letter(*item),
{
    match item {
        SnapshotItemMetadata::Directory => "D",
        SnapshotItemMetadata::File(_) => "F",
    }
}

/// The line for an item that changed its type: a directory ends with a slash.
pub open spec fn type_change_text(path: Seq<char>, changed: DiffItemTypeChanged) -> Seq<char> {
    " "@ + path + (if changed.new is Directory {
        "/"@
    } else {
        ""@
    }) + " "@ + arrow(type_letter(changed.prev), type_letter(changed.new))
}

/// Writes the line for an item that changed its type.
pub fn type_changed_line(path: &str, changed: &DiffItemTypeChanged) -> (r: String)
    ensures
        r@ == type_change_text(path@, *changed),
{
    let mut r: String = String::from_str(" ");
    r.append(path);
    let slash: &'static str = match changed.new {
        SnapshotItemMetadata::Directory => "/",
        SnapshotItemMetadata::File(_) => "",
    };
    r.append(slash);
    r.append(" ");
    r.append(change_text(letter_of(&changed.prev), letter_of(&changed.new)).as_str());
    r
}

/// What is told of how much there is to do.
pub open spec fn summary_text(
    files: Seq<char>,
    dirs: Seq<char>,
    deletions: Seq<char>,
    size: Seq<char>,
) -> Seq<char> {
    "Found a total of "@ + files + " files (+ "@ + dirs + " dirs) to transfer and "@ + deletions
        + " to delete for a total of "@ + size + "."@
}

/// Tells how much there is to do, the numbers given as they are shown.
pub fn summary(files: &str, dirs: &str, deletions: &str, size: &str) -> (r: String)
    ensures
        r@ == summary_text(files@, dirs@, deletions@, size@),
{
    let mut r: String = String::from_str("Found a total of ");
    r.append(files);
    r.append(" files (+ ");
    r.append(dirs);
    r.append(" dirs) to transfer and ");
    r.append(deletions);
    r.append(" to delete for a total of ");
    r.append(size);
    r.append(".");
    r
}

/// Shows the size of all the files to send.
pub fn shown_size(size: u64) -> (r: String)
    ensures
        is_shown_size(r@, size),
{
    human_bytes_text(size)
}

// ---------------------------------------------------------------------------------------------
// Laws
// ---------------------------------------------------------------------------------------------

/// A directory is shown by its path and a slash, a file by its path and, in parentheses, its size.
pub proof fn law_item_is_shown_by_path_and_size(
    r: ReportLine,
    path: Seq<char>,
    item: SnapshotItemMetadata,
)
    requires
        r@ == item_line(path, item),
    ensures
        item is Directory ==> r.detail is None && encloses(r.label@, path, "/"@, seq![]),
        item matches SnapshotItemMetadata::File(m) ==> r.label@ == path && r.detail is Some
            && encloses(r.detail->0@, "("@, human_bytes(m.size), ")"@),
{
    lemma_encloses(path, "/"@, seq![]);
    assert(path + "/"@ + seq![] =~= path + "/"@);
    if let SnapshotItemMetadata::File(m) = item {
        lemma_encloses("("@, human_bytes(m.size), ")"@);
    }
}

/// A modified file is shown by both its sizes where they differ, and by both its modification times
/// otherwise: what was comes first.
pub proof fn law_modification_shows_both_sides(m: DiffItemModified)
    ensures
        m.prev.size != m.new.size ==> encloses(
            modification(m),
            "("@ + human_bytes(m.prev.size),
            " => "@,
            human_bytes(m.new.size) + ")"@,
        ),
        m.prev.size == m.new.size ==> encloses(
            modification(m),
            "("@ + unix_time(m.prev.last_modif_date, m.prev.last_modif_date_ns),
            " => "@,
            unix_time(m.new.last_modif_date, m.new.last_modif_date_ns) + ")"@,
        ),
{
    let (a, b) = if m.prev.size != m.new.size {
        (human_bytes(m.prev.size), human_bytes(m.new.size))
    } else {
        (
            unix_time(m.prev.last_modif_date, m.prev.last_modif_date_ns),
            unix_time(m.new.last_modif_date, m.new.last_modif_date_ns),
        )
    };
    lemma_encloses("("@ + a, " => "@, b + ")"@);
    assert("("@ + a + " => "@ + (b + ")"@) =~= arrow(a, b));
}

/// A change of type is shown by the path and by the letters of both types: what was comes first.
pub proof fn law_type_change_shows_both_types(path: Seq<char>, c: DiffItemTypeChanged)
    ensures
        c.prev is Directory && c.new is File ==> encloses(
            type_change_text(path, c),
            " "@,
            path,
            ""@ + " "@ + ("("@ + "D"@ + " => "@ + "F"@ + ")"@),
        ),
        c.prev is File && c.new is Directory ==> encloses(
            type_change_text(path, c),
            " "@,
            path,
            "/"@ + " "@ + ("("@ + "F"@ + " => "@ + "D"@ + ")"@),
        ),
{
    if c.prev is Directory && c.new is File {
        let rest = ""@ + " "@ + ("("@ + "D"@ + " => "@ + "F"@ + ")"@);
        lemma_encloses(" "@, path, rest);
        assert(" "@ + path + rest =~= type_change_text(path, c));
    }
    if c.prev is File && c.new is Directory {
        let rest = "/"@ + " "@ + ("("@ + "F"@ + " => "@ + "D"@ + ")"@);
        lemma_encloses(" "@, path, rest);
        assert(" "@ + path + rest =~= type_change_text(path, c));
    }
}

/// The numbers of a summary stand where it tells what they are.
pub proof fn law_summary_tells_all_numbers(
    files: Seq<char>,
    dirs: Seq<char>,
    deletions: Seq<char>,
    size: Seq<char>,
)
    ensures
        ({
            let t = summary_text(files, dirs, deletions, size);
            let last = " to delete for a total of "@ + size + "."@;
            let third = " dirs) to transfer and "@ + deletions + last;
            let second = " files (+ "@ + dirs + third;
            &&& encloses(t, "Found a total of "@, files, second)
            &&& encloses(second, " files (+ "@, dirs, third)
            &&& encloses(third, " dirs) to transfer and "@, deletions, last)
            &&& encloses(last, " to delete for a total of "@, size, "."@)
        }),
{
    let t = summary_text(files, dirs, deletions, size);
    let last = " to delete for a total of "@ + size + "."@;
    let third = " dirs) to transfer and "@ + deletions + last;
    let second = " files (+ "@ + dirs + third;
    lemma_encloses("Found a total of "@, files, second);
    assert("Found a total of "@ + files + second =~= t);
    lemma_encloses(" files (+ "@, dirs, third);
    lemma_encloses(" dirs) to transfer and "@, deletions, last);
    lemma_encloses(" to delete for a total of "@, size, "."@);
}

/// A moment can be shown where it lies before the year 10000, its nanoseconds included.
pub proof fn law_moments_before_the_last_year_are_shown(secs: u64, nanos: u32)
    ensures
        can_be_shown(secs, nanos) <==> secs * 1_000_000_000 + nanos < 253_402_300_800
            * 1_000_000_000,
{
}

/// Lines show what they are about: an added item as it is, a deleted one as it was, and a modified file
/// with what changed. A size is shown as it is given.
pub proof fn law_lines_show_what_they_are_about(
    r: ReportLine,
    path: Seq<char>,
    item: SnapshotItemMetadata,
    m: DiffItemModified,
    size: Seq<char>,
)
    ensures
        is_added_line(r, path, DiffItemAdded { new: item }) || is_deleted_line(
            r,
            path,
            DiffItemDeleted { prev: item },
        ) ==> {
            &&& item is Directory ==> r.detail is None && encloses(r.label@, path, "/"@, seq![])
            &&& item matches SnapshotItemMetadata::File(f) ==> r.label@ == path && r.detail is Some
                && encloses(r.detail->0@, "("@, human_bytes(f.size), ")"@)
        },
        is_modified_line(r, path, m) ==> r.label@ == path && r.detail is Some && r.detail->0@
            == modification(m),
        is_sized_line(r, path, item, size) ==> {
            &&& item is Directory ==> r.detail is None && encloses(r.label@, path, "/"@, seq![])
            &&& item is File ==> r.label@ == path && r.detail is Some && encloses(
                r.detail->0@,
                "("@,
                size,
                ")"@,
            )
        },
{
    if r@ == item_line(path, item) {
        law_item_is_shown_by_path_and_size(r, path, item);
    }
    lemma_encloses(path, "/"@, seq![]);
    assert(path + "/"@ + seq![] =~= path + "/"@);
    lemma_encloses("("@, size, ")"@);
}

/// A size is shown by the text for it, and for no other.
pub proof fn law_size_is_shown(t: Seq<char>, size: u64)
    requires
        is_shown_size(t, size),
    ensures
        t == human_bytes(size),
{
}

} // verus!

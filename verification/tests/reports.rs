use syncer::diffing::{DiffItemAdded, DiffItemDeleted, DiffItemModified, DiffItemTypeChanged};
use syncer::report::{
    added_line, change_text, deleted_line, has_showable_time, in_parentheses, line_with_size,
    modified_line, shown_size, summary, type_changed_line, LAST_SHOWN_SECOND,
};
use syncer::snapshot::{SnapshotFileMetadata, SnapshotItemMetadata};
use syncer::text::{decimal_text, signed_decimal_text};

const DIR: SnapshotItemMetadata = SnapshotItemMetadata::Directory;

fn metadata(size: u64, date: u64, ns: u32) -> SnapshotFileMetadata {
    SnapshotFileMetadata { size, last_modif_date: date, last_modif_date_ns: ns }
}

#[test]
fn added_and_deleted_items_are_shown() {
    let dir = added_line("d", &DiffItemAdded { new: DIR });
    assert_eq!(dir.label, "d/");
    assert_eq!(dir.detail, None);
    let file = SnapshotItemMetadata::File(metadata(1500, 0, 0));
    let line = added_line("f", &DiffItemAdded { new: file });
    assert_eq!(line.label, "f");
    assert_eq!(line.detail, Some("(1.46 KiB)".to_string()));
    let gone = deleted_line("f", &DiffItemDeleted { prev: file });
    assert_eq!(gone.label, "f");
    assert_eq!(gone.detail, Some("(1.46 KiB)".to_string()));
    assert_eq!(deleted_line("d", &DiffItemDeleted { prev: DIR }).label, "d/");
    let given = line_with_size("f", &file, "7 crates");
    assert_eq!(given.detail, Some("(7 crates)".to_string()));
}

#[test]
fn modified_sizes_are_shown() {
    let m = DiffItemModified { prev: metadata(1, 2, 3), new: metadata(2048, 2, 3) };
    let line = modified_line("f", &m);
    assert_eq!(line.label, "f");
    assert_eq!(line.detail, Some("(1 B => 2.00 KiB)".to_string()));
}

#[test]
fn modified_times_are_shown() {
    let m = DiffItemModified { prev: metadata(1, 0, 0), new: metadata(1, 86400, 500000000) };
    assert_eq!(
        modified_line("f", &m).detail,
        Some("(1970-01-01 0:00:00.0 +00:00:00 => 1970-01-02 0:00:00.5 +00:00:00)".to_string())
    );
    let last = metadata(1, LAST_SHOWN_SECOND, 999999999);
    let m = DiffItemModified { prev: last, new: metadata(1, 0, 0) };
    assert_eq!(
        modified_line("f", &m).detail,
        Some(
            "(9999-12-31 23:59:59.999999999 +00:00:00 => 1970-01-01 0:00:00.0 +00:00:00)"
                .to_string()
        )
    );
}

#[test]
fn times_after_the_last_year_cannot_be_shown() {
    assert!(has_showable_time(&metadata(0, LAST_SHOWN_SECOND, 999999999)));
    assert!(!has_showable_time(&metadata(0, LAST_SHOWN_SECOND, 1000000000)));
    assert!(!has_showable_time(&metadata(0, LAST_SHOWN_SECOND + 1, 0)));
    assert!(has_showable_time(&metadata(0, LAST_SHOWN_SECOND - 4, u32::MAX)));
    assert!(!has_showable_time(&metadata(0, LAST_SHOWN_SECOND - 3, u32::MAX)));
    assert!(!has_showable_time(&metadata(0, u64::MAX, 0)));
}

#[test]
fn the_latest_time_with_many_nanoseconds_is_shown() {
    let m = DiffItemModified {
        prev: metadata(1, LAST_SHOWN_SECOND - 4, u32::MAX),
        new: metadata(1, 0, 0),
    };
    assert!(modified_line("f", &m).detail.unwrap().starts_with("(9999-12-31 23:59:59.294967295"));
}

#[test]
fn changed_types_are_shown() {
    let file = SnapshotItemMetadata::File(metadata(1, 2, 3));
    assert_eq!(
        type_changed_line("x", &DiffItemTypeChanged { prev: DIR, new: file }),
        " x (D => F)"
    );
    assert_eq!(
        type_changed_line("x", &DiffItemTypeChanged { prev: file, new: DIR }),
        " x/ (F => D)"
    );
}

#[test]
fn summaries_are_shown() {
    assert_eq!(
        summary("3", "2", "1", "4 B"),
        "Found a total of 3 files (+ 2 dirs) to transfer and 1 to delete for a total of 4 B."
    );
    assert_eq!(shown_size(0), "0 B");
    assert_eq!(shown_size(1048576), "1.00 MiB");
    assert_eq!(in_parentheses("x"), "(x)");
    assert_eq!(change_text("x", "y"), "(x => y)");
}

#[test]
fn numbers_are_written() {
    for n in [0u64, 7, 10, 99, 100, 1234567890, u64::MAX] {
        assert_eq!(decimal_text(n as u128), n.to_string());
    }
    assert_eq!(decimal_text(u128::MAX), u128::MAX.to_string());
    for n in [0i64, -1, 42, i64::MIN, i64::MAX] {
        assert_eq!(signed_decimal_text(n), n.to_string());
    }
}

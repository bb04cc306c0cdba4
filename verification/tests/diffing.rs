use syncer::diffing::{
    build_diff, build_item_names_hashmap, Diff, DiffItem, DiffItemAdded, DiffItemDeleted,
    DiffItemModified, DiffItemTypeChanged, DiffType,
};
use syncer::order::is_before;
use syncer::snapshot::{Snapshot, SnapshotFileMetadata, SnapshotItem, SnapshotItemMetadata};

const DIR: SnapshotItemMetadata = SnapshotItemMetadata::Directory;

fn file(size: u64, date: u64, ns: u32) -> SnapshotFileMetadata {
    SnapshotFileMetadata { size, last_modif_date: date, last_modif_date_ns: ns }
}

fn snapshot(items: &[(&str, SnapshotItemMetadata)]) -> Snapshot {
    Snapshot {
        from_dir: "/data".to_string(),
        items: items
            .iter()
            .map(|(path, metadata)| SnapshotItem {
                relative_path: path.to_string(),
                metadata: *metadata,
            })
            .collect(),
    }
}

fn is_empty(diff: &Diff) -> bool {
    diff.added.is_empty()
        && diff.modified.is_empty()
        && diff.type_changed.is_empty()
        && diff.deleted.is_empty()
}

#[test]
fn added_items() {
    let f = SnapshotItemMetadata::File(file(3, 4, 5));
    let diff = build_diff(&snapshot(&[("b", f), ("a", DIR)]), &snapshot(&[]));
    assert_eq!(
        diff.added,
        vec![
            ("a".to_string(), DiffItemAdded { new: DIR }),
            ("b".to_string(), DiffItemAdded { new: f }),
        ]
    );
    assert!(diff.modified.is_empty() && diff.type_changed.is_empty() && diff.deleted.is_empty());
}

#[test]
fn deleted_items() {
    let f = SnapshotItemMetadata::File(file(3, 4, 5));
    let diff = build_diff(&snapshot(&[]), &snapshot(&[("b", f), ("a", DIR)]));
    assert_eq!(
        diff.deleted,
        vec![
            ("a".to_string(), DiffItemDeleted { prev: DIR }),
            ("b".to_string(), DiffItemDeleted { prev: f }),
        ]
    );
    assert!(diff.added.is_empty() && diff.modified.is_empty() && diff.type_changed.is_empty());
}

#[test]
fn modified_files() {
    let prev = file(1, 10, 0);
    for new in [file(2, 10, 0), file(1, 11, 0), file(1, 10, 1)] {
        let diff = build_diff(
            &snapshot(&[("f", SnapshotItemMetadata::File(new))]),
            &snapshot(&[("f", SnapshotItemMetadata::File(prev))]),
        );
        assert_eq!(diff.modified, vec![("f".to_string(), DiffItemModified { prev, new })]);
        assert!(diff.added.is_empty() && diff.type_changed.is_empty() && diff.deleted.is_empty());
    }
}

#[test]
fn changed_types() {
    let f = SnapshotItemMetadata::File(file(1, 2, 3));
    let diff = build_diff(
        &snapshot(&[("y", DIR), ("x", f)]),
        &snapshot(&[("x", DIR), ("y", f)]),
    );
    assert_eq!(
        diff.type_changed,
        vec![
            ("x".to_string(), DiffItemTypeChanged { prev: DIR, new: f }),
            ("y".to_string(), DiffItemTypeChanged { prev: f, new: DIR }),
        ]
    );
    assert!(diff.added.is_empty() && diff.modified.is_empty() && diff.deleted.is_empty());
}

#[test]
fn same_contents_give_no_diff() {
    let f = SnapshotItemMetadata::File(file(1, 2, 3));
    let a = snapshot(&[("d", DIR), ("d/f", f)]);
    let b = snapshot(&[("d/f", f), ("d", DIR)]);
    assert!(is_empty(&build_diff(&a, &b)));
    assert!(is_empty(&build_diff(&snapshot(&[]), &snapshot(&[]))));
}

#[test]
fn changes_come_in_path_order() {
    let paths = ["b", "a/b", "a", "a-b", "B", "é", "aa"];
    let items: Vec<(&str, SnapshotItemMetadata)> = paths.iter().map(|p| (*p, DIR)).collect();
    let diff = build_diff(&snapshot(&items), &snapshot(&[]));
    let found: Vec<&str> = diff.added.iter().map(|(p, _)| p.as_str()).collect();
    let mut expected = paths.to_vec();
    expected.sort();
    assert_eq!(found, expected);
    assert_eq!(found, vec!["B", "a", "a-b", "a/b", "aa", "b", "é"]);
}

#[test]
fn path_order_is_that_of_bytes() {
    for a in ["", "a", "a/b", "a-b", "ab", "é", "z"] {
        for b in ["", "a", "a/b", "a-b", "ab", "é", "z"] {
            assert_eq!(is_before(a, b), a < b, "{a:?} {b:?}");
        }
    }
    assert!(is_before("dir", "dir/child"));
}

#[test]
fn a_reversed_diff_swaps_the_sides() {
    let (p, n) = (file(1, 2, 3), file(9, 8, 7));
    let local = snapshot(&[
        ("m", SnapshotItemMetadata::File(n)),
        ("new", DIR),
        ("t", DIR),
    ]);
    let remote = snapshot(&[
        ("m", SnapshotItemMetadata::File(p)),
        ("old", DIR),
        ("t", SnapshotItemMetadata::File(p)),
    ]);
    let there = build_diff(&local, &remote);
    let back = build_diff(&remote, &local);
    assert_eq!(there.added.len(), 1);
    assert_eq!(there.added[0].0, back.deleted[0].0);
    assert_eq!(there.added[0].1.new, back.deleted[0].1.prev);
    assert_eq!(there.deleted[0].0, back.added[0].0);
    assert_eq!(there.modified[0].1, DiffItemModified { prev: p, new: n });
    assert_eq!(back.modified[0].1, DiffItemModified { prev: n, new: p });
    assert_eq!(there.type_changed[0].1.prev, back.type_changed[0].1.new);
}

#[test]
fn the_last_item_of_a_path_counts_on_the_remote_side() {
    let (f, g) = (file(1, 1, 1), file(2, 2, 2));
    let local = snapshot(&[("x", SnapshotItemMetadata::File(f))]);
    let remote = snapshot(&[
        ("x", SnapshotItemMetadata::File(f)),
        ("x", SnapshotItemMetadata::File(g)),
    ]);
    let diff = build_diff(&local, &remote);
    assert_eq!(diff.modified, vec![("x".to_string(), DiffItemModified { prev: g, new: f })]);
}

#[test]
fn items_are_indexed_by_path() {
    let f = SnapshotItemMetadata::File(file(1, 1, 1));
    let map = build_item_names_hashmap(&snapshot(&[("a", DIR), ("b", f), ("a", f)]));
    assert_eq!(map.len(), 2);
    assert_eq!(map.get("a"), Some(&f));
    assert_eq!(map.get("b"), Some(&f));
    assert_eq!(map.get("c"), None);
}

#[test]
fn changes_are_sorted_by_kind() {
    let (p, n) = (file(1, 2, 3), file(4, 5, 6));
    let item = |path: &str, status: DiffType| DiffItem { status, path: path.to_string() };
    let diff = Diff::new(vec![
        item("d", DiffType::Deleted(DiffItemDeleted { prev: DIR })),
        item("b", DiffType::Added(DiffItemAdded { new: DIR })),
        item("a", DiffType::Added(DiffItemAdded { new: DIR })),
        item("m", DiffType::Modified(DiffItemModified { prev: p, new: n })),
        item(
            "t",
            DiffType::TypeChanged(DiffItemTypeChanged {
                prev: DIR,
                new: SnapshotItemMetadata::File(n),
            }),
        ),
    ]);
    let added: Vec<&str> = diff.added.iter().map(|(p, _)| p.as_str()).collect();
    assert_eq!(added, vec!["b", "a"]);
    assert_eq!(diff.deleted[0].0, "d");
    assert_eq!(diff.modified[0].0, "m");
    assert_eq!(diff.type_changed[0].0, "t");
}

#[test]
fn a_path_told_twice_alike_gives_no_diff() {
    let f = SnapshotItemMetadata::File(file(1, 2, 3));
    assert!(is_empty(&build_diff(&snapshot(&[("x", f), ("x", f)]), &snapshot(&[("x", f)]))));
}

use syncer::snapshot::{SnapshotItemMetadata, SnapshotOptions};
use syncer::walk::{
    snapshot_item, ItemError, ItemStat, ModificationTime, SnapshotBuilder, SnapshotError,
};

fn list(items: &[&str]) -> Vec<String> {
    items.iter().map(|s| s.to_string()).collect()
}

fn options(paths: &[&str], names: &[&str], exts: &[&str]) -> SnapshotOptions {
    SnapshotOptions {
        ignore_paths: list(paths),
        ignore_names: list(names),
        ignore_exts: list(exts),
    }
}

fn file_stat(size: u64, secs: u64, nanos: u32) -> ItemStat {
    ItemStat {
        is_symlink: false,
        is_dir: false,
        is_file: true,
        size,
        modified: ModificationTime::SinceEpoch { secs, nanos },
    }
}

fn dir_stat() -> ItemStat {
    ItemStat { is_dir: true, is_file: false, ..file_stat(0, 0, 0) }
}

#[test]
fn default_options_ignore_nothing() {
    let o = SnapshotOptions::default();
    assert!(o.validate().is_ok());
    for p in ["a", "a/b.txt", ".x", ""] {
        assert!(!o.should_ignore(p.as_bytes(), true));
        assert!(!o.should_ignore(p.as_bytes(), false));
    }
}

#[test]
fn options_are_validated() {
    assert!(options(&["a/b"], &["n"], &["txt"]).validate().is_ok());
    let message = |o: SnapshotOptions| o.validate().unwrap_err().message();
    assert_eq!(
        message(options(&["a", "/b", "/c"], &["x/y"], &["."])),
        "Paths to ignore must be relative (got '/b')"
    );
    assert_eq!(
        message(options(&["a"], &["x", "x/y"], &["."])),
        "Names to ignore must not contain a path separator (got 'x/y')"
    );
    assert_eq!(
        message(options(&[], &["x\\y"], &[])),
        "Names to ignore must not contain a path separator (got 'x\\y')"
    );
    assert_eq!(
        message(options(&[], &[], &["rs", ".rs"])),
        "Extensions to ignore must not contain a dot (got '.rs')"
    );
}

#[test]
fn items_are_ignored_by_path() {
    let o = options(&["a/b"], &[], &[]);
    assert!(o.should_ignore(b"a/b", false));
    assert!(o.should_ignore(b"a//b/", true));
    assert!(!o.should_ignore(b"a", false));
    assert!(!o.should_ignore(b"a/b/c", true));
    assert!(!o.should_ignore(b"x/a/b", true));
}

#[test]
fn items_are_ignored_by_name() {
    let o = options(&[], &["target"], &[]);
    assert!(o.should_ignore(b"target", false));
    assert!(o.should_ignore(b"a/target", true));
    assert!(!o.should_ignore(b"target/a", true));
    assert!(!o.should_ignore(b"target.rs", true));
}

#[test]
fn only_files_are_ignored_by_extension() {
    let o = options(&[], &[], &["o"]);
    assert!(o.should_ignore(b"a/x.o", true));
    assert!(!o.should_ignore(b"a/x.o", false));
    assert!(!o.should_ignore(b".o", true));
    assert!(!o.should_ignore(b"x.o.c", true));
}

#[test]
fn items_are_looked_at() {
    let item = snapshot_item(b"/d/a/b", b"/d", Ok(file_stat(3, 4, 5))).unwrap();
    assert_eq!(item.relative_path, "a/b");
    match item.metadata {
        SnapshotItemMetadata::File(m) => {
            assert_eq!((m.size, m.last_modif_date, m.last_modif_date_ns), (3, 4, 5));
        }
        SnapshotItemMetadata::Directory => panic!("not a directory"),
    }
    let dir = snapshot_item(b"/d/a", b"/d/", Ok(dir_stat())).unwrap();
    assert_eq!(dir.relative_path, "a");
    assert_eq!(dir.metadata, SnapshotItemMetadata::Directory);
}

#[test]
fn items_that_cannot_be_listed() {
    let says = |path: &[u8], stat: Result<ItemStat, String>| {
        snapshot_item(path, b"/d", stat).unwrap_err().messages()
    };
    assert_eq!(says(b"/d/a", Err("gone".to_string())), list(&["gone"]));
    assert_eq!(
        says(b"/d/a", Ok(ItemStat { is_symlink: true, ..dir_stat() })),
        list(&["Symbolc links are unsupported."])
    );
    assert_eq!(
        says(b"/d/a", Ok(ItemStat { is_file: false, ..file_stat(0, 0, 0) })),
        list(&["Unknown item type (not a symlink, file nor directory)"])
    );
    assert_eq!(
        says(
            b"/d/\xffa",
            Ok(ItemStat {
                modified: ModificationTime::Unavailable("why".to_string()),
                ..file_stat(0, 0, 0)
            })
        ),
        list(&["Failed to get modification time of file: /d/\u{fffd}a", "why"])
    );
    assert_eq!(
        says(
            b"/d/a",
            Ok(ItemStat {
                modified: ModificationTime::BeforeEpoch("early".to_string()),
                ..file_stat(0, 0, 0)
            })
        ),
        list(&["Found invalid modification time for file: /d/a", "early"])
    );
    assert_eq!(
        says(b"/d/x\xffy", Ok(dir_stat())),
        list(&["Relative path contains invalid UTF-8 characters: x\u{fffd}y"])
    );
}

#[test]
fn a_walk_lists_what_is_not_ignored() {
    let mut b = SnapshotBuilder::new(b"/d".to_vec(), options(&["skip"], &[], &["o"]));
    assert_eq!(b.progress(), "Analyzed 0 item(s)");
    assert!(b.visit(b"/d/a", false));
    assert!(b.record(b"/d/a", Ok(dir_stat())).is_ok());
    assert!(!b.visit(b"/d/skip", false));
    assert_eq!(b.progress(), "Analyzed 2 item(s)");
    assert!(!b.visit(b"/d/a/x.o", true));
    assert!(b.visit("/d/a/é".as_bytes(), true));
    assert!(b.record("/d/a/é".as_bytes(), Ok(file_stat(1, 2, 3))).is_ok());
    assert_eq!(b.progress(), "Analyzed 4 item(s)");
    let result = b.finish().unwrap();
    assert_eq!(result.snapshot.from_dir, "/d");
    let paths: Vec<&str> =
        result.snapshot.items.iter().map(|i| i.relative_path.as_str()).collect();
    assert_eq!(paths, vec!["a", "a/é"]);
    assert_eq!(
        result.debug,
        list(&[
            "Ignored item based on provided options: skip",
            "Ignored item based on provided options: a/x.o",
        ])
    );
}

#[test]
fn a_walk_fails_with_an_item() {
    let mut b = SnapshotBuilder::new(b"/d".to_vec(), SnapshotOptions::default());
    assert!(b.visit(b"/d/\xff", true));
    let e = b.record(b"/d/\xff", Err("gone".to_string())).unwrap_err();
    assert_eq!(e.message(), "Failed analysis on filesystem item: /d/\u{fffd}");
    match e {
        SnapshotError::Item { path: _, cause: ItemError::NoMetadata(reason) } => {
            assert_eq!(reason, "gone");
        }
        other => panic!("{other:?}"),
    }
    assert!(b.items.is_empty());
}

#[test]
fn a_walk_fails_with_its_root() {
    let b = SnapshotBuilder::new(b"/\xffd".to_vec(), SnapshotOptions::default());
    assert_eq!(
        b.finish().unwrap_err().message(),
        "Provided path contains invalid UTF-8 characters: /\u{fffd}d"
    );
}

#[test]
fn a_walk_that_stops_tells_why() {
    let e = SnapshotError::Walk {
        reason: "IO error for operation on /d: denied".to_string(),
        causes: list(&["denied"]),
    };
    assert_eq!(e.message(), "IO error for operation on /d: denied");
    assert_eq!(e.messages(), list(&["IO error for operation on /d: denied", "denied"]));
    let e = SnapshotError::Walk { reason: "loop".to_string(), causes: vec![] };
    assert_eq!(e.messages(), list(&["loop"]));
}

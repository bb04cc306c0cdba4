use syncer::snapshot::SnapshotOptions;

fn list(items: &[&str]) -> Vec<String> {
    items.iter().map(|s| s.to_string()).collect()
}

#[test]
fn items_are_split_into_paths_and_names() {
    let o = SnapshotOptions::from_items(
        list(&["/a/b", "node_modules", "/é", "x.y", "/"]),
        list(&["o", "tmp"]),
    );
    assert_eq!(o.ignore_paths, list(&["a/b", "é", ""]));
    assert_eq!(o.ignore_names, list(&["node_modules", "x.y"]));
    assert_eq!(o.ignore_exts, list(&["o", "tmp"]));
}

#[test]
fn rooted_items_are_ignored_at_their_path() {
    let o = SnapshotOptions::from_items(list(&["/a/b"]), list(&[]));
    assert!(o.should_ignore(b"a/b", true));
    assert!(o.should_ignore(b"a/b", false));
    assert!(!o.should_ignore(b"c/a/b", true));
    assert!(!o.should_ignore(b"b", true));
}

#[test]
fn named_items_are_ignored_anywhere() {
    let o = SnapshotOptions::from_items(list(&["b"]), list(&[]));
    assert!(o.should_ignore(b"b", true));
    assert!(o.should_ignore(b"a/b", false));
    assert!(!o.should_ignore(b"b/c", false));
}

#[test]
fn items_make_valid_options_or_not() {
    assert!(SnapshotOptions::from_items(list(&["/a/b", "c"]), list(&["o"])).validate().is_ok());
    let made = |items: &[&str], exts: &[&str]| {
        SnapshotOptions::from_items(list(items), list(exts)).validate().unwrap_err().message()
    };
    assert_eq!(made(&["//a"], &[]), "Paths to ignore must be relative (got '/a')");
    assert_eq!(
        made(&["a/b"], &[]),
        "Names to ignore must not contain a path separator (got 'a/b')"
    );
    assert_eq!(made(&[], &["a.b"]), "Extensions to ignore must not contain a dot (got 'a.b')");
}

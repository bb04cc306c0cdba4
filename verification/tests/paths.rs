use std::path::Path;

use syncer::path::{
    has_root, joined, last_extension, last_name, renamed, same_bytes, same_path, stripped,
};

const PATHS: [&str; 34] = [
    "", "/", "//", ".", "./", "..", "../", "a", "a/", "/a", "//a", "a/b", "a//b", "a/./b", "./a",
    "/./a", "a/.", "a/..", "a/../b", "/a/b", "/a/b/", "/a//b/.", "a.txt", ".a", "a.", "..a",
    "a.b.c", "/a/b.tar.gz", "é/ü.ñ", "ab", "a/b/c", ".a.b", "...", "a\\b",
];

fn text(bytes: &[u8]) -> &str {
    std::str::from_utf8(bytes).unwrap()
}

#[test]
fn roots_are_found() {
    for p in PATHS {
        assert_eq!(has_root(p.as_bytes()), Path::new(p).is_absolute(), "{p:?}");
    }
}

#[test]
fn file_names_are_found() {
    for p in PATHS {
        let expected = Path::new(p).file_name().map(|n| n.to_str().unwrap());
        assert_eq!(last_name(p.as_bytes()).map(text), expected, "{p:?}");
    }
}

#[test]
fn extensions_are_found() {
    for p in PATHS {
        let expected = Path::new(p).extension().map(|n| n.to_str().unwrap());
        assert_eq!(last_extension(p.as_bytes()).map(text), expected, "{p:?}");
    }
}

#[test]
fn paths_are_joined() {
    for base in PATHS {
        for p in PATHS {
            let expected = Path::new(base).join(p);
            let found = joined(base.as_bytes(), p.as_bytes());
            assert_eq!(text(&found), expected.to_str().unwrap(), "{base:?} {p:?}");
        }
    }
}

#[test]
fn prefixes_are_stripped() {
    for base in PATHS {
        for p in PATHS {
            let expected = Path::new(p).strip_prefix(base).ok().map(|r| r.to_str().unwrap());
            let found = stripped(p.as_bytes(), base.as_bytes());
            assert_eq!(found.as_deref().map(text), expected, "{p:?} {base:?}");
        }
    }
}

#[test]
fn paths_are_compared_by_components() {
    for a in PATHS {
        for b in PATHS {
            let expected = Path::new(a) == Path::new(b);
            assert_eq!(same_path(a.as_bytes(), b.as_bytes()), expected, "{a:?} {b:?}");
            assert_eq!(same_bytes(a.as_bytes(), b.as_bytes()), a == b);
        }
    }
}

#[test]
fn file_names_are_replaced() {
    for p in PATHS {
        for name in ["x", ".tmp-1-2-3", "x.y"] {
            let expected = Path::new(p).with_file_name(name);
            let found = renamed(p.as_bytes(), name.as_bytes());
            assert_eq!(text(&found), expected.to_str().unwrap(), "{p:?} {name:?}");
        }
    }
}

#[test]
fn bytes_need_not_be_text() {
    assert_eq!(last_name(b"a/\xff.\xfe"), Some(&b"\xff.\xfe"[..]));
    assert_eq!(last_extension(b"a/\xff.\xfe"), Some(&b"\xfe"[..]));
    assert_eq!(stripped(b"/d/\xff", b"/d"), Some(b"\xff".to_vec()));
}

#[test]
fn a_relative_path_joined_to_a_directory_lies_below_it() {
    for base in ["/data", "/data/", "data", "/"] {
        for p in ["a", "a/b", "..", "é"] {
            let below = joined(base.as_bytes(), p.as_bytes());
            let rest = stripped(&below, base.as_bytes()).unwrap();
            assert!(same_path(&rest, p.as_bytes()));
            assert!(same_path(&joined(base.as_bytes(), &rest), &below));
        }
    }
}

#[test]
fn an_absolute_path_replaces_the_directory() {
    assert_eq!(joined(b"/data", b"/etc"), b"/etc".to_vec());
    assert_eq!(stripped(b"/etc", b"/data"), None);
}

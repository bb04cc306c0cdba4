//! Snapshots: what a directory holds, and which of its items are left out.
use vstd::prelude::*;
use vstd::utf8::encode_utf8;

use crate::path::{
    components, extension, file_name, has_root, is_absolute, last_extension, last_name, same_bytes,
    same_path,
};
use crate::text::{encloses, lemma_encloses};

verus! {

/// What a directory holds.
#[derive(Debug)]
pub struct Snapshot {
    pub from_dir: String,
    pub items: Vec<SnapshotItem>,
}

/// One file or directory of a snapshot.
#[derive(Debug)]
pub struct SnapshotItem {
    pub relative_path: String,
    pub metadata: SnapshotItemMetadata,
}

#[derive(Debug, Clone, Copy, PartialEq, Eq, Structural)]
pub enum SnapshotItemMetadata {
    Directory,
    File(SnapshotFileMetadata),
}

#[derive(Debug, Clone, Copy, PartialEq, Eq, Structural)]
pub struct SnapshotFileMetadata {
    pub size: u64,
    pub last_modif_date: u64,
    pub last_modif_date_ns: u32,
}

/// A snapshot, with messages on how it came about.
#[derive(Debug)]
pub struct SnapshotResult {
    pub snapshot: Snapshot,
    pub debug: Vec<String>,
}

impl Snapshot {
    /// The items of a snapshot, each seen as its path and its metadata.
    pub open spec fn listing(&self) -> Seq<(Seq<char>, SnapshotItemMetadata)> {
        listing_of(self.items@)
    }
}

/// A list of items, each seen as its path and its metadata.
pub open spec fn listing_of(items: Seq<SnapshotItem>) -> Seq<(Seq<char>, SnapshotItemMetadata)> {
    items.map_values(|i: SnapshotItem| (i.relative_path@, i.metadata))
}

// ---------------------------------------------------------------------------------------------
// Options
// ---------------------------------------------------------------------------------------------

/// Which items a snapshot leaves out.
#[derive(Debug, Clone)]
pub struct SnapshotOptions {
    /// Paths relative to the directory of the snapshot.
    pub ignore_paths: Vec<String>,
    /// File names, wherever they occur.
    pub ignore_names: Vec<String>,
    /// Extensions of files.
    pub ignore_exts: Vec<String>,
}

/// What is wrong with some options.
#[derive(Debug)]
pub enum InvalidOptions {
    AbsolutePath(String),
    NameWithSeparator(String),
    ExtensionWithDot(String),
}

/// Whether a name holds a path separator, of Unix or of Windows.
pub open spec fn has_separator(name: Seq<char>) -> bool {
    name.contains('/') || name.contains('\\')
}

/// Whether a text, read as a path, starts at the root.
pub open spec fn is_rooted_text(path: Seq<char>) -> bool {
    is_absolute(encode_utf8(path))
}

/// Whether number `i` is the first text of a list that `bad` holds of.
pub open spec fn is_first_bad(s: Seq<String>, bad: spec_fn(Seq<char>) -> bool, i: int) -> bool {
    &&& 0 <= i < s.len()
    &&& bad(s[i]@)
    &&& forall|k: int| 0 <= k < i ==> !bad((#[trigger] s[k])@)
}

/// Whether `bad` holds of no text of a list.
pub open spec fn none_bad(s: Seq<String>, bad: spec_fn(Seq<char>) -> bool) -> bool {
    forall|k: int| 0 <= k < s.len() ==> !bad((#[trigger] s[k])@)
}

/// What makes a path to ignore invalid.
pub open spec fn bad_path() -> spec_fn(Seq<char>) -> bool {
    |p: Seq<char>| is_rooted_text(p)
}

/// What makes a name to ignore invalid.
pub open spec fn bad_name() -> spec_fn(Seq<char>) -> bool {
    |n: Seq<char>| has_separator(n)
}

/// What makes an extension to ignore invalid.
pub open spec fn bad_ext() -> spec_fn(Seq<char>) -> bool {
    |e: Seq<char>| e.contains('.')
}

/// Whether one text of a list has the given bytes.
pub open spec fn lists_bytes(s: Seq<String>, b: Seq<u8>) -> bool {
    exists|i: int| 0 <= i < s.len() && encode_utf8((#[trigger] s[i])@) == b
}

/// Whether one text of a list, read as a path, has the components of the given path.
pub open spec fn lists_path(s: Seq<String>, p: Seq<u8>) -> bool {
    exists|i: int|
        0 <= i < s.len() && components(encode_utf8((#[trigger] s[i])@)) == components(p)
}

/// Whether a text holds a character.
fn has_char(s: &str, c: char) -> (r: bool)
    ensures
        r == s@.contains(c),
{
    let mut found: bool = false;
    for x in it: s.chars()
        invariant
            it.seq() == s@,
            found == s@.take(it.index() as int).contains(c),
    {
        proof {
            let n = it.index() as int;
            let before = s@.take(n);
            assert(s@.take(n + 1) =~= before.push(x));
            if before.contains(c) {
                let k = choose|k: int| 0 <= k < before.len() && before[k] == c;
                assert(before.push(x)[k] == c);
            }
            if before.push(x).contains(c) && x != c {
                let k = choose|k: int| 0 <= k < before.len() + 1 && before.push(x)[k] == c;
                assert(before[k] == c);
            }
            if x == c {
                assert(before.push(x)[n] == c);
            }
        }
        if x == c {
            found = true;
        }
    }
    assert(s@.take(s@.len() as int) =~= s@);
    found
}

impl InvalidOptions {
    /// What is told of what is wrong.
    pub open spec fn says(&self) -> Seq<char> {
        match *self {
            InvalidOptions::AbsolutePath(p) => "Paths to ignore must be relative (got '"@ + p@
                + "')"@,
            InvalidOptions::NameWithSeparator(n) =>
                "Names to ignore must not contain a path separator (got '"@ + n@ + "')"@,
            InvalidOptions::ExtensionWithDot(e) =>
                "Extensions to ignore must not contain a dot (got '"@ + e@ + "')"@,
        }
    }

    /// Says what is wrong.
    pub fn message(&self) -> (r: String)
        ensures
            r@ == self.says(),
    {
        let (start, got): (&str, &String) = match self {
            InvalidOptions::AbsolutePath(p) => ("Paths to ignore must be relative (got '", p),
            InvalidOptions::NameWithSeparator(n) => (
                "Names to ignore must not contain a path separator (got '",
                n,
            ),
            InvalidOptions::ExtensionWithDot(e) => (
                "Extensions to ignore must not contain a dot (got '",
                e,
            ),
        };
        let mut r: String = String::from_str(start);
        r.append(got.as_str());
        r.append("')");
        r
    }
}

/// Whether options are judged as they have to be: of what is wrong, the first thing is told.
pub open spec fn judges(o: SnapshotOptions, r: Result<(), InvalidOptions>) -> bool {
    &&& r is Ok <==> o.is_valid()
    &&& match r {
        Ok(()) => true,
        Err(InvalidOptions::AbsolutePath(p)) => exists|i: int| #[trigger]
            is_first_bad(o.ignore_paths@, bad_path(), i) && p@ == o.ignore_paths@[i]@,
        Err(InvalidOptions::NameWithSeparator(n)) => {
            &&& none_bad(o.ignore_paths@, bad_path())
            &&& exists|i: int| #[trigger]
                is_first_bad(o.ignore_names@, bad_name(), i) && n@ == o.ignore_names@[i]@
        },
        Err(InvalidOptions::ExtensionWithDot(e)) => {
            &&& none_bad(o.ignore_paths@, bad_path())
            &&& none_bad(o.ignore_names@, bad_name())
            &&& exists|i: int| #[trigger]
                is_first_bad(o.ignore_exts@, bad_ext(), i) && e@ == o.ignore_exts@[i]@
        },
    }
}

impl Default for SnapshotOptions {
    /// Ignores nothing.
    fn default() -> (r: Self)
        ensures
            r.ignore_paths@.len() == 0,
            r.ignore_names@.len() == 0,
            r.ignore_exts@.len() == 0,
    {
        SnapshotOptions {
            ignore_paths: Vec::new(),
            ignore_names: Vec::new(),
            ignore_exts: Vec::new(),
        }
    }
}

impl SnapshotOptions {
    /// Whether options can be used: the paths are relative, the names hold no separator and the
    /// extensions no dot.
    pub open spec fn is_valid(&self) -> bool {
        &&& none_bad(self.ignore_paths@, bad_path())
        &&& none_bad(self.ignore_names@, bad_name())
        &&& none_bad(self.ignore_exts@, bad_ext())
    }

    /// Whether an item is left out: by its path, by its name or, if it is a file, by its
    /// extension.
    pub open spec fn ignores(&self, relative_path: Seq<u8>, is_file: bool) -> bool {
        ||| lists_path(self.ignore_paths@, relative_path)
        ||| file_name(relative_path) is Some && lists_bytes(
            self.ignore_names@,
            file_name(relative_path)->0,
        )
        ||| is_file && extension(relative_path) is Some && lists_bytes(
            self.ignore_exts@,
            extension(relative_path)->0,
        )
    }

    /// Checks options. Of what is wrong, the first thing is told: paths come before names, and
    /// names before extensions.
    pub fn validate(&self) -> (r: Result<(), InvalidOptions>)
        ensures
            judges(*self, r),
    {
        for i in 0..self.ignore_paths.len()
            invariant
                forall|k: int| 0 <= k < i ==> !bad_path()((#[trigger] self.ignore_paths@[k])@),
        {
            let path: &String = &self.ignore_paths[i];
            if has_root(path.as_str().as_bytes()) {
                assert(is_first_bad(self.ignore_paths@, bad_path(), i as int));
                return Err(InvalidOptions::AbsolutePath(path.clone()));
            }
        }
        for i in 0..self.ignore_names.len()
            invariant
                none_bad(self.ignore_paths@, bad_path()),
                forall|k: int| 0 <= k < i ==> !bad_name()((#[trigger] self.ignore_names@[k])@),
        {
            let name: &String = &self.ignore_names[i];
            if has_char(name.as_str(), '/') || has_char(name.as_str(), '\\') {
                assert(is_first_bad(self.ignore_names@, bad_name(), i as int));
                return Err(InvalidOptions::NameWithSeparator(name.clone()));
            }
        }
        for i in 0..self.ignore_exts.len()
            invariant
                none_bad(self.ignore_paths@, bad_path()),
                none_bad(self.ignore_names@, bad_name()),
                forall|k: int| 0 <= k < i ==> !bad_ext()((#[trigger] self.ignore_exts@[k])@),
        {
            let ext: &String = &self.ignore_exts[i];
            if has_char(ext.as_str(), '.') {
                assert(is_first_bad(self.ignore_exts@, bad_ext(), i as int));
                return Err(InvalidOptions::ExtensionWithDot(ext.clone()));
            }
        }
        Ok(())
    }

    /// Whether an item is left out. `is_file` tells whether there is a regular file at
    /// `relative_path`.
    pub fn should_ignore(&self, relative_path: &[u8], is_file: bool) -> (r: bool)
        ensures
            r == self.ignores(relative_path@, is_file),
    {
        for i in 0..self.ignore_paths.len()
            invariant
                forall|k: int|
                    0 <= k < i ==> components(encode_utf8((#[trigger] self.ignore_paths@[k])@))
                        != components(relative_path@),
        {
            if same_path(relative_path, self.ignore_paths[i].as_str().as_bytes()) {
                assert(components(encode_utf8(self.ignore_paths@[i as int]@)) == components(
                    relative_path@,
                ));
                return true;
            }
        }
        if let Some(name) = last_name(relative_path) {
            if any_has_bytes(&self.ignore_names, name) {
                return true;
            }
        }
        if is_file {
            if let Some(ext) = last_extension(relative_path) {
                if any_has_bytes(&self.ignore_exts, ext) {
                    return true;
                }
            }
        }
        false
    }
}

/// Whether one text of a list has the given bytes.
fn any_has_bytes(texts: &Vec<String>, bytes: &[u8]) -> (r: bool)
    ensures
        r == lists_bytes(texts@, bytes@),
{
    for i in 0..texts.len()
        invariant
            forall|k: int| 0 <= k < i ==> encode_utf8((#[trigger] texts@[k])@) != bytes@,
    {
        if same_bytes(texts[i].as_str().as_bytes(), bytes) {
            assert(encode_utf8(texts@[i as int]@) == bytes@);
            return true;
        }
    }
    false
}

/// Without options nothing is left out.
pub proof fn law_default_ignores_nothing(o: SnapshotOptions, relative_path: Seq<u8>, is_file: bool)
    requires
        o.ignore_paths@.len() == 0,
        o.ignore_names@.len() == 0,
        o.ignore_exts@.len() == 0,
    ensures
        o.is_valid(),
        !o.ignores(relative_path, is_file),
{
}

/// Directories are not left out because of an extension.
pub proof fn law_extensions_concern_files(o: SnapshotOptions, relative_path: Seq<u8>)
    ensures
        o.ignores(relative_path, false) ==> o.ignores(relative_path, true),
        o.ignores(relative_path, false) <==> lists_path(o.ignore_paths@, relative_path) || (
        file_name(relative_path) is Some && lists_bytes(
            o.ignore_names@,
            file_name(relative_path)->0,
        )),
{
}

/// An item whose path has the components of a listed path is left out, whatever it is.
pub proof fn law_listed_path_is_ignored(
    o: SnapshotOptions,
    i: int,
    relative_path: Seq<u8>,
    is_file: bool,
)
    requires
        0 <= i < o.ignore_paths@.len(),
        components(relative_path) == components(encode_utf8(o.ignore_paths@[i]@)),
    ensures
        o.ignores(relative_path, is_file),
{
    assert(lists_path(o.ignore_paths@, relative_path));
}

/// An item with a listed name is left out, whatever it is and wherever it lies.
pub proof fn law_listed_name_is_ignored(
    o: SnapshotOptions,
    i: int,
    relative_path: Seq<u8>,
    is_file: bool,
)
    requires
        0 <= i < o.ignore_names@.len(),
        file_name(relative_path) == Some(encode_utf8(o.ignore_names@[i]@)),
    ensures
        o.ignores(relative_path, is_file),
{
    assert(lists_bytes(o.ignore_names@, encode_utf8(o.ignore_names@[i]@)));
}

/// A file with a listed extension is left out.
pub proof fn law_listed_extension_is_ignored(o: SnapshotOptions, i: int, relative_path: Seq<u8>)
    requires
        0 <= i < o.ignore_exts@.len(),
        extension(relative_path) == Some(encode_utf8(o.ignore_exts@[i]@)),
    ensures
        o.ignores(relative_path, true),
{
    assert(lists_bytes(o.ignore_exts@, encode_utf8(o.ignore_exts@[i]@)));
}

/// Nothing else is left out: there is a path, a name or, for a file, an extension in the lists that
/// is the one of the item.
pub proof fn law_only_listed_is_ignored(o: SnapshotOptions, relative_path: Seq<u8>, is_file: bool)
    requires
        o.ignores(relative_path, is_file),
    ensures
        ({
            ||| exists|i: int|
                0 <= i < o.ignore_paths@.len() && components(
                    encode_utf8((#[trigger] o.ignore_paths@[i])@),
                ) == components(relative_path)
            ||| exists|i: int|
                0 <= i < o.ignore_names@.len() && Some(
                    encode_utf8((#[trigger] o.ignore_names@[i])@),
                ) == file_name(relative_path)
            ||| is_file && exists|i: int|
                0 <= i < o.ignore_exts@.len() && Some(
                    encode_utf8((#[trigger] o.ignore_exts@[i])@),
                ) == extension(relative_path)
        }),
{
    if lists_path(o.ignore_paths@, relative_path) {
        let i = choose|i: int|
            0 <= i < o.ignore_paths@.len() && components(
                encode_utf8((#[trigger] o.ignore_paths@[i])@),
            ) == components(relative_path);
        assert(components(encode_utf8(o.ignore_paths@[i]@)) == components(relative_path));
    } else if file_name(relative_path) is Some && lists_bytes(
        o.ignore_names@,
        file_name(relative_path)->0,
    ) {
        let i = choose|i: int|
            0 <= i < o.ignore_names@.len() && encode_utf8((#[trigger] o.ignore_names@[i])@)
                == file_name(relative_path)->0;
        assert(Some(encode_utf8(o.ignore_names@[i]@)) == file_name(relative_path));
    } else {
        let i = choose|i: int|
            0 <= i < o.ignore_exts@.len() && encode_utf8((#[trigger] o.ignore_exts@[i])@)
                == extension(relative_path)->0;
        assert(Some(encode_utf8(o.ignore_exts@[i]@)) == extension(relative_path));
    }
}

/// More to ignore leaves out more: what one list of options leaves out, another that holds the same
/// paths, names and extensions leaves out too.
pub proof fn law_more_options_ignore_more(
    o: SnapshotOptions,
    more: SnapshotOptions,
    relative_path: Seq<u8>,
    is_file: bool,
)
    requires
        o.ignores(relative_path, is_file),
        forall|i: int|
            0 <= i < o.ignore_paths@.len() ==> exists|k: int|
                0 <= k < more.ignore_paths@.len() && (#[trigger] more.ignore_paths@[k])@ == (
                #[trigger] o.ignore_paths@[i])@,
        forall|i: int|
            0 <= i < o.ignore_names@.len() ==> exists|k: int|
                0 <= k < more.ignore_names@.len() && (#[trigger] more.ignore_names@[k])@ == (
                #[trigger] o.ignore_names@[i])@,
        forall|i: int|
            0 <= i < o.ignore_exts@.len() ==> exists|k: int|
                0 <= k < more.ignore_exts@.len() && (#[trigger] more.ignore_exts@[k])@ == (
                #[trigger] o.ignore_exts@[i])@,
    ensures
        more.ignores(relative_path, is_file),
{
    if lists_path(o.ignore_paths@, relative_path) {
        let i = choose|i: int|
            0 <= i < o.ignore_paths@.len() && components(
                encode_utf8((#[trigger] o.ignore_paths@[i])@),
            ) == components(relative_path);
        let k = choose|k: int|
            0 <= k < more.ignore_paths@.len() && (#[trigger] more.ignore_paths@[k])@
                == o.ignore_paths@[i]@;
        assert(components(encode_utf8(more.ignore_paths@[k]@)) == components(relative_path));
    } else if file_name(relative_path) is Some && lists_bytes(
        o.ignore_names@,
        file_name(relative_path)->0,
    ) {
        let i = choose|i: int|
            0 <= i < o.ignore_names@.len() && encode_utf8((#[trigger] o.ignore_names@[i])@)
                == file_name(relative_path)->0;
        let k = choose|k: int|
            0 <= k < more.ignore_names@.len() && (#[trigger] more.ignore_names@[k])@
                == o.ignore_names@[i]@;
        assert(encode_utf8(more.ignore_names@[k]@) == file_name(relative_path)->0);
    } else {
        let i = choose|i: int|
            0 <= i < o.ignore_exts@.len() && encode_utf8((#[trigger] o.ignore_exts@[i])@)
                == extension(relative_path)->0;
        let k = choose|k: int|
            0 <= k < more.ignore_exts@.len() && (#[trigger] more.ignore_exts@[k])@
                == o.ignore_exts@[i]@;
        assert(encode_utf8(more.ignore_exts@[k]@) == extension(relative_path)->0);
    }
}

/// Options are valid where no path begins with a slash, no name holds a slash or a backslash, and no
/// extension holds a dot.
pub proof fn law_valid_options_by_characters(o: SnapshotOptions)
    ensures
        o.is_valid() <==> {
            &&& forall|i: int|
                0 <= i < o.ignore_paths@.len() ==> {
                    let p = (#[trigger] o.ignore_paths@[i])@;
                    p.len() == 0 || p[0] != '/'
                }
            &&& forall|i: int, k: int|
                0 <= i < o.ignore_names@.len() && 0 <= k < o.ignore_names@[i]@.len() ==> {
                    let c = #[trigger] o.ignore_names@[i]@[k];
                    c != '/' && c != '\\'
                }
            &&& forall|i: int, k: int|
                0 <= i < o.ignore_exts@.len() && 0 <= k < o.ignore_exts@[i]@.len()
                    ==> #[trigger] o.ignore_exts@[i]@[k] != '.'
        },
{
    assert forall|t: Seq<char>| #[trigger] bad_path()(t) <==> t.len() > 0 && t[0] == '/' by {
        crate::cli::law_rooted_text_starts_with_slash(t);
    }
    if o.is_valid() {
        assert forall|i: int| 0 <= i < o.ignore_paths@.len() implies {
            let p = (#[trigger] o.ignore_paths@[i])@;
            p.len() == 0 || p[0] != '/'
        } by {
            assert(!bad_path()(o.ignore_paths@[i]@));
        }
        assert forall|i: int, k: int|
            0 <= i < o.ignore_names@.len() && 0 <= k < o.ignore_names@[i]@.len() implies {
            let c = #[trigger] o.ignore_names@[i]@[k];
            c != '/' && c != '\\'
        } by {
            assert(!bad_name()(o.ignore_names@[i]@));
        }
        assert forall|i: int, k: int|
            0 <= i < o.ignore_exts@.len() && 0 <= k < o.ignore_exts@[i]@.len() implies (
        #[trigger] o.ignore_exts@[i]@[k]) != '.' by {
            assert(!bad_ext()(o.ignore_exts@[i]@));
        }
    } else if !none_bad(o.ignore_paths@, bad_path()) {
        let i = choose|i: int|
            0 <= i < o.ignore_paths@.len() && bad_path()((#[trigger] o.ignore_paths@[i])@);
        assert(o.ignore_paths@[i]@[0] == '/');
    } else if !none_bad(o.ignore_names@, bad_name()) {
        let i = choose|i: int|
            0 <= i < o.ignore_names@.len() && bad_name()((#[trigger] o.ignore_names@[i])@);
        let n = o.ignore_names@[i]@;
        let k = choose|k: int| 0 <= k < n.len() && (n[k] == '/' || n[k] == '\\');
        assert(o.ignore_names@[i]@[k] == '/' || o.ignore_names@[i]@[k] == '\\');
    } else {
        let i = choose|i: int|
            0 <= i < o.ignore_exts@.len() && bad_ext()((#[trigger] o.ignore_exts@[i])@);
        let x = o.ignore_exts@[i]@;
        let k = choose|k: int| 0 <= k < x.len() && x[k] == '.';
        assert(o.ignore_exts@[i]@[k] == '.');
    }
}

/// What is told to be wrong is: the first path that begins with a slash, where there is one, else the
/// first name with a separator, else the first extension with a dot.
pub proof fn law_first_fault_is_told(o: SnapshotOptions, r: Result<(), InvalidOptions>)
    requires
        judges(o, r),
    ensures
        r matches Err(InvalidOptions::AbsolutePath(p)) ==> p@.len() > 0 && p@[0] == '/' && exists|
            i: int,
        |
            0 <= i < o.ignore_paths@.len() && (#[trigger] o.ignore_paths@[i])@ == p@ && forall|k: int|
                0 <= k < i ==> (#[trigger] o.ignore_paths@[k])@.len() == 0
                    || o.ignore_paths@[k]@[0] != '/',
        r matches Err(InvalidOptions::NameWithSeparator(n)) ==> (n@.contains('/') || n@.contains(
            '\\',
        )) && exists|i: int|
            0 <= i < o.ignore_names@.len() && (#[trigger] o.ignore_names@[i])@ == n@ && forall|k: int|
                0 <= k < i ==> !(#[trigger] o.ignore_names@[k])@.contains('/')
                    && !o.ignore_names@[k]@.contains('\\'),
        r matches Err(InvalidOptions::ExtensionWithDot(e)) ==> e@.contains('.') && exists|i: int|
            0 <= i < o.ignore_exts@.len() && (#[trigger] o.ignore_exts@[i])@ == e@ && forall|k: int|
                0 <= k < i ==> !(#[trigger] o.ignore_exts@[k])@.contains('.'),
        (exists|i: int|
            0 <= i < o.ignore_paths@.len() && (#[trigger] o.ignore_paths@[i])@.len() > 0
                && o.ignore_paths@[i]@[0] == '/') ==> (r matches Err(
            InvalidOptions::AbsolutePath(p),
        )),
{
    assert forall|t: Seq<char>| #[trigger] bad_path()(t) <==> t.len() > 0 && t[0] == '/' by {
        crate::cli::law_rooted_text_starts_with_slash(t);
    }
    match r {
        Err(InvalidOptions::AbsolutePath(p)) => {
            let i = choose|i: int| #[trigger]
                is_first_bad(o.ignore_paths@, bad_path(), i) && p@ == o.ignore_paths@[i]@;
            assert(bad_path()(o.ignore_paths@[i]@));
            assert forall|k: int| 0 <= k < i implies (#[trigger] o.ignore_paths@[k])@.len() == 0
                || o.ignore_paths@[k]@[0] != '/' by {
                assert(!bad_path()(o.ignore_paths@[k]@));
            }
        },
        Err(InvalidOptions::NameWithSeparator(n)) => {
            let i = choose|i: int| #[trigger]
                is_first_bad(o.ignore_names@, bad_name(), i) && n@ == o.ignore_names@[i]@;
            assert(bad_name()(o.ignore_names@[i]@));
            assert forall|k: int| 0 <= k < i implies !(#[trigger] o.ignore_names@[k])@.contains('/')
                && !o.ignore_names@[k]@.contains('\\') by {
                assert(!bad_name()(o.ignore_names@[k]@));
            }
        },
        Err(InvalidOptions::ExtensionWithDot(e)) => {
            let i = choose|i: int| #[trigger]
                is_first_bad(o.ignore_exts@, bad_ext(), i) && e@ == o.ignore_exts@[i]@;
            assert(bad_ext()(o.ignore_exts@[i]@));
            assert forall|k: int| 0 <= k < i implies !(#[trigger] o.ignore_exts@[k])@.contains('.') by {
                assert(!bad_ext()(o.ignore_exts@[k]@));
            }
        },
        Ok(()) => {},
    }
    if exists|i: int|
        0 <= i < o.ignore_paths@.len() && (#[trigger] o.ignore_paths@[i])@.len() > 0
            && o.ignore_paths@[i]@[0] == '/' {
        let i = choose|i: int|
            0 <= i < o.ignore_paths@.len() && (#[trigger] o.ignore_paths@[i])@.len() > 0
                && o.ignore_paths@[i]@[0] == '/';
        assert(bad_path()(o.ignore_paths@[i]@));
        assert(!none_bad(o.ignore_paths@, bad_path()));
    }
}

/// What is told of a fault shows the text that it is in.
pub proof fn law_faults_are_shown(e: InvalidOptions)
    ensures
        match e {
            InvalidOptions::AbsolutePath(p) => encloses(
                e.says(),
                "Paths to ignore must be relative (got '"@,
                p@,
                "')"@,
            ),
            InvalidOptions::NameWithSeparator(n) => encloses(
                e.says(),
                "Names to ignore must not contain a path separator (got '"@,
                n@,
                "')"@,
            ),
            InvalidOptions::ExtensionWithDot(x) => encloses(
                e.says(),
                "Extensions to ignore must not contain a dot (got '"@,
                x@,
                "')"@,
            ),
        },
{
    match e {
        InvalidOptions::AbsolutePath(p) => {
            lemma_encloses("Paths to ignore must be relative (got '"@, p@, "')"@);
        },
        InvalidOptions::NameWithSeparator(n) => {
            lemma_encloses("Names to ignore must not contain a path separator (got '"@, n@, "')"@);
        },
        InvalidOptions::ExtensionWithDot(x) => {
            lemma_encloses("Extensions to ignore must not contain a dot (got '"@, x@, "')"@);
        },
    }
}

/// The items of a snapshot are seen as their paths and their metadata, one for one.
pub proof fn law_listing_is_what_items_tell(s: Snapshot, i: int)
    requires
        0 <= i < s.items@.len(),
    ensures
        s.listing().len() == s.items@.len(),
        s.listing()[i] == (s.items@[i].relative_path@, s.items@[i].metadata),
{
}

} // verus!

//! What the command line asks for.
use vstd::prelude::*;
use vstd::utf8::{
    char_u32_cast, codepoint_width_1, decode_first_scalar, encode_utf8, encode_utf8_first_scalar,
    is_leading_byte_width_1, leading_bits_width_1,
};

use crate::entries::{lemma_picked, lemma_texts_push, pick_values, texts};
use crate::path::{components, extension, file_name, has_root};
use crate::snapshot::{
    bad_ext, bad_name, bad_path, has_separator, is_rooted_text, law_listed_extension_is_ignored,
    law_only_listed_is_ignored, lists_bytes, lists_path, none_bad, SnapshotOptions,
};

verus! {

/// The path that an item to ignore stands for, where it starts at the root: the text without its
/// first separator.
pub open spec fn ignored_path() -> spec_fn(Seq<char>) -> Option<Seq<char>> {
    |item: Seq<char>|
        if is_rooted_text(item) {
            Some(item.skip(1))
        } else {
            None
        }
}

/// The name that an item to ignore stands for, where it does not start at the root.
pub open spec fn ignored_name() -> spec_fn(Seq<char>) -> Option<Seq<char>> {
    |item: Seq<char>|
        if is_rooted_text(item) {
            None
        } else {
            Some(item)
        }
}

/// Whether options are the ones that a command line asks for.
pub open spec fn asks_for(
    ignore_items: Seq<Seq<char>>,
    ignore_exts: Seq<Seq<char>>,
    o: SnapshotOptions,
) -> bool {
    &&& texts(o.ignore_paths@) == pick_values(ignore_items, ignored_path())
    &&& texts(o.ignore_names@) == pick_values(ignore_items, ignored_name())
    &&& texts(o.ignore_exts@) == ignore_exts
}

/// A text starts at the root if its first character is a slash.
pub proof fn law_rooted_text_starts_with_slash(t: Seq<char>)
    ensures
        is_rooted_text(t) <==> t.len() > 0 && t[0] == '/',
{
    if t.len() > 0 {
        let b = encode_utf8(t);
        encode_utf8_first_scalar(t);
        let first = b[0];
        if first == 47u8 {
            assert(is_leading_byte_width_1(47u8));
            assert(leading_bits_width_1(47u8) == 47u32) by (bit_vector);
            assert(decode_first_scalar(b) == codepoint_width_1(47u8));
            assert(t[0] as u32 == 47u32);
            char_u32_cast(t[0], 47u32);
            char_u32_cast('/', 47u32);
        }
        if t[0] == '/' {
            assert(t[0] as u32 == 47u32);
            assert((47u32 & 0x7Fu32) as u8 == 47u8) by (bit_vector);
            assert(first == 47u8);
        }
    }
}

proof fn lemma_pick_values_push(s: Seq<Seq<char>>, t: Seq<char>)
    ensures
        pick_values(s.push(t), ignored_path()) == match ignored_path()(t) {
            Some(p) => pick_values(s, ignored_path()).push(p),
            None => pick_values(s, ignored_path()),
        },
        pick_values(s.push(t), ignored_name()) == match ignored_name()(t) {
            Some(n) => pick_values(s, ignored_name()).push(n),
            None => pick_values(s, ignored_name()),
        },
{
    assert(s.push(t).drop_last() =~= s);
}

impl SnapshotOptions {
    /// Makes options out of a command line. An item that starts at the root is a path below the
    /// directory of the snapshot; any other item is a name.
    pub fn from_items(ignore_items: Vec<String>, ignore_exts: Vec<String>) -> (r: Self)
        ensures
            asks_for(texts(ignore_items@), texts(ignore_exts@), r),
    {
        let mut ignore_paths: Vec<String> = Vec::new();
        let mut ignore_names: Vec<String> = Vec::new();
        let ghost all = texts(ignore_items@);
        assert(all.take(0) =~= seq![]);
        assert(texts(ignore_paths@) =~= pick_values(all.take(0), ignored_path()));
        assert(texts(ignore_names@) =~= pick_values(all.take(0), ignored_name()));
        for i in 0..ignore_items.len()
            invariant
                all == texts(ignore_items@),
                texts(ignore_paths@) == pick_values(all.take(i as int), ignored_path()),
                texts(ignore_names@) == pick_values(all.take(i as int), ignored_name()),
        {
            let item: &String = &ignore_items[i];
            proof {
                assert(all.take(i + 1) =~= all.take(i as int).push(item@));
                lemma_pick_values_push(all.take(i as int), item@);
                law_rooted_text_starts_with_slash(item@);
            }
            if has_root(item.as_str().as_bytes()) {
                let n: usize = item.as_str().unicode_len();
                let path: String = String::from_str(item.as_str().substring_char(1, n));
                proof {
                    assert(path@ =~= item@.skip(1));
                    lemma_texts_push(ignore_paths@, path);
                }
                ignore_paths.push(path);
            } else {
                let name: String = item.clone();
                proof {
                    lemma_texts_push(ignore_names@, name);
                }
                ignore_names.push(name);
            }
        }
        assert(all.take(all.len() as int) =~= all);
        SnapshotOptions { ignore_paths, ignore_names, ignore_exts }
    }
}

/// An item that starts at the root leaves out what lies at its path below the directory of the
/// snapshot, file or directory.
pub proof fn law_rooted_item_is_ignored(
    ignore_items: Seq<Seq<char>>,
    ignore_exts: Seq<Seq<char>>,
    o: SnapshotOptions,
    i: int,
    relative_path: Seq<u8>,
    is_file: bool,
)
    requires
        asks_for(ignore_items, ignore_exts, o),
        0 <= i < ignore_items.len(),
        ignore_items[i].len() > 0 && ignore_items[i][0] == '/',
        components(relative_path) == components(encode_utf8(ignore_items[i].skip(1))),
    ensures
        o.ignores(relative_path, is_file),
{
    let path = ignore_items[i].skip(1);
    law_rooted_text_starts_with_slash(ignore_items[i]);
    lemma_picked(ignore_items, ignored_path());
    assert(ignored_path()(ignore_items[i]) == Some(path));
    assert(texts(o.ignore_paths@).contains(path));
    let k = choose|k: int| 0 <= k < o.ignore_paths@.len() && texts(o.ignore_paths@)[k] == path;
    assert(o.ignore_paths@[k]@ == path);
    assert(lists_path(o.ignore_paths@, relative_path));
}

/// An item that does not start at the root leaves out what has its name, wherever it lies.
pub proof fn law_named_item_is_ignored(
    ignore_items: Seq<Seq<char>>,
    ignore_exts: Seq<Seq<char>>,
    o: SnapshotOptions,
    i: int,
    relative_path: Seq<u8>,
    is_file: bool,
)
    requires
        asks_for(ignore_items, ignore_exts, o),
        0 <= i < ignore_items.len(),
        !(ignore_items[i].len() > 0 && ignore_items[i][0] == '/'),
        file_name(relative_path) == Some(encode_utf8(ignore_items[i])),
    ensures
        o.ignores(relative_path, is_file),
{
    let name = ignore_items[i];
    law_rooted_text_starts_with_slash(name);
    lemma_picked(ignore_items, ignored_name());
    assert(ignored_name()(ignore_items[i]) == Some(name));
    assert(texts(o.ignore_names@).contains(name));
    let k = choose|k: int| 0 <= k < o.ignore_names@.len() && texts(o.ignore_names@)[k] == name;
    assert(o.ignore_names@[k]@ == name);
    assert(lists_bytes(o.ignore_names@, encode_utf8(name)));
}

/// Options made out of a command line are valid if no item starts with two separators, no name
/// holds one, and no extension holds a dot.
pub proof fn law_items_make_valid_options(
    ignore_items: Seq<Seq<char>>,
    ignore_exts: Seq<Seq<char>>,
    o: SnapshotOptions,
)
    requires
        asks_for(ignore_items, ignore_exts, o),
    ensures
        o.is_valid() <==> {
            &&& forall|i: int|
                0 <= i < ignore_items.len() ==> {
                    let item = #[trigger] ignore_items[i];
                    if is_rooted_text(item) {
                        !is_rooted_text(item.skip(1))
                    } else {
                        !has_separator(item)
                    }
                }
            &&& forall|i: int| 0 <= i < ignore_exts.len() ==> !(#[trigger] ignore_exts[i]).contains('.')
        },
{
    let paths = texts(o.ignore_paths@);
    let names = texts(o.ignore_names@);
    let exts = texts(o.ignore_exts@);
    lemma_picked(ignore_items, ignored_path());
    lemma_picked(ignore_items, ignored_name());
    if o.is_valid() {
        assert forall|i: int| 0 <= i < ignore_items.len() implies {
            let item = #[trigger] ignore_items[i];
            if is_rooted_text(item) {
                !is_rooted_text(item.skip(1))
            } else {
                !has_separator(item)
            }
        } by {
            let item = ignore_items[i];
            if is_rooted_text(item) {
                assert(ignored_path()(ignore_items[i]) == Some(item.skip(1)));
                assert(paths.contains(item.skip(1)));
                let k = choose|k: int| 0 <= k < paths.len() && paths[k] == item.skip(1);
                assert(!bad_path()(o.ignore_paths@[k]@));
            } else {
                assert(ignored_name()(ignore_items[i]) == Some(item));
                assert(names.contains(item));
                let k = choose|k: int| 0 <= k < names.len() && names[k] == item;
                assert(!bad_name()(o.ignore_names@[k]@));
            }
        }
        assert forall|i: int| 0 <= i < ignore_exts.len() implies !(#[trigger] ignore_exts[i]).contains(
            '.',
        ) by {
            assert(exts[i] == o.ignore_exts@[i]@);
            assert(!bad_ext()(o.ignore_exts@[i]@));
        }
    } else {
        if !none_bad(o.ignore_paths@, bad_path()) {
            let k = choose|k: int|
                0 <= k < o.ignore_paths@.len() && bad_path()((#[trigger] o.ignore_paths@[k])@);
            assert(paths[k] == o.ignore_paths@[k]@);
            assert(paths.contains(paths[k]));
            let i = choose|i: int|
                0 <= i < ignore_items.len() && ignored_path()(#[trigger] ignore_items[i]) == Some(
                    paths[k],
                );
            assert(is_rooted_text(ignore_items[i]) && is_rooted_text(ignore_items[i].skip(1)));
        } else if !none_bad(o.ignore_names@, bad_name()) {
            let k = choose|k: int|
                0 <= k < o.ignore_names@.len() && bad_name()((#[trigger] o.ignore_names@[k])@);
            assert(names[k] == o.ignore_names@[k]@);
            assert(names.contains(names[k]));
            let i = choose|i: int|
                0 <= i < ignore_items.len() && ignored_name()(#[trigger] ignore_items[i]) == Some(
                    names[k],
                );
            assert(!is_rooted_text(ignore_items[i]) && has_separator(ignore_items[i]));
        } else {
            let k = choose|k: int|
                0 <= k < o.ignore_exts@.len() && bad_ext()((#[trigger] o.ignore_exts@[k])@);
            assert(exts[k] == o.ignore_exts@[k]@);
            assert(ignore_exts[k].contains('.'));
        }
    }
}

/// A file with an extension that was asked for is left out.
pub proof fn law_asked_extension_is_ignored(
    ignore_items: Seq<Seq<char>>,
    ignore_exts: Seq<Seq<char>>,
    o: SnapshotOptions,
    i: int,
    relative_path: Seq<u8>,
)
    requires
        asks_for(ignore_items, ignore_exts, o),
        0 <= i < ignore_exts.len(),
        extension(relative_path) == Some(encode_utf8(ignore_exts[i])),
    ensures
        o.ignores(relative_path, true),
{
    assert(o.ignore_exts@[i]@ == texts(o.ignore_exts@)[i]);
    law_listed_extension_is_ignored(o, i, relative_path);
}

/// Nothing else is left out than what was asked for: what lies at the path of an item that starts
/// at the root, what has the name of another item, and files with one of the extensions.
pub proof fn law_only_what_was_asked_is_ignored(
    ignore_items: Seq<Seq<char>>,
    ignore_exts: Seq<Seq<char>>,
    o: SnapshotOptions,
    relative_path: Seq<u8>,
    is_file: bool,
)
    requires
        asks_for(ignore_items, ignore_exts, o),
        o.ignores(relative_path, is_file),
    ensures
        ({
            ||| exists|i: int|
                0 <= i < ignore_items.len() && (#[trigger] ignore_items[i]).len() > 0
                    && ignore_items[i][0] == '/' && components(
                    encode_utf8(ignore_items[i].skip(1)),
                ) == components(relative_path)
            ||| exists|i: int|
                0 <= i < ignore_items.len() && !((#[trigger] ignore_items[i]).len() > 0
                    && ignore_items[i][0] == '/') && Some(encode_utf8(ignore_items[i]))
                    == file_name(relative_path)
            ||| is_file && exists|i: int|
                0 <= i < ignore_exts.len() && Some(encode_utf8(#[trigger] ignore_exts[i]))
                    == extension(relative_path)
        }),
{
    law_only_listed_is_ignored(o, relative_path, is_file);
    lemma_picked(ignore_items, ignored_path());
    lemma_picked(ignore_items, ignored_name());
    let (paths, names, exts) = (
        texts(o.ignore_paths@),
        texts(o.ignore_names@),
        texts(o.ignore_exts@),
    );
    if exists|i: int|
        0 <= i < o.ignore_paths@.len() && components(encode_utf8((#[trigger] o.ignore_paths@[i])@))
            == components(relative_path) {
        let k = choose|k: int|
            0 <= k < o.ignore_paths@.len() && components(
                encode_utf8((#[trigger] o.ignore_paths@[k])@),
            ) == components(relative_path);
        assert(paths[k] == o.ignore_paths@[k]@);
        let i = choose|i: int|
            0 <= i < ignore_items.len() && ignored_path()(#[trigger] ignore_items[i]) == Some(
                paths[k],
            );
        law_rooted_text_starts_with_slash(ignore_items[i]);
        assert(ignore_items[i].skip(1) == paths[k]);
    } else if exists|i: int|
        0 <= i < o.ignore_names@.len() && Some(encode_utf8((#[trigger] o.ignore_names@[i])@))
            == file_name(relative_path) {
        let k = choose|k: int|
            0 <= k < o.ignore_names@.len() && Some(encode_utf8((#[trigger] o.ignore_names@[k])@))
                == file_name(relative_path);
        assert(names[k] == o.ignore_names@[k]@);
        let i = choose|i: int|
            0 <= i < ignore_items.len() && ignored_name()(#[trigger] ignore_items[i]) == Some(
                names[k],
            );
        law_rooted_text_starts_with_slash(ignore_items[i]);
        assert(ignore_items[i] == names[k]);
    } else {
        let k = choose|k: int|
            0 <= k < o.ignore_exts@.len() && Some(encode_utf8((#[trigger] o.ignore_exts@[k])@))
                == extension(relative_path);
        assert(exts[k] == o.ignore_exts@[k]@);
        assert(Some(encode_utf8(ignore_exts[k])) == extension(relative_path));
    }
}

} // verus!

//! The order of paths: that of their bytes, read from the left.
use vstd::prelude::*;
use vstd::utf8::{decode_utf8, encode_utf8};

verus! {

/// Whether one byte string comes before another: at the first difference it has the smaller
/// byte, or it ends there.
pub open spec fn lex_less(a: Seq<u8>, b: Seq<u8>) -> bool
    decreases b.len(),
{
    if b.len() == 0 {
        false
    } else if a.len() == 0 {
        true
    } else {
        a[0] < b[0] || (a[0] == b[0] && lex_less(a.skip(1), b.skip(1)))
    }
}

/// Whether one path comes before another.
pub open spec fn path_less(a: Seq<char>, b: Seq<char>) -> bool {
    lex_less(encode_utf8(a), encode_utf8(b))
}

proof fn lemma_lex_irreflexive(a: Seq<u8>)
    ensures
        !lex_less(a, a),
    decreases a.len(),
{
    if a.len() > 0 {
        lemma_lex_irreflexive(a.skip(1));
    }
}

proof fn lemma_lex_transitive(a: Seq<u8>, b: Seq<u8>, c: Seq<u8>)
    requires
        lex_less(a, b),
        lex_less(b, c),
    ensures
        lex_less(a, c),
    decreases a.len(),
{
    if a.len() > 0 && a[0] == b[0] && b[0] == c[0] {
        lemma_lex_transitive(a.skip(1), b.skip(1), c.skip(1));
    }
}

proof fn lemma_lex_total(a: Seq<u8>, b: Seq<u8>)
    ensures
        lex_less(a, b) || lex_less(b, a) || a == b,
    decreases a.len(),
{
    if a.len() > 0 && b.len() > 0 {
        if a[0] == b[0] {
            lemma_lex_total(a.skip(1), b.skip(1));
            if a.skip(1) == b.skip(1) {
                assert(a =~= seq![a[0]] + a.skip(1));
                assert(b =~= seq![b[0]] + b.skip(1));
            }
        }
    } else if a.len() == 0 && b.len() == 0 {
        assert(a =~= b);
    }
}

/// Where one byte string is the front of a longer one, it comes before it.
proof fn lemma_lex_front(a: Seq<u8>, rest: Seq<u8>)
    requires
        rest.len() > 0,
    ensures
        lex_less(a, a + rest),
    decreases a.len(),
{
    if a.len() > 0 {
        lemma_lex_front(a.skip(1), rest);
        assert((a + rest).skip(1) =~= a.skip(1) + rest);
    }
}

/// Paths with the same bytes are the same.
proof fn lemma_encode_injective(a: Seq<char>, b: Seq<char>)
    requires
        encode_utf8(a) == encode_utf8(b),
    ensures
        a == b,
{
    vstd::utf8::encode_utf8_decode_utf8(a);
    vstd::utf8::encode_utf8_decode_utf8(b);
}

proof fn lemma_encode_concat(a: Seq<char>, b: Seq<char>)
    ensures
        encode_utf8(a + b) == encode_utf8(a) + encode_utf8(b),
    decreases a.len(),
{
    if a.len() == 0 {
        assert(a + b =~= b);
        assert(encode_utf8(a) =~= seq![]);
        assert(encode_utf8(a) + encode_utf8(b) =~= encode_utf8(b));
    } else {
        assert((a + b).drop_first() =~= a.drop_first() + b);
        lemma_encode_concat(a.drop_first(), b);
        assert(encode_utf8(a + b) =~= encode_utf8(a) + encode_utf8(b));
    }
}

/// No path comes before itself.
pub proof fn law_path_order_irreflexive(a: Seq<char>)
    ensures
        !path_less(a, a),
{
    lemma_lex_irreflexive(encode_utf8(a));
}

/// The order of paths is transitive.
pub proof fn law_path_order_transitive(a: Seq<char>, b: Seq<char>, c: Seq<char>)
    requires
        path_less(a, b),
        path_less(b, c),
    ensures
        path_less(a, c),
{
    lemma_lex_transitive(encode_utf8(a), encode_utf8(b), encode_utf8(c));
}

/// Of two different paths one comes before the other.
pub proof fn law_path_order_total(a: Seq<char>, b: Seq<char>)
    ensures
        path_less(a, b) || path_less(b, a) || a == b,
{
    lemma_lex_total(encode_utf8(a), encode_utf8(b));
    if encode_utf8(a) == encode_utf8(b) {
        lemma_encode_injective(a, b);
    }
}

/// A directory comes before everything below it.
pub proof fn law_parent_before_child(parent: Seq<char>, below: Seq<char>)
    requires
        below.len() > 0,
    ensures
        path_less(parent, parent + below),
{
    lemma_encode_concat(parent, below);
    assert(encode_utf8(below).len() > 0) by {
        if encode_utf8(below).len() == 0 {
            vstd::utf8::encode_utf8_decode_utf8(below);
            assert(decode_utf8(encode_utf8(below)).len() == 0);
        }
    }
    lemma_lex_front(encode_utf8(parent), encode_utf8(below));
}

/// Whether one byte string comes before another.
fn bytes_less(a: &[u8], b: &[u8]) -> (r: bool)
    ensures
        r == lex_less(a@, b@),
{
    let mut i: usize = 0;
    assert(a@.skip(0) =~= a@);
    assert(b@.skip(0) =~= b@);
    while i < a.len() && i < b.len()
        invariant
            i <= a@.len(),
            i <= b@.len(),
            lex_less(a@, b@) == lex_less(a@.skip(i as int), b@.skip(i as int)),
        decreases a@.len() - i,
    {
        if a[i] < b[i] {
            return true;
        }
        if b[i] < a[i] {
            return false;
        }
        assert(a@.skip(i as int).skip(1) =~= a@.skip(i + 1));
        assert(b@.skip(i as int).skip(1) =~= b@.skip(i + 1));
        i += 1;
    }
    i < b.len()
}

/// Whether one path comes before another.
pub fn is_before(a: &str, b: &str) -> (r: bool)
    ensures
        r == path_less(a@, b@),
{
    bytes_less(a.as_bytes(), b.as_bytes())
}

/// The first difference decides: of two paths that agree in their first `k` bytes, the one with
/// the smaller next byte comes first, or the one that ends there.
pub proof fn law_first_difference_decides(a: Seq<char>, b: Seq<char>, k: int)
    requires
        ({
            let (x, y) = (encode_utf8(a), encode_utf8(b));
            &&& 0 <= k <= x.len()
            &&& k < y.len()
            &&& forall|i: int| 0 <= i < k ==> x[i] == y[i]
            &&& k == x.len() || x[k] < y[k]
        }),
    ensures
        path_less(a, b),
        !path_less(b, a),
{
    lemma_first_difference(encode_utf8(a), encode_utf8(b), k);
    if path_less(b, a) {
        lemma_lex_transitive(encode_utf8(a), encode_utf8(b), encode_utf8(a));
        lemma_lex_irreflexive(encode_utf8(a));
    }
}

proof fn lemma_first_difference(x: Seq<u8>, y: Seq<u8>, k: int)
    requires
        0 <= k <= x.len(),
        k < y.len(),
        forall|i: int| 0 <= i < k ==> x[i] == y[i],
        k == x.len() || x[k] < y[k],
    ensures
        lex_less(x, y),
    decreases k,
{
    if k > 0 {
        assert forall|i: int| 0 <= i < k - 1 implies x.skip(1)[i] == y.skip(1)[i] by {
            assert(x[i + 1] == y[i + 1]);
        }
        lemma_first_difference(x.skip(1), y.skip(1), k - 1);
    }
}

} // verus!

//! Numbers and bytes as text.
use vstd::prelude::*;
use vstd::utf8::{decode_utf8, valid_utf8};

verus! {

/// The digit that stands for a number below ten.
pub open spec fn digit(n: nat) -> char {
    if n == 0 {
        '0'
    } else if n == 1 {
        '1'
    } else if n == 2 {
        '2'
    } else if n == 3 {
        '3'
    } else if n == 4 {
        '4'
    } else if n == 5 {
        '5'
    } else if n == 6 {
        '6'
    } else if n == 7 {
        '7'
    } else if n == 8 {
        '8'
    } else {
        '9'
    }
}

/// A number in decimal notation, without leading zeros.
pub open spec fn decimal(n: nat) -> Seq<char>
    decreases n,
{
    if n < 10 {
        seq![digit(n)]
    } else {
        decimal(n / 10).push(digit(n % 10))
    }
}

/// A signed number in decimal notation.
pub open spec fn signed_decimal(n: int) -> Seq<char> {
    if n < 0 {
        "-"@ + decimal((-n) as nat)
    } else {
        decimal(n as nat)
    }
}

/// Writes one digit.
fn digit_text(n: u128) -> (r: &'static str)
    requires
        n < 10,
    ensures
        r@ == seq![digit(n as nat)],
{
    proof {
        reveal_strlit("0");
        reveal_strlit("1");
        reveal_strlit("2");
        reveal_strlit("3");
        reveal_strlit("4");
        reveal_strlit("5");
        reveal_strlit("6");
        reveal_strlit("7");
        reveal_strlit("8");
        reveal_strlit("9");
    }
    let r: &'static str = if n == 0 {
        "0"
    } else if n == 1 {
        "1"
    } else if n == 2 {
        "2"
    } else if n == 3 {
        "3"
    } else if n == 4 {
        "4"
    } else if n == 5 {
        "5"
    } else if n == 6 {
        "6"
    } else if n == 7 {
        "7"
    } else if n == 8 {
        "8"
    } else {
        "9"
    };
    assert(r@ =~= seq![digit(n as nat)]);
    r
}

/// Writes a number in decimal notation.
pub fn decimal_text(n: u128) -> (r: String)
    ensures
        r@ == decimal(n as nat),
    decreases n,
{
    if n < 10 {
        String::from_str(digit_text(n))
    } else {
        let mut r: String = decimal_text(n / 10);
        r.append(digit_text(n % 10));
        assert(r@ =~= decimal(n as nat));
        r
    }
}

/// Writes a signed number in decimal notation.
pub fn signed_decimal_text(n: i64) -> (r: String)
    ensures
        r@ == signed_decimal(n as int),
{
    if n < 0 {
        let mut r: String = String::from_str("-");
        let magnitude: u128 = (-(n as i128)) as u128;
        r.append(decimal_text(magnitude).as_str());
        r
    } else {
        decimal_text(n as u128)
    }
}

/// What `String::from_utf8_lossy` makes of bytes that need not be UTF-8.
pub uninterp spec fn utf8_lossy(bytes: Seq<u8>) -> Seq<char>;

/// Calls `String::from_utf8_lossy`. Its result is a function of the bytes; on bytes that are
/// UTF-8 it is the text that they encode. What it puts in place of other bytes is not said.
#[verifier::external_body]
pub(crate) fn lossy_text(bytes: &[u8]) -> (r: String)
    ensures
        r@ == utf8_lossy(bytes@),
        valid_utf8(bytes@) ==> r@ == decode_utf8(bytes@),
{
    String::from_utf8_lossy(bytes).into_owned()
}

/// Calls `std::str::from_utf8`, which gives the text that the bytes encode, or an error where
/// they are not UTF-8.
#[verifier::external_body]
pub(crate) fn utf8_text(bytes: &[u8]) -> (r: Option<String>)
    ensures
        r is Some <==> valid_utf8(bytes@),
        r is Some ==> r->0@ == decode_utf8(bytes@),
{
    std::str::from_utf8(bytes).ok().map(|s| s.to_string())
}

// ---------------------------------------------------------------------------------------------
// Laws
// ---------------------------------------------------------------------------------------------

/// The number that digits denote when they are read from the left.
pub open spec fn numeral(t: Seq<char>) -> int
    decreases t.len(),
{
    if t.len() == 0 {
        0
    } else {
        10 * numeral(t.drop_last()) + (t.last() as int - '0' as int)
    }
}

/// Whether a text is made of digits, and of one at least.
pub open spec fn is_numeral(t: Seq<char>) -> bool {
    &&& t.len() > 0
    &&& forall|k: int| 0 <= k < t.len() ==> '0' <= #[trigger] t[k] && t[k] <= '9'
}

/// A number that was written can be read again. Only zero begins with the digit zero.
pub proof fn law_decimal_denotes(n: nat)
    ensures
        is_numeral(decimal(n)),
        numeral(decimal(n)) == n,
        decimal(n)[0] == '0' ==> n == 0 && decimal(n).len() == 1,
    decreases n,
{
    reveal_with_fuel(numeral, 2);
    let t = decimal(n);
    if n < 10 {
        assert(t == seq![digit(n)]);
        assert(t.drop_last() =~= seq![]);
    } else {
        law_decimal_denotes(n / 10);
        let front = decimal(n / 10);
        assert(t.drop_last() =~= front);
        assert(t.last() == digit(n % 10));
        assert(t[0] == front[0]);
        assert forall|k: int| 0 <= k < t.len() implies '0' <= #[trigger] t[k] && t[k] <= '9' by {
            if k < front.len() {
                assert(t[k] == front[k]);
            }
        }
    }
}

/// Different numbers are written differently.
pub proof fn law_decimal_tells_apart(m: nat, n: nat)
    requires
        decimal(m) == decimal(n),
    ensures
        m == n,
{
    law_decimal_denotes(m);
    law_decimal_denotes(n);
}

/// A signed number that was written can be read again: only a negative one begins with a minus.
pub proof fn law_signed_decimal_denotes(n: int)
    ensures
        ({
            let t = signed_decimal(n);
            if n < 0 {
                t[0] == '-' && is_numeral(t.skip(1)) && numeral(t.skip(1)) == -n
            } else {
                is_numeral(t) && numeral(t) == n
            }
        }),
{
    reveal_strlit("-");
    if n < 0 {
        law_decimal_denotes((-n) as nat);
        assert(signed_decimal(n).skip(1) =~= decimal((-n) as nat));
    } else {
        law_decimal_denotes(n as nat);
    }
}

/// Whether a text is made of three: one that comes first, one in the middle and one that comes last.
pub open spec fn encloses(t: Seq<char>, first: Seq<char>, middle: Seq<char>, last: Seq<char>) -> bool {
    &&& t.len() == first.len() + middle.len() + last.len()
    &&& t.take(first.len() as int) == first
    &&& t.subrange(first.len() as int, (first.len() + middle.len()) as int) == middle
    &&& t.skip((first.len() + middle.len()) as int) == last
}

/// Three texts, one after the other, are told apart again.
pub proof fn lemma_encloses(first: Seq<char>, middle: Seq<char>, last: Seq<char>)
    ensures
        encloses(first + middle + last, first, middle, last),
{
    let t = first + middle + last;
    assert(t.take(first.len() as int) =~= first);
    assert(t.subrange(first.len() as int, (first.len() + middle.len()) as int) =~= middle);
    assert(t.skip((first.len() + middle.len()) as int) =~= last);
}

} // verus!

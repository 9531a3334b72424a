//! Decimal numerals, ASCII case folding and UTF-8 conversion.

use vstd::prelude::*;
use vstd::utf8::*;

verus! {

broadcast use vstd::seq::group_seq_axioms;

/// An ASCII decimal digit.
pub open spec fn is_digit(b: u8) -> bool {
    48 <= b <= 57
}

pub open spec fn all_digits(s: Seq<u8>) -> bool {
    forall|i: int| 0 <= i < s.len() ==> is_digit(#[trigger] s[i])
}

/// The number that a string of ASCII digits denotes (most significant first).
pub open spec fn digits_value(s: Seq<u8>) -> nat
    decreases s.len(),
{
    if s.len() == 0 {
        0
    } else {
        digits_value(s.drop_last()) * 10 + (s.last() - 48) as nat
    }
}

/// The canonical decimal numeral of `n`: no sign, no leading zeros.
pub open spec fn decimal(n: nat) -> Seq<u8>
    decreases n,
{
    if n < 10 {
        seq![(n + 48) as u8]
    } else {
        decimal(n / 10).push((n % 10 + 48) as u8)
    }
}

/// The numeral of `n` as characters.
pub open spec fn decimal_chars(n: nat) -> Seq<char> {
    decimal(n).map_values(|b: u8| b as char)
}

pub proof fn lemma_decimal(n: nat)
    ensures
        decimal(n).len() >= 1,
        all_digits(decimal(n)),
        digits_value(decimal(n)) == n,
    decreases n,
{
    if n >= 10 {
        lemma_decimal(n / 10);
        let d = decimal(n);
        assert(d.drop_last() =~= decimal(n / 10));
        assert(d.last() == (n % 10 + 48) as u8);
        assert(n == (n / 10) * 10 + n % 10);
        assert(digits_value(d) == digits_value(d.drop_last()) * 10 + (d.last() - 48) as nat);
        assert(digits_value(d) == n);
    } else {
        let d = decimal(n);
        assert(d.drop_last() =~= Seq::<u8>::empty());
        assert(digits_value(d.drop_last()) == 0);
        assert(d.last() == (n + 48) as u8);
        assert(digits_value(d) == n);
    }
}

/// Appends the decimal numeral of `n` to `out`.
pub fn push_decimal(out: &mut Vec<u8>, n: u64)
    ensures
        final(out)@ == old(out)@ + decimal(n as nat),
    decreases n,
{
    if n >= 10 {
        push_decimal(out, n / 10);
    }
    let d: u8 = (n % 10) as u8;
    out.push(d + 48);
    assert(final(out)@ =~= old(out)@ + decimal(n as nat));
}

/// `b` is a sequence of ASCII bytes.
pub open spec fn all_ascii(b: Seq<u8>) -> bool {
    forall|i: int| 0 <= i < b.len() ==> #[trigger] b[i] < 128
}

/// ASCII bytes are valid UTF-8 and stand for the characters of the same code.
pub proof fn lemma_ascii_utf8(b: Seq<u8>)
    requires
        all_ascii(b),
    ensures
        valid_utf8(b),
        decode_utf8(b) == b.map_values(|x: u8| x as char),
        encode_utf8(b.map_values(|x: u8| x as char)) == b,
{
    let c = b.map_values(|x: u8| x as char);
    assert(is_ascii_chars(c));
    is_ascii_chars_encode_utf8(c);
    assert(encode_utf8(c) =~= b);
    encode_utf8_valid_utf8(c);
    encode_utf8_decode_utf8(c);
}

/// Relies on `String::from_utf8`: it accepts exactly the byte strings that are
/// valid UTF-8, and then holds the characters that they encode.
#[verifier::external_body]
pub(crate) fn utf8_to_string(bytes: Vec<u8>) -> (r: Option<String>)
    ensures
        r is Some <==> valid_utf8(bytes@),
        r matches Some(s) ==> s@ == decode_utf8(bytes@),
{
    String::from_utf8(bytes).ok()
}

/// The decimal numeral of `n` as a `String`.
pub fn decimal_string(n: u64) -> (r: String)
    ensures
        r@ == decimal_chars(n as nat),
{
    let mut digits: Vec<u8> = Vec::new();
    push_decimal(&mut digits, n);
    proof {
        assert(digits@ =~= decimal(n as nat));
        lemma_decimal(n as nat);
        assert(all_ascii(digits@));
        lemma_ascii_utf8(digits@);
    }
    match utf8_to_string(digits) {
        Some(s) => s,
        None => String::new(),
    }
}

/// ASCII upper case letters to lower case; every other character unchanged.
pub open spec fn fold_char(c: char) -> char {
    if 'A' <= c <= 'Z' {
        ((c as u32) + 32) as char
    } else {
        c
    }
}

/// `t` equals the lower-case word `w` when ASCII case is ignored.
pub open spec fn same_word(t: Seq<char>, w: Seq<char>) -> bool {
    &&& t.len() == w.len()
    &&& forall|i: int| 0 <= i < t.len() ==> fold_char(#[trigger] t[i]) == w[i]
}

/// Compares `t` with the lower-case word `w`, ignoring ASCII case in `t`.
pub fn is_word(t: &str, w: &str) -> (r: bool)
    ensures
        r == same_word(t@, w@),
{
    let n = t.unicode_len();
    if n != w.unicode_len() {
        return false;
    }
    let mut i: usize = 0;
    while i < n
        invariant
            n == t@.len(),
            n == w@.len(),
            i <= n,
            forall|j: int| 0 <= j < i ==> fold_char(#[trigger] t@[j]) == w@[j],
        decreases n - i,
    {
        let c = t.get_char(i);
        let wc = w.get_char(i);
        let same = if 'A' <= c && c <= 'Z' {
            (c as u32) + 32 == (wc as u32)
        } else {
            c == wc
        };
        if !same {
            return false;
        }
        i = i + 1;
    }
    true
}

/// The number that `s` spells in decimal digits, if it is a non-empty run of
/// digits whose value fits in a `u64`.
pub open spec fn numeral_value(s: Seq<char>) -> Option<u64> {
    let b = s.map_values(|c: char| c as u8);
    if s.len() > 0 && (forall|i: int| 0 <= i < s.len() ==> '0' <= #[trigger] s[i] <= '9')
        && digits_value(b) <= u64::MAX {
        Some(digits_value(b) as u64)
    } else {
        None
    }
}

/// Reads `s` as a decimal number (see `numeral_value`).
pub fn parse_u64(s: &str) -> (r: Option<u64>)
    ensures
        r == numeral_value(s@),
{
    let n = s.unicode_len();
    if n == 0 {
        return None;
    }
    let ghost b = s@.map_values(|c: char| c as u8);
    let mut value: u64 = 0;
    let mut i: usize = 0;
    while i < n
        invariant
            n == s@.len(),
            b == s@.map_values(|c: char| c as u8),
            i <= n,
            forall|j: int| 0 <= j < i ==> '0' <= #[trigger] s@[j] <= '9',
            value == digits_value(b.subrange(0, i as int)),
        decreases n - i,
    {
        let c = s.get_char(i);
        if c < '0' || c > '9' {
            return None;
        }
        let d = ((c as u32) - 48) as u64;
        proof {
            assert(b.subrange(0, i + 1).drop_last() =~= b.subrange(0, i as int));
            assert(b.subrange(0, i + 1).last() == c as u8);
        }
        if value > (u64::MAX - d) / 10 {
            proof {
                assert(value * 10 + d > u64::MAX) by (nonlinear_arith)
                    requires
                        value > (u64::MAX - d) / 10,
                        d <= 9,
                ;
                if forall|j: int| 0 <= j < n ==> '0' <= #[trigger] s@[j] <= '9' {
                    assert(all_digits(b));
                    lemma_digits_value_grows(b, (i + 1) as nat);
                }
            }
            return None;
        }
        value = value * 10 + d;
        i = i + 1;
    }
    proof {
        assert(b.subrange(0, n as int) =~= b);
    }
    Some(value)
}

/// Extending a digit string never lowers its value.
pub proof fn lemma_digits_value_grows(b: Seq<u8>, k: nat)
    requires
        k <= b.len(),
        all_digits(b),
    ensures
        digits_value(b.subrange(0, k as int)) <= digits_value(b),
    decreases b.len() - k,
{
    if k < b.len() {
        lemma_digits_value_grows(b, k + 1);
        assert(b.subrange(0, k + 1 as int).drop_last() =~= b.subrange(0, k as int));
    } else {
        assert(b.subrange(0, k as int) =~= b);
    }
}

/// Compares two texts character by character.
pub fn same_text(a: &str, b: &str) -> (r: bool)
    ensures
        r == (a@ == b@),
{
    let n = a.unicode_len();
    if n != b.unicode_len() {
        return false;
    }
    let mut i: usize = 0;
    while i < n
        invariant
            n == a@.len(),
            n == b@.len(),
            i <= n,
            forall|j: int| 0 <= j < i ==> #[trigger] a@[j] == b@[j],
        decreases n - i,
    {
        if a.get_char(i) != b.get_char(i) {
            return false;
        }
        i = i + 1;
    }
    assert(a@ =~= b@);
    true
}

} // verus!

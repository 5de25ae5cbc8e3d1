//! Decimal rendering and parsing of 64-bit integers.
//!
//! The index store keeps every number it persists (the inode counter and the
//! child-inode lists) as ASCII decimal text, so both directions are verified:
//! rendering produces exactly the digit sequence of the number, and parsing
//! is proved to be its inverse.

use vstd::prelude::*;

verus! {

/// The character for one decimal digit value.
pub open spec fn digit_char(d: u64) -> char {
    if d == 0 {
        '0'
    } else if d == 1 {
        '1'
    } else if d == 2 {
        '2'
    } else if d == 3 {
        '3'
    } else if d == 4 {
        '4'
    } else if d == 5 {
        '5'
    } else if d == 6 {
        '6'
    } else if d == 7 {
        '7'
    } else if d == 8 {
        '8'
    } else {
        '9'
    }
}

/// The decimal digits of `n`, most significant first.
pub open spec fn dec_chars(n: u64) -> Seq<char>
    decreases n,
{
    if n < 10 {
        seq![digit_char(n)]
    } else {
        dec_chars(n / 10).push(digit_char(n % 10))
    }
}

/// The ASCII bytes of a sequence of ASCII characters.
pub open spec fn ascii_of(s: Seq<char>) -> Seq<u8> {
    Seq::new(s.len(), |i: int| s[i] as u8)
}

/// The decimal byte string of `n`: its digits as ASCII bytes.
pub open spec fn dec_bytes(n: u64) -> Seq<u8> {
    ascii_of(dec_chars(n))
}

/// Whether `b` is an ASCII decimal digit.
pub open spec fn is_dec_byte(b: u8) -> bool {
    48 <= b <= 57
}

/// The numeric value of a digit byte string, most significant first.
pub open spec fn dec_value(s: Seq<u8>) -> nat
    decreases s.len(),
{
    if s.len() == 0 {
        0
    } else {
        (dec_value(s.drop_last()) * 10 + (s.last() - 48)) as nat
    }
}

/// What parsing a byte string as a decimal `u64` yields: the value of a
/// non-empty, all-digit string that fits in 64 bits, and nothing otherwise.
pub open spec fn spec_parse_u64(s: Seq<u8>) -> Option<u64> {
    if s.len() > 0 && (forall|i: int| 0 <= i < s.len() ==> is_dec_byte(s[i])) && dec_value(s)
        <= u64::MAX {
        Some(dec_value(s) as u64)
    } else {
        None
    }
}

/// The string slice for one decimal digit value.
fn digit_str(d: u64) -> (r: &'static str)
    requires
        d < 10,
    ensures
        r@ == seq![digit_char(d)],
        r@.len() == 1,
{
    proof {
        reveal_strlit("0");
        reveal_strlit("1");
        reveal_strlit("2");
        reveal_strlit("3");
        reveal_strlit("4");
        reveal_strlit("5");
        reveal_strlit("6");
        reveal_strlit("7");
        reveal_strlit("8");
        reveal_strlit("9");
    }
    if d == 0 {
        "0"
    } else if d == 1 {
        "1"
    } else if d == 2 {
        "2"
    } else if d == 3 {
        "3"
    } else if d == 4 {
        "4"
    } else if d == 5 {
        "5"
    } else if d == 6 {
        "6"
    } else if d == 7 {
        "7"
    } else if d == 8 {
        "8"
    } else {
        "9"
    }
}

/// Renders `n` as its decimal digit string.
pub fn u64_to_string(n: u64) -> (s: String)
    ensures
        s@ == dec_chars(n),
    decreases n,
{
    if n < 10 {
        String::from_str(digit_str(n))
    } else {
        let mut s = u64_to_string(n / 10);
        s.append(digit_str(n % 10));
        s
    }
}

/// Every decimal digit string consists of the characters `'0'` through `'9'`.
pub proof fn lemma_dec_chars_digits(n: u64)
    ensures
        dec_chars(n).len() >= 1,
        forall|i: int| 0 <= i < dec_chars(n).len() ==> '0' <= #[trigger] dec_chars(n)[i] <= '9',
    decreases n,
{
    if n >= 10 {
        lemma_dec_chars_digits(n / 10);
        assert forall|i: int| 0 <= i < dec_chars(n).len() implies '0' <= #[trigger] dec_chars(
            n,
        )[i] <= '9' by {
            if i < dec_chars(n / 10).len() {
                assert(dec_chars(n)[i] == dec_chars(n / 10)[i]);
            }
        }
    }
}

/// Decimal digit strings are ASCII.
pub proof fn lemma_dec_chars_ascii(n: u64)
    ensures
        vstd::utf8::is_ascii_chars(dec_chars(n)),
{
    lemma_dec_chars_digits(n);
    assert forall|i: int| 0 <= i < dec_chars(n).len() implies '\0' <= #[trigger] dec_chars(n)[i]
        <= '\u{7f}' by {
        assert('0' <= dec_chars(n)[i] <= '9');
    }
}

/// The UTF-8 encoding of a decimal digit string is its ASCII bytes.
pub proof fn lemma_dec_bytes_utf8(n: u64)
    ensures
        vstd::utf8::encode_utf8(dec_chars(n)) == dec_bytes(n),
{
    lemma_dec_chars_ascii(n);
    vstd::utf8::is_ascii_chars_encode_utf8(dec_chars(n));
    assert(vstd::utf8::encode_utf8(dec_chars(n)) =~= dec_bytes(n));
}

/// Appending one digit multiplies the value by ten and adds the digit.
proof fn lemma_dec_value_push(s: Seq<u8>, b: u8)
    requires
        48 <= b <= 57,
    ensures
        dec_value(s.push(b)) == dec_value(s) * 10 + (b - 48),
{
    assert(s.push(b).drop_last() =~= s);
    assert(s.push(b).last() == b);
}

/// Parsing the rendered digits of `n` gives back `n`.
pub proof fn lemma_dec_round_trip(n: u64)
    ensures
        spec_parse_u64(dec_bytes(n)) == Some(n),
    decreases n,
{
    lemma_dec_chars_digits(n);
    assert forall|i: int| 0 <= i < dec_bytes(n).len() implies is_dec_byte(
        #[trigger] dec_bytes(n)[i],
    ) by {
        assert('0' <= dec_chars(n)[i] <= '9');
    }
    if n < 10 {
        let s = dec_bytes(n);
        assert(s =~= seq![(48 + n) as u8]);
        assert(s.drop_last() =~= Seq::<u8>::empty());
        assert(dec_value(s.drop_last()) == 0);
        assert(dec_value(s) == n);
    } else {
        lemma_dec_round_trip(n / 10);
        let prefix = dec_bytes(n / 10);
        let whole = dec_bytes(n);
        assert(whole =~= prefix.push((48 + n % 10) as u8));
        lemma_dec_value_push(prefix, (48 + n % 10) as u8);
        assert(dec_value(prefix) == n / 10);
        assert(dec_value(whole) == (n / 10) * 10 + n % 10);
        assert((n / 10) * 10 + n % 10 == n) by (nonlinear_arith);
    }
}

/// A digit string's value only grows when more digits follow.
proof fn lemma_dec_value_prefix_le(s: Seq<u8>, j: int)
    requires
        0 <= j <= s.len(),
        forall|i: int| 0 <= i < s.len() ==> is_dec_byte(#[trigger] s[i]),
    ensures
        dec_value(s.subrange(0, j)) <= dec_value(s),
    decreases s.len() - j,
{
    if j < s.len() {
        let t = s.subrange(0, j + 1);
        assert(t.drop_last() =~= s.subrange(0, j));
        assert(t.last() == s[j]);
        assert(is_dec_byte(s[j]));
        let v = dec_value(s.subrange(0, j));
        assert(v * 10 >= v) by (nonlinear_arith)
            requires
                v >= 0,
        ;
        assert(dec_value(t) >= dec_value(s.subrange(0, j)));
        lemma_dec_value_prefix_le(s, j + 1);
        assert(s.subrange(0, s.len() as int) =~= s);
    } else {
        assert(s.subrange(0, j) =~= s);
    }
}

/// Parses an ASCII decimal byte string as a `u64`.
pub fn parse_u64_bytes(v: &[u8]) -> (r: Option<u64>)
    ensures
        r == spec_parse_u64(v@),
{
    if v.len() == 0 {
        return None;
    }
    let mut acc: u64 = 0;
    let mut i: usize = 0;
    while i < v.len()
        invariant
            0 <= i <= v@.len(),
            forall|k: int| 0 <= k < i ==> is_dec_byte(v@[k]),
            acc == dec_value(v@.subrange(0, i as int)),
        decreases v@.len() - i,
    {
        let b = v[i];
        if b < 48 || b > 57 {
            assert(!is_dec_byte(v@[i as int]));
            return None;
        }
        let wide: u128 = acc as u128 * 10 + (b - 48) as u128;
        proof {
            lemma_dec_value_push(v@.subrange(0, i as int), b);
            assert(v@.subrange(0, i as int).push(b) =~= v@.subrange(0, i + 1));
        }
        if wide > u64::MAX as u128 {
            proof {
                if forall|k: int| 0 <= k < v@.len() ==> is_dec_byte(#[trigger] v@[k]) {
                    lemma_dec_value_prefix_le(v@, i + 1);
                }
            }
            return None;
        }
        acc = wide as u64;
        i = i + 1;
    }
    proof {
        assert(v@.subrange(0, i as int) =~= v@);
    }
    Some(acc)
}

} // verus!

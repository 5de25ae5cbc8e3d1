//! The self-describing textual record format for indexed entries.
//!
//! Every value stored in a `tar::` subtree is one encoded [`File`] record.
//! Fields stand in a fixed order, numbers as ASCII decimals separated by
//! spaces, the two strings length-prefixed as UTF-8 bytes. Decoding is
//! specified as a function of the bytes alone, so each stored value parses
//! independently, and decoding an encoded record is proved to give the
//! record back.

use vstd::prelude::*;
use crate::entry::{File, FileV};
use crate::numbers::{
    dec_bytes, dec_chars, dec_value, is_dec_byte, lemma_dec_chars_ascii, lemma_dec_chars_digits,
    lemma_dec_round_trip, parse_u64_bytes, spec_parse_u64, u64_to_string,
};
use vstd::utf8::{decode_utf8, encode_utf8, valid_utf8, is_ascii_chars};
use vstd::slice::{slice_subrange, slice_to_vec};

verus! {

/// Converts a byte vector to the string it UTF-8 encodes.
///
/// Relies on `String::from_utf8`: it succeeds exactly on valid UTF-8 and
/// returns the string whose encoding is the input.
#[verifier::external_body]
pub fn bytes_to_string(v: Vec<u8>) -> (r: Option<String>)
    ensures
        match r {
            Some(s) => valid_utf8(v@) && s@ == decode_utf8(v@),
            None => !valid_utf8(v@),
        },
{
    match String::from_utf8(v) {
        Ok(s) => Some(s),
        Err(_) => None,
    }
}

/// How many decimal digit bytes stand at position `i` of `v`.
pub open spec fn digit_run_len(v: Seq<u8>, i: int) -> int
    decreases v.len() - i when 0 <= i <= v.len()
{
    if 0 <= i < v.len() && is_dec_byte(v[i]) {
        1 + digit_run_len(v, i + 1)
    } else {
        0
    }
}

/// Parses the decimal number at position `i` of `v`: its value and the
/// position after its digits; nothing when no digit stands at `i` or the
/// value exceeds `u64::MAX`.
pub open spec fn parse_num(v: Seq<u8>, i: int) -> Option<(u64, int)> {
    let l = digit_run_len(v, i);
    if l == 0 {
        None
    } else {
        let s = v.subrange(i, i + l);
        if dec_value(s) <= u64::MAX {
            Some((dec_value(s) as u64, i + l))
        } else {
            None
        }
    }
}

/// Consumes the byte `b` at position `i` of `v`.
pub open spec fn expect_byte(v: Seq<u8>, i: int, b: u8) -> Option<int> {
    if 0 <= i < v.len() && v[i] == b {
        Some(i + 1)
    } else {
        None
    }
}

/// The encoded bytes of one indexed-entry record.
pub open spec fn spec_encode(f: FileV) -> Seq<u8> {
    let name = encode_utf8(f.file_name);
    let path = encode_utf8(f.full_path);
    dec_bytes(f.size) + seq![32u8] + dec_bytes(f.mtime) + seq![32u8] + dec_bytes(
        f.level_path as u64,
    ) + seq![32u8] + seq![if f.is_file { 49u8 } else { 48u8 }] + seq![32u8] + dec_bytes(f.ino)
        + seq![32u8] + dec_bytes(name.len() as u64) + seq![58u8] + name + dec_bytes(
        path.len() as u64,
    ) + seq![58u8] + path
}

/// What decoding a stored value yields, as a function of its bytes.
pub open spec fn spec_decode(v: Seq<u8>) -> Option<FileV> {
    match parse_num(v, 0) {
        None => None,
        Some((size, i)) => match expect_byte(v, i, 32) {
            None => None,
            Some(i) => match parse_num(v, i) {
                None => None,
                Some((mtime, i)) => match expect_byte(v, i, 32) {
                    None => None,
                    Some(i) => match parse_num(v, i) {
                        None => None,
                        Some((level, i)) => if level > usize::MAX as u64 {
                            None
                        } else {
                            match expect_byte(v, i, 32) {
                                None => None,
                                Some(i) => if !(0 <= i < v.len() && (v[i] == 48 || v[i] == 49)) {
                                    None
                                } else {
                                    let is_file = v[i] == 49;
                                    match expect_byte(v, i + 1, 32) {
                                        None => None,
                                        Some(i) => match parse_num(v, i) {
                                            None => None,
                                            Some((ino, i)) => spec_decode_tail(
                                                v,
                                                i,
                                                size,
                                                mtime,
                                                level,
                                                is_file,
                                                ino,
                                            ),
                                        },
                                    }
                                },
                            }
                        },
                    },
                },
            },
        },
    }
}

/// Decodes the two length-prefixed strings that end a record.
pub open spec fn spec_decode_tail(
    v: Seq<u8>,
    i: int,
    size: u64,
    mtime: u64,
    level: u64,
    is_file: bool,
    ino: u64,
) -> Option<FileV> {
    match expect_byte(v, i, 32) {
        None => None,
        Some(i) => spec_decode_strings(v, i, size, mtime, level, is_file, ino),
    }
}

/// Decodes the two length-prefixed strings once their separator is consumed.
pub open spec fn spec_decode_strings(
    v: Seq<u8>,
    i: int,
    size: u64,
    mtime: u64,
    level: u64,
    is_file: bool,
    ino: u64,
) -> Option<FileV> {
    match parse_num(v, i) {
        None => None,
        Some((nlen, i)) => match expect_byte(v, i, 58) {
            None => None,
            Some(i) => if i + nlen > v.len() {
                None
            } else {
                let name_bytes = v.subrange(i, i + nlen);
                if !valid_utf8(name_bytes) {
                    None
                } else {
                    match parse_num(v, i + nlen) {
                        None => None,
                        Some((plen, i)) => match expect_byte(v, i, 58) {
                            None => None,
                            Some(i) => if i + plen != v.len() {
                                None
                            } else {
                                let path_bytes = v.subrange(i, i + plen);
                                if !valid_utf8(path_bytes) {
                                    None
                                } else {
                                    Some(
                                        FileV {
                                            size,
                                            mtime,
                                            file_name: decode_utf8(name_bytes),
                                            full_path: decode_utf8(path_bytes),
                                            is_file,
                                            level_path: level as usize,
                                            ino,
                                        },
                                    )
                                }
                            },
                        },
                    }
                }
            },
        },
    }
}

/// Renders `n` as its decimal digit bytes.
pub fn u64_dec_vec(n: u64) -> (v: Vec<u8>)
    ensures
        v@ == dec_bytes(n),
{
    let s = u64_to_string(n);
    let sl = s.as_str();
    let v = sl.as_bytes_vec();
    proof {
        lemma_dec_chars_ascii(n);
        vstd::string::is_ascii_spec_bytes(sl);
        assert(v@ =~= dec_bytes(n));
    }
    v
}

/// The digit run at a position is exactly `k` bytes long when `k` digits
/// stand there followed by the string's end or a non-digit.
proof fn lemma_digit_run(v: Seq<u8>, i: int, k: int)
    requires
        0 <= i,
        0 <= k,
        i + k <= v.len(),
        forall|t: int| i <= t < i + k ==> is_dec_byte(#[trigger] v[t]),
        i + k == v.len() || !is_dec_byte(v[i + k]),
    ensures
        digit_run_len(v, i) == k,
    decreases k,
{
    if k == 0 {
    } else {
        assert(is_dec_byte(v[i]));
        lemma_digit_run(v, i + 1, k - 1);
    }
}

/// Parsing at a position where the digits of `n` stand, delimited on the
/// right, yields `n` and the position after the digits.
proof fn lemma_parse_num_at(v: Seq<u8>, i: int, n: u64)
    requires
        0 <= i,
        i + dec_bytes(n).len() <= v.len(),
        v.subrange(i, i + dec_bytes(n).len() as int) == dec_bytes(n),
        i + dec_bytes(n).len() == v.len() || !is_dec_byte(v[i + dec_bytes(n).len()]),
    ensures
        parse_num(v, i) == Some((n, i + dec_bytes(n).len() as int)),
{
    let d = dec_bytes(n);
    lemma_dec_chars_digits(n);
    lemma_dec_round_trip(n);
    assert(forall|t: int| 0 <= t < d.len() ==> is_dec_byte(#[trigger] d[t]));
    assert forall|t: int| i <= t < i + d.len() implies is_dec_byte(#[trigger] v[t]) by {
        assert(v[t] == d[t - i]);
    }
    lemma_digit_run(v, i, d.len() as int);
    assert(v.subrange(i, i + d.len()) == d);
    assert(spec_parse_u64(d) == Some(n));
    assert(dec_value(d) == n);
}

/// Parses the decimal number at position `i` of `v`.
fn parse_run(v: &[u8], i: usize) -> (r: Option<(u64, usize)>)
    requires
        i <= v@.len(),
    ensures
        match r {
            Some((n, j)) => parse_num(v@, i as int) == Some((n, j as int)),
            None => parse_num(v@, i as int) is None,
        },
{
    let mut j: usize = i;
    while j < v.len() && 48 <= v[j] && v[j] <= 57
        invariant
            i <= j <= v@.len(),
            forall|t: int| i <= t < j ==> is_dec_byte(#[trigger] v@[t]),
            digit_run_len(v@, i as int) == (j - i) + digit_run_len(v@, j as int),
        decreases v@.len() - j,
    {
        j = j + 1;
    }
    proof {
        assert(digit_run_len(v@, j as int) == 0);
        assert(digit_run_len(v@, i as int) == j - i);
    }
    if j == i {
        return None;
    }
    let sub = slice_subrange(v, i, j);
    match parse_u64_bytes(sub) {
        Some(n) => Some((n, j)),
        None => {
            proof {
                assert(sub@.len() > 0);
                assert(forall|t: int| 0 <= t < sub@.len() ==> is_dec_byte(#[trigger] sub@[t]));
                assert(dec_value(sub@) > u64::MAX);
            }
            None
        },
    }
}

/// Encodes one indexed-entry record; the result decodes back to the record.
pub fn encode_entry(f: &File) -> (v: Vec<u8>)
    ensures
        v@ == spec_encode(f@),
        spec_decode(v@) == Some(f@),
{
    let mut out = u64_dec_vec(f.size);
    out.push(32);
    let mut t = u64_dec_vec(f.mtime);
    out.append(&mut t);
    out.push(32);
    let mut t = u64_dec_vec(f.level_path as u64);
    out.append(&mut t);
    out.push(32);
    out.push(if f.is_file { 49 } else { 48 });
    out.push(32);
    let mut t = u64_dec_vec(f.ino);
    out.append(&mut t);
    out.push(32);
    let name = f.file_name.as_str().as_bytes_vec();
    let mut t = u64_dec_vec(name.len() as u64);
    out.append(&mut t);
    out.push(58);
    let mut nb = name;
    out.append(&mut nb);
    let path = f.full_path.as_str().as_bytes_vec();
    let mut t = u64_dec_vec(path.len() as u64);
    out.append(&mut t);
    out.push(58);
    let mut pb = path;
    out.append(&mut pb);
    proof {
        assert(out@ =~= spec_encode(f@));
        lemma_codec_round_trip(f@);
    }
    out
}

/// Decoding an encoded record gives the record back, for any record whose
/// strings encode to at most `u64::MAX` bytes.
#[verifier::rlimit(100)]
#[verifier::spinoff_prover]
pub proof fn lemma_codec_round_trip(f: FileV)
    requires
        encode_utf8(f.file_name).len() <= u64::MAX,
        encode_utf8(f.full_path).len() <= u64::MAX,
    ensures
        spec_decode(spec_encode(f)) == Some(f),
{
    broadcast use vstd::utf8::encode_utf8_valid_utf8;
    broadcast use vstd::utf8::encode_utf8_decode_utf8;

    let name = encode_utf8(f.file_name);
    let path = encode_utf8(f.full_path);
    let v = spec_encode(f);
    let d0 = dec_bytes(f.size);
    let d1 = dec_bytes(f.mtime);
    let d2 = dec_bytes(f.level_path as u64);
    let d3 = dec_bytes(f.ino);
    let d4 = dec_bytes(name.len() as u64);
    let d5 = dec_bytes(path.len() as u64);
    lemma_dec_chars_digits(f.size);
    lemma_dec_chars_digits(f.mtime);
    lemma_dec_chars_digits(f.level_path as u64);
    lemma_dec_chars_digits(f.ino);
    lemma_dec_chars_digits(name.len() as u64);
    lemma_dec_chars_digits(path.len() as u64);
    let o0 = d0.len() as int;
    let o1 = o0 + 1 + d1.len();
    let o2 = o1 + 1 + d2.len();
    let o3 = o2 + 1 + 1;
    let o4 = o3 + 1 + d3.len();
    let o5 = o4 + 1 + d4.len();
    let o6 = o5 + 1 + name.len();
    let o7 = o6 + d5.len();
    let o8 = o7 + 1 + path.len();
    assert(v.len() == o8);
    assert(v.subrange(0, o0) =~= d0);
    assert(v[o0] == 32);
    lemma_parse_num_at(v, 0, f.size);
    assert(v.subrange(o0 + 1, o0 + 1 + d1.len()) =~= d1);
    assert(v[o1] == 32);
    lemma_parse_num_at(v, o0 + 1, f.mtime);
    assert(v.subrange(o1 + 1, o1 + 1 + d2.len()) =~= d2);
    assert(v[o2] == 32);
    lemma_parse_num_at(v, o1 + 1, f.level_path as u64);
    assert(v[o2 + 1] == (if f.is_file { 49u8 } else { 48u8 }));
    assert(v[o3] == 32);
    assert(v.subrange(o3 + 1, o3 + 1 + d3.len()) =~= d3);
    assert(v[o4] == 32);
    lemma_parse_num_at(v, o3 + 1, f.ino);
    assert(v.subrange(o4 + 1, o4 + 1 + d4.len()) =~= d4);
    assert(v[o5] == 58);
    lemma_parse_num_at(v, o4 + 1, name.len() as u64);
    assert(v.subrange(o5 + 1, o5 + 1 + name.len()) =~= name);
    assert(v.subrange(o6, o6 + d5.len()) =~= d5);
    if name.len() > 0 {
    }
    lemma_parse_num_at(v, o6, path.len() as u64);
    assert(v[o7] == 58);
    assert(v.subrange(o7 + 1, o7 + 1 + path.len()) =~= path);
    assert((f.level_path as u64) <= usize::MAX as u64);
    assert(decode_utf8(name) == f.file_name);
    assert(decode_utf8(path) == f.full_path);
    assert(spec_decode(v) == Some(f));
}

/// Decodes one stored value as an indexed-entry record.
pub fn decode_entry(v: &[u8]) -> (r: Option<File>)
    ensures
        match r {
            Some(f) => spec_decode(v@) == Some(f@),
            None => spec_decode(v@) is None,
        },
{
    let (size, i) = match parse_run(v, 0) {
        Some(p) => p,
        None => {
            return None;
        },
    };
    if i >= v.len() || v[i] != 32 {
        return None;
    }
    let (mtime, i) = match parse_run(v, i + 1) {
        Some(p) => p,
        None => {
            return None;
        },
    };
    if i >= v.len() || v[i] != 32 {
        return None;
    }
    let (level, i) = match parse_run(v, i + 1) {
        Some(p) => p,
        None => {
            return None;
        },
    };
    if level > usize::MAX as u64 {
        return None;
    }
    if i >= v.len() || v[i] != 32 {
        return None;
    }
    let i = i + 1;
    if i >= v.len() || (v[i] != 48 && v[i] != 49) {
        return None;
    }
    let is_file = v[i] == 49;
    if i + 1 >= v.len() || v[i + 1] != 32 {
        return None;
    }
    let (ino, i) = match parse_run(v, i + 2) {
        Some(p) => p,
        None => {
            return None;
        },
    };
    if i >= v.len() || v[i] != 32 {
        return None;
    }
    let (nlen, i) = match parse_run(v, i + 1) {
        Some(p) => p,
        None => {
            return None;
        },
    };
    if i >= v.len() || v[i] != 58 {
        return None;
    }
    let i = i + 1;
    if nlen > (v.len() - i) as u64 {
        return None;
    }
    let nl = nlen as usize;
    let name_bytes = slice_to_vec(slice_subrange(v, i, i + nl));
    let file_name = match bytes_to_string(name_bytes) {
        Some(s) => s,
        None => {
            return None;
        },
    };
    let i = i + nl;
    let (plen, i) = match parse_run(v, i) {
        Some(p) => p,
        None => {
            return None;
        },
    };
    if i >= v.len() || v[i] != 58 {
        return None;
    }
    let i = i + 1;
    if plen != (v.len() - i) as u64 {
        return None;
    }
    let pl = plen as usize;
    let path_bytes = slice_to_vec(slice_subrange(v, i, i + pl));
    let full_path = match bytes_to_string(path_bytes) {
        Some(s) => s,
        None => {
            return None;
        },
    };
    Some(
        File {
            size,
            mtime,
            file_name,
            full_path,
            is_file,
            level_path: level as usize,
            ino,
        },
    )
}

} // verus!

//! A small self-describing codec for the scalars and tagged records that the
//! log persists: 64-bit integers, strings and log entries. Every value starts
//! with a one-byte tag, so a stored byte string can be checked against the
//! shape it is decoded at. The codec is injective: decoding an encoding gives
//! the value back, which the recovery path of the log relies on.

use vstd::prelude::*;
use vstd::string::StringExecFns;
use vstd::utf8::{decode_utf8, encode_utf8, valid_utf8};

verus! {

/// Tag for an encoded 64-bit integer.
pub const TAG_U64: u8 = 2;

/// Tag for an encoded string.
pub const TAG_STR: u8 = 3;

/// Tag for an encoded log entry.
pub const TAG_ENTRY: u8 = 1;

// ---------------------------------------------------------------------------
// 64-bit integers, big endian
// ---------------------------------------------------------------------------

/// The eight big-endian bytes of a 64-bit integer.
pub open spec fn u64_be_bytes(n: u64) -> Seq<u8> {
    seq![
        (n >> 56) as u8,
        (n >> 48) as u8,
        (n >> 40) as u8,
        (n >> 32) as u8,
        (n >> 24) as u8,
        (n >> 16) as u8,
        (n >> 8) as u8,
        n as u8,
    ]
}

/// The integer read back from eight big-endian bytes.
pub open spec fn be_bytes_u64(b: Seq<u8>) -> u64
    recommends
        b.len() == 8,
{
    (((b[0] as u64) << 56) | ((b[1] as u64) << 48) | ((b[2] as u64) << 40) | ((b[3] as u64) << 32)
        | ((b[4] as u64) << 24) | ((b[5] as u64) << 16) | ((b[6] as u64) << 8) | (b[7] as u64)) as u64
}

/// Reading the eight big-endian bytes of an integer gives the integer back.
pub proof fn lemma_u64_be_round_trip(n: u64)
    ensures
        be_bytes_u64(u64_be_bytes(n)) == n,
{
    assert((((((n >> 56) as u8) as u64) << 56) | ((((n >> 48) as u8) as u64) << 48) | ((((n >> 40)
        as u8) as u64) << 40) | ((((n >> 32) as u8) as u64) << 32) | ((((n >> 24) as u8) as u64)
        << 24) | ((((n >> 16) as u8) as u64) << 16) | ((((n >> 8) as u8) as u64) << 8) | ((n as u8)
        as u64)) == n) by (bit_vector);
}

/// Eight bytes are the big-endian bytes of the integer they read back as.
pub proof fn lemma_u64_be_inverse(s: Seq<u8>)
    requires
        s.len() == 8,
    ensures
        u64_be_bytes(be_bytes_u64(s)) == s,
{
    let b0 = s[0];
    let b1 = s[1];
    let b2 = s[2];
    let b3 = s[3];
    let b4 = s[4];
    let b5 = s[5];
    let b6 = s[6];
    let b7 = s[7];
    let n = be_bytes_u64(s);
    assert(n == (((b0 as u64) << 56) | ((b1 as u64) << 48) | ((b2 as u64) << 40) | ((b3 as u64)
        << 32) | ((b4 as u64) << 24) | ((b5 as u64) << 16) | ((b6 as u64) << 8) | (b7
        as u64)) as u64);
    assert({
        let m = (((b0 as u64) << 56) | ((b1 as u64) << 48) | ((b2 as u64) << 40) | ((b3 as u64)
            << 32) | ((b4 as u64) << 24) | ((b5 as u64) << 16) | ((b6 as u64) << 8) | (b7
            as u64)) as u64;
        (m >> 56) as u8 == b0 && (m >> 48) as u8 == b1 && (m >> 40) as u8 == b2 && (m >> 32) as u8
            == b3 && (m >> 24) as u8 == b4 && (m >> 16) as u8 == b5 && (m >> 8) as u8 == b6 && m
            as u8 == b7
    }) by (bit_vector);
    assert(u64_be_bytes(n) =~= s);
}

/// A byte string that decodes at an integer is that integer's encoding.
pub proof fn lemma_dec_u64_canonical(b: Seq<u8>, n: u64)
    requires
        dec_u64(b) == Some(n),
    ensures
        b == enc_u64(n),
{
    lemma_u64_be_inverse(b.subrange(1, 9));
    assert(enc_u64(n) =~= b);
}

/// Appends the eight big-endian bytes of `n` to `out`.
pub fn push_u64_be(out: &mut Vec<u8>, n: u64)
    ensures
        final(out)@ == old(out)@ + u64_be_bytes(n),
{
    out.push((n >> 56) as u8);
    out.push((n >> 48) as u8);
    out.push((n >> 40) as u8);
    out.push((n >> 32) as u8);
    out.push((n >> 24) as u8);
    out.push((n >> 16) as u8);
    out.push((n >> 8) as u8);
    out.push(n as u8);
    proof {
        assert(out@ =~= old(out)@ + u64_be_bytes(n));
    }
}

/// Reads the integer encoded big-endian in `b[at .. at + 8]`.
pub fn read_u64_be(b: &Vec<u8>, at: usize) -> (n: u64)
    requires
        at + 8 <= b@.len(),
    ensures
        n == be_bytes_u64(b@.subrange(at as int, at + 8)),
{
    let l: usize = b.len();
    let n: u64 = ((b[at] as u64) << 56) | ((b[at + 1] as u64) << 48) | ((b[at + 2] as u64) << 40)
        | ((b[at + 3] as u64) << 32) | ((b[at + 4] as u64) << 24) | ((b[at + 5] as u64) << 16) | ((
    b[at + 6] as u64) << 8) | (b[at + 7] as u64);
    proof {
        let s = b@.subrange(at as int, at + 8);
        assert(s[0] == b@[at as int] && s[1] == b@[at + 1] && s[2] == b@[at + 2] && s[3] == b@[at
            + 3] && s[4] == b@[at + 4] && s[5] == b@[at + 5] && s[6] == b@[at + 6] && s[7] == b@[at
            + 7]);
    }
    n
}

// ---------------------------------------------------------------------------
// Tagged values
// ---------------------------------------------------------------------------

/// The encoding of a 64-bit integer value: a tag byte and eight bytes.
pub open spec fn enc_u64(n: u64) -> Seq<u8> {
    seq![TAG_U64] + u64_be_bytes(n)
}

/// The integer a byte string decodes at, if it has the right shape.
pub open spec fn dec_u64(b: Seq<u8>) -> Option<u64> {
    if b.len() == 9 && b[0] == TAG_U64 {
        Some(be_bytes_u64(b.subrange(1, 9)))
    } else {
        None
    }
}

/// Decoding an encoded integer gives the integer back.
pub proof fn lemma_u64_round_trip(n: u64)
    ensures
        dec_u64(enc_u64(n)) == Some(n),
{
    assert(enc_u64(n).subrange(1, 9) =~= u64_be_bytes(n));
    lemma_u64_be_round_trip(n);
}

/// Encodes a 64-bit integer value.
pub fn encode_u64(n: u64) -> (r: Vec<u8>)
    ensures
        r@ == enc_u64(n),
{
    let mut out: Vec<u8> = Vec::new();
    out.push(TAG_U64);
    push_u64_be(&mut out, n);
    proof {
        assert(out@ =~= enc_u64(n));
    }
    out
}

/// Decodes a 64-bit integer value.
pub fn decode_u64(b: &Vec<u8>) -> (r: Option<u64>)
    ensures
        r == dec_u64(b@),
{
    if b.len() == 9 && b[0] == TAG_U64 {
        Some(read_u64_be(b, 1))
    } else {
        None
    }
}

/// The encoding of a string value: a tag byte and the UTF-8 bytes.
pub open spec fn enc_str(s: Seq<char>) -> Seq<u8> {
    seq![TAG_STR] + encode_utf8(s)
}

/// The characters a byte string decodes at, if it has the right shape.
pub open spec fn dec_str(b: Seq<u8>) -> Option<Seq<char>> {
    if b.len() >= 1 && b[0] == TAG_STR && valid_utf8(b.skip(1)) {
        Some(decode_utf8(b.skip(1)))
    } else {
        None
    }
}

/// Decoding an encoded string gives the characters back.
pub proof fn lemma_str_round_trip(s: Seq<char>)
    ensures
        dec_str(enc_str(s)) == Some(s),
{
    broadcast use vstd::utf8::encode_utf8_valid_utf8, vstd::utf8::encode_utf8_decode_utf8;

    assert(enc_str(s).skip(1) =~= encode_utf8(s));
}

/// Encodes a string value.
pub fn encode_str(s: &str) -> (r: Vec<u8>)
    ensures
        r@ == enc_str(s@),
{
    let bytes = vstd::slice::slice_to_vec(s.as_bytes());
    let mut out: Vec<u8> = Vec::new();
    out.push(TAG_STR);
    let mut i: usize = 0;
    while i < bytes.len()
        invariant
            i <= bytes@.len(),
            bytes@ == encode_utf8(s@),
            out@ == seq![TAG_STR] + bytes@.take(i as int),
        decreases bytes@.len() - i,
    {
        out.push(bytes[i]);
        i = i + 1;
        proof {
            assert(out@ =~= seq![TAG_STR] + bytes@.take(i as int));
        }
    }
    proof {
        assert(out@ =~= enc_str(s@));
    }
    out
}

/// Relies on `String::from_utf8`: it returns the string whose UTF-8 encoding
/// is the given byte string, and fails exactly when the bytes are not UTF-8.
#[verifier::external_body]
pub(crate) fn string_from_utf8(b: Vec<u8>) -> (r: Option<String>)
    ensures
        r matches Some(s) ==> valid_utf8(b@) && s@ == decode_utf8(b@),
        r is None ==> !valid_utf8(b@),
{
    String::from_utf8(b).ok()
}

/// Decodes a string from bare UTF-8 bytes.
pub fn decode_str_raw(b: Vec<u8>) -> (r: Option<String>)
    ensures
        r matches Some(s) ==> valid_utf8(b@) && s@ == decode_utf8(b@),
        r is None ==> !valid_utf8(b@),
{
    string_from_utf8(b)
}

/// Decodes a string value.
pub fn decode_str(b: &Vec<u8>) -> (r: Option<String>)
    ensures
        match dec_str(b@) {
            Some(s) => r matches Some(t) && t@ == s,
            None => r is None,
        },
{
    if b.len() >= 1 && b[0] == TAG_STR {
        let mut rest: Vec<u8> = Vec::new();
        let mut i: usize = 1;
        while i < b.len()
            invariant
                1 <= i <= b@.len(),
                rest@ == b@.subrange(1, i as int),
            decreases b@.len() - i,
        {
            rest.push(b[i]);
            i = i + 1;
            proof {
                assert(rest@ =~= b@.subrange(1, i as int));
            }
        }
        proof {
            assert(rest@ =~= b@.skip(1));
        }
        string_from_utf8(rest)
    } else {
        None
    }
}

// ---------------------------------------------------------------------------
// Decimal strings, used as the store keys of log entries
// ---------------------------------------------------------------------------

/// The character for a single decimal digit.
pub open spec fn digit_char(d: u64) -> char
    recommends
        d < 10,
{
    if d == 0 {
        '0'
    } else if d == 1 {
        '1'
    } else if d == 2 {
        '2'
    } else if d == 3 {
        '3'
    } else if d == 4 {
        '4'
    } else if d == 5 {
        '5'
    } else if d == 6 {
        '6'
    } else if d == 7 {
        '7'
    } else if d == 8 {
        '8'
    } else {
        '9'
    }
}

/// The decimal digits of `n`, most significant first, with no leading zero.
pub open spec fn dec_digits(n: u64) -> Seq<char>
    decreases n,
{
    if n < 10 {
        seq![digit_char(n)]
    } else {
        dec_digits(n / 10).push(digit_char(n % 10))
    }
}

/// Every character of a decimal string is a digit.
pub proof fn lemma_dec_digits_are_digits(n: u64)
    ensures
        forall|i: int|
            0 <= i < dec_digits(n).len() ==> '0' <= #[trigger] dec_digits(n)[i] && dec_digits(
                n,
            )[i] <= '9',
        dec_digits(n).len() >= 1,
    decreases n,
{
    if n >= 10 {
        lemma_dec_digits_are_digits(n / 10);
    }
}

/// Distinct integers have distinct decimal strings.
pub proof fn lemma_dec_digits_injective(a: u64, b: u64)
    requires
        a != b,
    ensures
        dec_digits(a) != dec_digits(b),
    decreases a + b,
{
    lemma_dec_digits_are_digits(a);
    lemma_dec_digits_are_digits(b);
    if a < 10 && b < 10 {
        assert(dec_digits(a)[0] != dec_digits(b)[0]);
    } else if a < 10 {
        lemma_dec_digits_are_digits(b / 10);
        assert(dec_digits(b).len() >= 2);
    } else if b < 10 {
        lemma_dec_digits_are_digits(a / 10);
        assert(dec_digits(a).len() >= 2);
    } else {
        if a % 10 != b % 10 {
            assert(dec_digits(a).last() != dec_digits(b).last());
        } else {
            lemma_dec_digits_injective(a / 10, b / 10);
            assert(dec_digits(a / 10).push(digit_char(a % 10)).drop_last() =~= dec_digits(a / 10));
            assert(dec_digits(b / 10).push(digit_char(b % 10)).drop_last() =~= dec_digits(b / 10));
            if dec_digits(a) == dec_digits(b) {
                assert(dec_digits(a / 10) == dec_digits(b / 10));
            }
        }
    }
}

/// The one-character string for a single decimal digit.
fn digit_str(d: u64) -> (r: &'static str)
    requires
        d < 10,
    ensures
        r@ =~= seq![digit_char(d)],
{
    proof {
        reveal_strlit("0");
        reveal_strlit("1");
        reveal_strlit("2");
        reveal_strlit("3");
        reveal_strlit("4");
        reveal_strlit("5");
        reveal_strlit("6");
        reveal_strlit("7");
        reveal_strlit("8");
        reveal_strlit("9");
    }
    if d == 0 {
        "0"
    } else if d == 1 {
        "1"
    } else if d == 2 {
        "2"
    } else if d == 3 {
        "3"
    } else if d == 4 {
        "4"
    } else if d == 5 {
        "5"
    } else if d == 6 {
        "6"
    } else if d == 7 {
        "7"
    } else if d == 8 {
        "8"
    } else {
        "9"
    }
}

/// Renders `n` in decimal; the store keys each log entry by its index in
/// this form.
pub fn u64_to_string(n: u64) -> (r: String)
    ensures
        r@ == dec_digits(n),
    decreases n,
{
    if n < 10 {
        digit_str(n).to_owned()
    } else {
        let mut s = u64_to_string(n / 10);
        s.append(digit_str(n % 10));
        proof {
            assert(s@ =~= dec_digits(n));
        }
        s
    }
}

} // verus!

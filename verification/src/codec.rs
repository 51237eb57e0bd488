//! Text encodings used by the proxy: URL-safe base64 without padding (the
//! `base64` crate) and percent-encoding of query values (the `urlencoding`
//! crate), with the hexadecimal helpers they are combined with.

use vstd::prelude::*;
use vstd::utf8::{encode_utf8, valid_utf8};
use base64::Engine;

verus! {

// ─── Base64, URL-safe alphabet, no padding ──────────────────────────────────

/// The URL-safe base64 digit of a 6-bit value, as an ASCII byte:
/// `A`–`Z`, `a`–`z`, `0`–`9`, `-`, `_`.
pub open spec fn b64_digit(v: int) -> u8 {
    if v < 26 {
        (v + 65) as u8
    } else if v < 52 {
        (v + 71) as u8
    } else if v < 62 {
        (v - 4) as u8
    } else if v == 62 {
        45u8
    } else {
        95u8
    }
}

/// URL-safe base64 of `data` without padding, as bytes: each group of three
/// bytes becomes four digits; a final group of one or two bytes becomes two
/// or three digits.
pub open spec fn b64url_bytes(data: Seq<u8>) -> Seq<u8>
    decreases data.len(),
{
    if data.len() == 0 {
        seq![]
    } else if data.len() == 1 {
        let x = data[0] as int;
        seq![b64_digit(x / 4), b64_digit((x % 4) * 16)]
    } else if data.len() == 2 {
        let (x, y) = (data[0] as int, data[1] as int);
        seq![b64_digit(x / 4), b64_digit((x % 4) * 16 + y / 16), b64_digit((y % 16) * 4)]
    } else {
        let (x, y, z) = (data[0] as int, data[1] as int, data[2] as int);
        seq![
            b64_digit(x / 4),
            b64_digit((x % 4) * 16 + y / 16),
            b64_digit((y % 16) * 4 + z / 64),
            b64_digit(z % 64),
        ] + b64url_bytes(data.skip(3))
    }
}

/// ASCII bytes read as characters.
pub open spec fn ascii_chars(bs: Seq<u8>) -> Seq<char> {
    bs.map_values(|b: u8| b as char)
}

/// URL-safe base64 of `data` without padding, as text.
pub open spec fn b64url(data: Seq<u8>) -> Seq<char> {
    ascii_chars(b64url_bytes(data))
}

/// `URL_SAFE_NO_PAD.encode` of the `base64` crate: the URL-safe alphabet,
/// no `=` padding.
#[verifier::external_body]
pub(crate) fn b64url_encode(data: &[u8]) -> (s: String)
    ensures
        s@ == b64url(data@),
{
    base64::engine::general_purpose::URL_SAFE_NO_PAD.encode(data)
}

/// `URL_SAFE_NO_PAD.decode` of the `base64` crate. That engine requires
/// the absence of padding and rejects non-zero trailing bits, so it
/// accepts exactly the texts that its encoder produces: the result is the
/// data whose encoding is `s`, or `None` when no data encodes to `s`.
#[verifier::external_body]
pub(crate) fn b64url_decode(s: &str) -> (r: Option<Vec<u8>>)
    ensures
        match r {
            Some(v) => b64url(v@) == s@,
            None => forall|v: Seq<u8>| b64url(v) != s@,
        },
{
    base64::engine::general_purpose::URL_SAFE_NO_PAD.decode(s).ok()
}

proof fn lemma_b64_digit_injective(a: int, b: int)
    requires
        0 <= a < 64,
        0 <= b < 64,
        b64_digit(a) == b64_digit(b),
    ensures
        a == b,
{
}

proof fn lemma_chunk_injective(x: u8, y: u8, z: u8, x2: u8, y2: u8, z2: u8)
    requires
        x / 4 == x2 / 4,
        (x % 4) * 16 + y / 16 == (x2 % 4) * 16 + y2 / 16,
        (y % 16) * 4 + z / 64 == (y2 % 16) * 4 + z2 / 64,
        z % 64 == z2 % 64,
    ensures
        x == x2 && y == y2 && z == z2,
{
    assert(x % 4 == x2 % 4 && y / 16 == y2 / 16) by (nonlinear_arith)
        requires
            (x % 4) * 16 + y / 16 == (x2 % 4) * 16 + y2 / 16,
            0 <= y / 16 < 16,
            0 <= y2 / 16 < 16,
            0 <= x % 4,
            0 <= x2 % 4,
    ;
    assert(y % 16 == y2 % 16 && z / 64 == z2 / 64) by (nonlinear_arith)
        requires
            (y % 16) * 4 + z / 64 == (y2 % 16) * 4 + z2 / 64,
            0 <= z / 64 < 4,
            0 <= z2 / 64 < 4,
            0 <= y % 16,
            0 <= y2 % 16,
    ;
}

/// Base64 text has four digits per three bytes, and two or three for a
/// final partial group.
pub proof fn lemma_b64url_len(data: Seq<u8>)
    ensures
        b64url_bytes(data).len() == (data.len() / 3) * 4 + (if data.len() % 3 == 0 {
            0int
        } else {
            (data.len() % 3 + 1) as int
        }),
    decreases data.len(),
{
    if data.len() >= 3 {
        lemma_b64url_len(data.skip(3));
    }
}

proof fn lemma_ascii_chars_injective(a: Seq<u8>, b: Seq<u8>)
    requires
        ascii_chars(a) == ascii_chars(b),
    ensures
        a == b,
{
    assert(ascii_chars(a).len() == a.len());
    assert(ascii_chars(b).len() == b.len());
    assert forall|i: int| 0 <= i < a.len() implies a[i] == b[i] by {
        assert(ascii_chars(a)[i] == ascii_chars(b)[i]);
        assert(ascii_chars(a)[i] == a[i] as char);
        assert(ascii_chars(b)[i] == b[i] as char);
        assert((a[i] as char) as u32 == a[i] as u32);
        assert((b[i] as char) as u32 == b[i] as u32);
    }
    assert(a =~= b);
}

proof fn lemma_b64url_bytes_injective(a: Seq<u8>, b: Seq<u8>)
    requires
        b64url_bytes(a) == b64url_bytes(b),
    ensures
        a == b,
    decreases a.len(),
{
    lemma_b64url_len(a);
    lemma_b64url_len(b);
    let ea = b64url_bytes(a);
    let eb = b64url_bytes(b);
    assert(a.len() == b.len()) by (nonlinear_arith)
        requires
            (a.len() / 3) * 4 + (if a.len() % 3 == 0 { 0int } else { (a.len() % 3 + 1) as int }) == (b.len()
                / 3) * 4 + (if b.len() % 3 == 0 { 0int } else { (b.len() % 3 + 1) as int }),
            a.len() >= 0,
            b.len() >= 0,
    ;
    if a.len() == 0 {
        assert(a =~= b);
    } else if a.len() == 1 {
        lemma_b64_digit_injective(a[0] as int / 4, b[0] as int / 4);
        assert(ea[1] == eb[1]);
        lemma_b64_digit_injective((a[0] as int % 4) * 16, (b[0] as int % 4) * 16);
        assert(a[0] == b[0]);
        assert(a =~= b);
    } else if a.len() == 2 {
        assert(ea[0] == eb[0] && ea[1] == eb[1] && ea[2] == eb[2]);
        lemma_b64_digit_injective(a[0] as int / 4, b[0] as int / 4);
        lemma_b64_digit_injective(
            (a[0] as int % 4) * 16 + a[1] as int / 16,
            (b[0] as int % 4) * 16 + b[1] as int / 16,
        );
        lemma_b64_digit_injective((a[1] as int % 16) * 4, (b[1] as int % 16) * 4);
        lemma_chunk_injective(a[0], a[1], 0, b[0], b[1], 0);
        assert(a =~= b);
    } else {
        assert(ea[0] == eb[0] && ea[1] == eb[1] && ea[2] == eb[2] && ea[3] == eb[3]);
        lemma_b64_digit_injective(a[0] as int / 4, b[0] as int / 4);
        lemma_b64_digit_injective(
            (a[0] as int % 4) * 16 + a[1] as int / 16,
            (b[0] as int % 4) * 16 + b[1] as int / 16,
        );
        lemma_b64_digit_injective(
            (a[1] as int % 16) * 4 + a[2] as int / 64,
            (b[1] as int % 16) * 4 + b[2] as int / 64,
        );
        lemma_b64_digit_injective(a[2] as int % 64, b[2] as int % 64);
        lemma_chunk_injective(a[0], a[1], a[2], b[0], b[1], b[2]);
        assert(ea.skip(4) == b64url_bytes(a.skip(3)));
        assert(eb.skip(4) == b64url_bytes(b.skip(3)));
        lemma_b64url_bytes_injective(a.skip(3), b.skip(3));
        assert(a =~= seq![a[0], a[1], a[2]] + a.skip(3));
        assert(b =~= seq![b[0], b[1], b[2]] + b.skip(3));
    }
}

/// Different data have different base64 texts.
pub proof fn lemma_b64url_injective(a: Seq<u8>, b: Seq<u8>)
    requires
        b64url(a) == b64url(b),
    ensures
        a == b,
{
    lemma_ascii_chars_injective(b64url_bytes(a), b64url_bytes(b));
    lemma_b64url_bytes_injective(a, b);
}

// ─── Percent-encoding ───────────────────────────────────────────────────────

/// Bytes that `urlencoding` leaves as they are: ASCII letters and digits,
/// `-`, `.`, `_`, `~`.
pub open spec fn url_safe_byte(b: u8) -> bool {
    ||| (48 <= b <= 57)
    ||| (65 <= b <= 90)
    ||| (97 <= b <= 122)
    ||| b == 45
    ||| b == 46
    ||| b == 95
    ||| b == 126
}

/// An uppercase hexadecimal digit.
pub open spec fn hex_upper_digit(v: int) -> char {
    if v < 10 {
        ((v + 48) as u8) as char
    } else {
        ((v + 55) as u8) as char
    }
}

/// Percent-encoding of bytes: safe bytes stay, every other byte becomes
/// `%` and two uppercase hex digits.
pub open spec fn percent_encode(bs: Seq<u8>) -> Seq<char>
    decreases bs.len(),
{
    if bs.len() == 0 {
        seq![]
    } else {
        let b = bs[0];
        (if url_safe_byte(b) {
            seq![b as char]
        } else {
            seq!['%', hex_upper_digit(b as int / 16), hex_upper_digit(b as int % 16)]
        }) + percent_encode(bs.drop_first())
    }
}

/// `urlencoding::encode`: percent-encodes the UTF-8 bytes of `s`.
#[verifier::external_body]
pub(crate) fn url_encode(s: &str) -> (r: String)
    ensures
        r@ == percent_encode(encode_utf8(s@)),
{
    urlencoding::encode(s).into_owned()
}

// ─── UTF-8 ──────────────────────────────────────────────────────────────────

/// `String::from_utf8`: the text whose UTF-8 encoding is `bytes`, or
/// `None` when `bytes` is not UTF-8.
#[verifier::external_body]
pub(crate) fn string_from_utf8(bytes: Vec<u8>) -> (r: Option<String>)
    ensures
        match r {
            Some(s) => encode_utf8(s@) == bytes@,
            None => !valid_utf8(bytes@),
        },
{
    String::from_utf8(bytes).ok()
}

} // verus!

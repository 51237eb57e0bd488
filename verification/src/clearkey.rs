//! ClearKey licenses in the W3C JSON Web Key form.

use vstd::prelude::*;
use vstd::utf8::{
    encode_utf8, encode_utf8_valid_utf8, is_ascii_chars, is_ascii_chars_encode_utf8,
    is_char_boundary, is_char_boundary_iff_not_is_continuation_byte,
    is_char_boundary_start_end_of_seq,
};
use crate::codec::{b64url, b64url_decode, b64url_encode, lemma_b64url_injective};
use crate::playlist::{channel_spec, is_hex_128, is_hex_digit, law_clearkey_pair};
use crate::string_map::{entry_view, StringMap};
use crate::text::ascii_lower_seq;

verus! {

// ─── W3C ClearKey JWK types ─────────────────────────────────────────────────

/// A license request from the player: base64url KIDs and a session type.
#[derive(Debug)]
pub struct ClearKeyLicenseRequest {
    pub kids: Option<Vec<String>>,
    pub request_type: Option<String>,
}

/// One symmetric key: `kty` is `oct`, `kid` and `k` are base64url.
#[derive(Debug)]
pub struct JwkKey {
    pub kty: String,
    pub kid: String,
    pub k: String,
}

/// The license: the keys handed to the player and the session type.
#[derive(Debug)]
pub struct ClearKeyLicenseResponse {
    pub keys: Vec<JwkKey>,
    pub response_type: String,
}

pub struct JwkSpec {
    pub kty: Seq<char>,
    pub kid: Seq<char>,
    pub k: Seq<char>,
}

impl View for JwkKey {
    type V = JwkSpec;

    open spec fn view(&self) -> JwkSpec {
        JwkSpec { kty: self.kty@, kid: self.kid@, k: self.k@ }
    }
}

pub open spec fn jwks_view(keys: Seq<JwkKey>) -> Seq<JwkSpec> {
    keys.map_values(|j: JwkKey| j@)
}

// ─── Hexadecimal ────────────────────────────────────────────────────────────

/// The value of an ASCII hexadecimal digit.
pub open spec fn hex_value(b: u8) -> Option<int> {
    if 48 <= b <= 57 {
        Some(b - 48)
    } else if 97 <= b <= 102 {
        Some(b - 87)
    } else if 65 <= b <= 70 {
        Some(b - 55)
    } else {
        None
    }
}

/// `u8::from_str_radix` on two bytes in base 16: two hex digits, or a `+`
/// sign and one digit; anything else is no byte.
pub open spec fn hex_pair(b0: u8, b1: u8) -> Option<u8> {
    match (hex_value(b0), hex_value(b1)) {
        (Some(h), Some(l)) => Some((h * 16 + l) as u8),
        (None, Some(l)) => if b0 == 43 {
            Some(l as u8)
        } else {
            None
        },
        _ => None,
    }
}

/// The bytes of hex text read two at a time; pairs that are not a byte
/// are skipped.
pub open spec fn hex_decode_bytes(bs: Seq<u8>) -> Seq<u8>
    decreases bs.len(),
{
    if bs.len() < 2 {
        seq![]
    } else {
        let rest = hex_decode_bytes(bs.skip(2));
        match hex_pair(bs[0], bs[1]) {
            Some(v) => seq![v] + rest,
            None => rest,
        }
    }
}

/// The data written by hex text.
pub open spec fn hex_bytes(s: Seq<char>) -> Seq<u8> {
    hex_decode_bytes(encode_utf8(s))
}

/// Text that can be cut into two-byte pieces: its UTF-8 length is even and
/// every even byte offset is a character boundary.
pub open spec fn hex_decodable(s: Seq<char>) -> bool {
    let b = encode_utf8(s);
    &&& b.len() % 2 == 0
    &&& forall|i: int| 0 <= i <= b.len() && i % 2 == 0 ==> #[trigger] is_char_boundary(b, i)
}

pub open spec fn hex_lower_digit(v: int) -> char {
    if v < 10 {
        ((v + 48) as u8) as char
    } else {
        ((v + 87) as u8) as char
    }
}

/// Lowercase hex text of bytes, two digits per byte (`{:02x}`).
pub open spec fn hex_lower(bs: Seq<u8>) -> Seq<char>
    decreases bs.len(),
{
    if bs.len() == 0 {
        seq![]
    } else {
        seq![hex_lower_digit(bs[0] as int / 16), hex_lower_digit(bs[0] as int % 16)] + hex_lower(
            bs.drop_first(),
        )
    }
}

/// The hex form of a base64url KID; empty when the text is not base64url.
pub open spec fn kid_hex(b64: Seq<char>) -> Seq<char> {
    if exists|v: Seq<u8>| b64url(v) == b64 {
        hex_lower(choose|v: Seq<u8>| b64url(v) == b64)
    } else {
        seq![]
    }
}

/// `hex_decodable`, tested.
pub fn is_hex_decodable(s: &str) -> (b: bool)
    ensures
        b == hex_decodable(s@),
{
    let bs = s.as_bytes();
    let n = bs.len();
    if n % 2 != 0 {
        return false;
    }
    let mut i: usize = 0;
    while i < n
        invariant
            bs@ == encode_utf8(s@),
            n == bs@.len(),
            n % 2 == 0,
            i % 2 == 0,
            i <= n,
            forall|j: int| 0 <= j < i && j % 2 == 0 ==> #[trigger] is_char_boundary(
                encode_utf8(s@),
                j,
            ),
        decreases n - i,
    {
        if !s.is_char_boundary(i) {
            return false;
        }
        i = i + 2;
    }
    s.is_char_boundary(n)
}

fn hex_value_of(b: u8) -> (r: Option<u8>)
    ensures
        match hex_value(b) {
            Some(v) => r == Some(v as u8),
            None => r is None,
        },
{
    if 48 <= b && b <= 57 {
        Some(b - 48)
    } else if 97 <= b && b <= 102 {
        Some(b - 87)
    } else if 65 <= b && b <= 70 {
        Some(b - 55)
    } else {
        None
    }
}

fn hex_decode(hex: &str) -> (v: Vec<u8>)
    requires
        hex_decodable(hex@),
    ensures
        v@ == hex_bytes(hex@),
{
    let bs = hex.as_bytes();
    let ghost b = bs@;
    let n = bs.len();
    let mut out: Vec<u8> = Vec::new();
    let mut i: usize = 0;
    assert(b.skip(0) == b);
    while i < n
        invariant
            b == bs@,
            b == encode_utf8(hex@),
            n == b.len(),
            i <= n,
            n % 2 == 0,
            i % 2 == 0,
            hex_decode_bytes(b) == out@ + hex_decode_bytes(b.skip(i as int)),
        decreases n - i,
    {
        let ghost rest = b.skip(i as int);
        assert(rest.skip(2) == b.skip(i + 2));
        assert(rest[0] == bs@[i as int] && rest[1] == bs@[i + 1]);
        let hi = hex_value_of(bs[i]);
        let lo = hex_value_of(bs[i + 1]);
        match (hi, lo) {
            (Some(h), Some(l)) => {
                out.push(h * 16 + l);
            },
            (None, Some(l)) => {
                if bs[i] == 43 {
                    out.push(l);
                }
            },
            _ => {},
        }
        i = i + 2;
    }
    assert(b.skip(i as int).len() == 0);
    assert(out@ + hex_decode_bytes(b.skip(i as int)) == out@);
    out
}

fn hex_lower_digit_of(v: u8) -> (c: char)
    requires
        v < 16,
    ensures
        c == hex_lower_digit(v as int),
{
    if v < 10 {
        (v + 48) as char
    } else {
        (v + 87) as char
    }
}

fn hex_encode(bs: &[u8]) -> (s: String)
    ensures
        s@ == hex_lower(bs@),
{
    let mut cs: Vec<char> = Vec::new();
    let n = bs.len();
    assert(bs@.skip(0) == bs@);
    for i in 0..n
        invariant
            n == bs@.len(),
            hex_lower(bs@) == cs@ + hex_lower(bs@.skip(i as int)),
    {
        let b = bs[i];
        cs.push(hex_lower_digit_of(b / 16));
        cs.push(hex_lower_digit_of(b % 16));
        assert(bs@.skip(i as int).drop_first() == bs@.skip(i + 1));
    }
    assert(bs@.skip(n as int).len() == 0);
    crate::text::string_of(cs.as_slice())
}

// ─── License generation ─────────────────────────────────────────────────────

/// The key `k` of a JWK for a hex key.
pub open spec fn jwk_spec(kid_b64: Seq<char>, key_hex: Seq<char>) -> JwkSpec {
    JwkSpec { kty: "oct"@, kid: kid_b64, k: b64url(hex_bytes(key_hex)) }
}

/// The keys for the requested KIDs that are known, in request order.
pub open spec fn matched_keys(keys: Map<Seq<char>, Seq<char>>, kids: Seq<Seq<char>>) -> Seq<JwkSpec>
    decreases kids.len(),
{
    if kids.len() == 0 {
        seq![]
    } else {
        let prev = matched_keys(keys, kids.drop_last());
        let h = kid_hex(kids.last());
        if keys.contains_key(h) {
            prev.push(jwk_spec(kids.last(), keys[h]))
        } else {
            prev
        }
    }
}

/// Every key of the playlist, in map order.
pub open spec fn all_keys(pairs: Seq<(Seq<char>, Seq<char>)>) -> Seq<JwkSpec> {
    pairs.map_values(|p: (Seq<char>, Seq<char>)| jwk_spec(b64url(hex_bytes(p.0)), p.1))
}

/// The keys of a license: the requested ones that are known, or, when
/// there are none, every key.
pub open spec fn license_keys(
    keys: Map<Seq<char>, Seq<char>>,
    pairs: Seq<(Seq<char>, Seq<char>)>,
    kids: Seq<Seq<char>>,
) -> Seq<JwkSpec> {
    if matched_keys(keys, kids).len() > 0 {
        matched_keys(keys, kids)
    } else {
        all_keys(pairs)
    }
}

/// Every hex value that goes into the license can be cut into byte pairs.
pub open spec fn license_inputs_ok(
    keys: Map<Seq<char>, Seq<char>>,
    pairs: Seq<(Seq<char>, Seq<char>)>,
    kids: Seq<Seq<char>>,
) -> bool {
    &&& forall|i: int|
        0 <= i < kids.len() && keys.contains_key(#[trigger] kid_hex(kids[i])) ==> hex_decodable(
            keys[kid_hex(kids[i])],
        )
    &&& matched_keys(keys, kids).len() == 0 ==> forall|j: int|
        0 <= j < pairs.len() ==> pair_decodable(#[trigger] pairs[j])
}

/// Both the KID and the key of a pair can be cut into byte pairs.
pub open spec fn pair_decodable(p: (Seq<char>, Seq<char>)) -> bool {
    hex_decodable(p.0) && hex_decodable(p.1)
}

pub open spec fn strings_view(v: Seq<String>) -> Seq<Seq<char>> {
    v.map_values(|s: String| s@)
}

/// Whether `build_license` can be asked for these KIDs: every hex value
/// that would go into the license can be cut into byte pairs.
pub fn license_request_ok(clear_keys: &StringMap, requested_kids: &[String]) -> (b: bool)
    ensures
        b == license_inputs_ok(clear_keys@, clear_keys.pairs(), strings_view(requested_kids@)),
{
    let ghost kids = strings_view(requested_kids@);
    let mut any = false;
    let n = requested_kids.len();
    for i in 0..n
        invariant
            n == kids.len(),
            kids == strings_view(requested_kids@),
            any == (matched_keys(clear_keys@, kids.take(i as int)).len() > 0),
            forall|j: int|
                0 <= j < i && clear_keys@.contains_key(#[trigger] kid_hex(kids[j])) ==> hex_decodable(
                    clear_keys@[kid_hex(kids[j])],
                ),
    {
        let hex = b64url_to_hex(requested_kids[i].as_str());
        assert(kids[i as int] == requested_kids@[i as int]@);
        assert(kids.take(i + 1).drop_last() == kids.take(i as int));
        assert(kid_hex(kids[i as int]) == hex@);
        if let Some(key_hex) = clear_keys.get(hex.as_str()) {
            if !is_hex_decodable(key_hex.as_str()) {
                assert(!license_inputs_ok(clear_keys@, clear_keys.pairs(), kids));
                return false;
            }
            any = true;
        }
    }
    assert(kids.take(n as int) == kids);
    if !any {
        let entries = clear_keys.entries();
        let m = entries.len();
        let ghost pairs = clear_keys.pairs();
        let mut j: usize = 0;
        while j < m
            invariant
                j <= m,
                m == pairs.len(),
                pairs == clear_keys.pairs(),
                entries@.map_values(|e: (String, String)| entry_view(e)) == pairs,
                kids == strings_view(requested_kids@),
                matched_keys(clear_keys@, kids).len() == 0,
                forall|i: int|
                    0 <= i < kids.len() && clear_keys@.contains_key(#[trigger] kid_hex(kids[i]))
                        ==> hex_decodable(clear_keys@[kid_hex(kids[i])]),
                forall|k: int| 0 <= k < j ==> pair_decodable(#[trigger] pairs[k]),
            decreases m - j,
        {
            let (kid, key) = &entries[j];
            assert(pairs[j as int] == entry_view(entries@[j as int]));
            assert(pairs[j as int] == (kid@, key@));
            let ok_kid = is_hex_decodable(kid.as_str());
            let ok_key = is_hex_decodable(key.as_str());
            if !ok_kid || !ok_key {
                assert(!pair_decodable(pairs[j as int]));
                return false;
            }
            j = j + 1;
        }
    }
    true
}

/// Hex key → base64url key.
pub fn hex_to_b64url(hex: &str) -> (s: String)
    requires
        hex_decodable(hex@),
    ensures
        s@ == b64url(hex_bytes(hex@)),
{
    let bytes = hex_decode(hex);
    b64url_encode(bytes.as_slice())
}

/// Base64url KID → lowercase hex KID; empty when `b64` is not base64url.
pub fn b64url_to_hex(b64: &str) -> (s: String)
    ensures
        s@ == kid_hex(b64@),
{
    match b64url_decode(b64) {
        Some(bytes) => {
            proof {
                let w = choose|v: Seq<u8>| b64url(v) == b64@;
                lemma_b64url_injective(w, bytes@);
            }
            hex_encode(bytes.as_slice())
        },
        None => String::new(),
    }
}

fn make_jwk(kid_b64url: &str, key_hex: &str) -> (j: JwkKey)
    requires
        hex_decodable(key_hex@),
    ensures
        j@ == jwk_spec(kid_b64url@, key_hex@),
{
    JwkKey { kty: "oct".to_owned(), kid: kid_b64url.to_owned(), k: hex_to_b64url(key_hex) }
}

/// Build a ClearKey JWK license response given:
///  - `clear_keys`:      KID_hex → KEY_hex  (from playlist)
///  - `requested_kids`:  base64url-encoded KIDs from the player request
///
/// Returns all matching keys; falls back to returning all keys if none match.
pub fn build_license(clear_keys: &StringMap, requested_kids: &[String]) -> (r: Result<
    ClearKeyLicenseResponse,
    String,
>)
    requires
        license_inputs_ok(clear_keys@, clear_keys.pairs(), strings_view(requested_kids@)),
    ensures
        r matches Ok(resp) && jwks_view(resp.keys@) == license_keys(
            clear_keys@,
            clear_keys.pairs(),
            strings_view(requested_kids@),
        ) && resp.response_type@ == "temporary"@,
{
    let ghost kids = strings_view(requested_kids@);
    let mut keys: Vec<JwkKey> = Vec::new();
    let n = requested_kids.len();
    for i in 0..n
        invariant
            n == kids.len(),
            kids == strings_view(requested_kids@),
            license_inputs_ok(clear_keys@, clear_keys.pairs(), kids),
            jwks_view(keys@) == matched_keys(clear_keys@, kids.take(i as int)),
    {
        let b64_kid = requested_kids[i].as_str();
        let kid_hex = b64url_to_hex(b64_kid);
        assert(kids[i as int] == b64_kid@);
        assert(kids.take(i + 1).drop_last() == kids.take(i as int));
        if let Some(key_hex) = clear_keys.get(kid_hex.as_str()) {
            let j = make_jwk(b64_kid, key_hex.as_str());
            keys.push(j);
            assert(jwks_view(keys@) == matched_keys(clear_keys@, kids.take(i as int)).push(j@));
        }
    }
    assert(kids.take(n as int) == kids);
    // Fallback: return all keys when player doesn't specify KIDs or none matched
    if keys.len() == 0 {
        let entries = clear_keys.entries();
        let m = entries.len();
        let ghost pairs = clear_keys.pairs();
        for j in 0..m
            invariant
                m == pairs.len(),
                pairs == clear_keys.pairs(),
                entries@.map_values(|e: (String, String)| entry_view(e)) == pairs,
                matched_keys(clear_keys@, kids).len() == 0,
                license_inputs_ok(clear_keys@, pairs, kids),
                jwks_view(keys@) == all_keys(pairs.take(j as int)),
        {
            let (kid, key) = &entries[j];
            assert(pairs[j as int] == (kid@, key@));
            assert(matched_keys(clear_keys@, kids).len() == 0);
            assert(pair_decodable(pairs[j as int]));
            let kid_b64 = hex_to_b64url(kid.as_str());
            let jwk = make_jwk(kid_b64.as_str(), key.as_str());
            keys.push(jwk);
            assert(all_keys(pairs.take(j + 1)) == all_keys(pairs.take(j as int)).push(jwk@));
        }
        assert(pairs.take(m as int) == pairs);
    }
    Ok(ClearKeyLicenseResponse { keys, response_type: "temporary".to_owned() })
}


// ─── Laws ───────────────────────────────────────────────────────────────────

/// A lowercase hexadecimal digit.
pub open spec fn is_lower_hex(c: char) -> bool {
    ('0' <= c && c <= '9') || ('a' <= c && c <= 'f')
}

/// The KID of a base64url text is the hex form of the data it encodes.
pub proof fn lemma_kid_hex_of_b64url(v: Seq<u8>)
    ensures
        kid_hex(b64url(v)) == hex_lower(v),
{
    let w = choose|w: Seq<u8>| b64url(w) == b64url(v);
    lemma_b64url_injective(w, v);
}

proof fn lemma_hex_pairs_roundtrip(b: Seq<u8>)
    requires
        b.len() % 2 == 0,
        forall|i: int| 0 <= i < b.len() ==> is_lower_hex(#[trigger] b[i] as char),
    ensures
        hex_lower(hex_decode_bytes(b)) == b.map_values(|x: u8| x as char),
    decreases b.len(),
{
    if b.len() > 0 {
        let rest = b.skip(2);
        assert forall|i: int| 0 <= i < rest.len() implies is_lower_hex(#[trigger] rest[i] as char) by {
            assert(rest[i] == b[i + 2]);
        }
        lemma_hex_pairs_roundtrip(rest);
        let (x, y) = (b[0], b[1]);
        assert(is_lower_hex(x as char) && is_lower_hex(y as char));
        let h = hex_value(x)->0;
        let l = hex_value(y)->0;
        assert(hex_pair(x, y) == Some((h * 16 + l) as u8));
        let v = (h * 16 + l) as u8;
        assert(v / 16 == h && v % 16 == l) by (nonlinear_arith)
            requires
                0 <= h < 16,
                0 <= l < 16,
                v == h * 16 + l,
        ;
        assert(hex_lower_digit(h) == x as char);
        assert(hex_lower_digit(l) == y as char);
        let d = hex_decode_bytes(b);
        assert(d == seq![v] + hex_decode_bytes(rest));
        assert(d.drop_first() == hex_decode_bytes(rest));
        assert(hex_lower(d) == seq![x as char, y as char] + hex_lower(hex_decode_bytes(rest)));
        assert(b.map_values(|x: u8| x as char) == seq![x as char, y as char] + rest.map_values(
            |x: u8| x as char,
        ));
    }
}

/// Lowercase hex text with an even number of digits survives the trip
/// through base64url: converting a KID to base64url and back gives the KID.
pub proof fn law_hex_b64_roundtrip(hex: Seq<char>)
    requires
        hex.len() % 2 == 0,
        forall|i: int| 0 <= i < hex.len() ==> is_lower_hex(#[trigger] hex[i]),
    ensures
        hex_decodable(hex),
        kid_hex(b64url(hex_bytes(hex))) == hex,
{
    assert(is_ascii_chars(hex));
    is_ascii_chars_encode_utf8(hex);
    let b = encode_utf8(hex);
    encode_utf8_valid_utf8(hex);
    assert forall|i: int| 0 <= i < b.len() implies is_lower_hex(#[trigger] b[i] as char) by {
        assert(hex[i] as u8 == b[i]);
        assert((hex[i] as u8) as char == hex[i]);
    }
    assert forall|i: int| 0 <= i <= b.len() && i % 2 == 0 implies #[trigger] is_char_boundary(
        b,
        i,
    ) by {
        if i == b.len() {
            is_char_boundary_start_end_of_seq(b);
        } else {
            is_char_boundary_iff_not_is_continuation_byte(b, i);
            assert(hex[i] as u8 == b[i]);
        }
    }
    lemma_hex_pairs_roundtrip(b);
    assert(b.map_values(|x: u8| x as char) == hex) by {
        assert forall|i: int| 0 <= i < hex.len() implies b.map_values(|x: u8| x as char)[i]
            == hex[i] by {
            assert(hex[i] as u8 == b[i]);
            assert((hex[i] as u8) as char == hex[i]);
        }
    }
    lemma_kid_hex_of_b64url(hex_bytes(hex));
}


/// Without requested KIDs, the license holds every key of the playlist.
pub proof fn law_license_without_kids(
    keys: Map<Seq<char>, Seq<char>>,
    pairs: Seq<(Seq<char>, Seq<char>)>,
)
    ensures
        license_keys(keys, pairs, Seq::empty()) == all_keys(pairs),
{
}

proof fn lemma_matched_contains(keys: Map<Seq<char>, Seq<char>>, kids: Seq<Seq<char>>, i: int)
    requires
        0 <= i < kids.len(),
        keys.contains_key(kid_hex(kids[i])),
    ensures
        matched_keys(keys, kids).contains(jwk_spec(kids[i], keys[kid_hex(kids[i])])),
    decreases kids.len(),
{
    let prev = matched_keys(keys, kids.drop_last());
    if i == kids.len() - 1 {
        assert(matched_keys(keys, kids) == prev.push(jwk_spec(kids[i], keys[kid_hex(kids[i])])));
        assert(matched_keys(keys, kids)[prev.len() as int] == jwk_spec(
            kids[i],
            keys[kid_hex(kids[i])],
        ));
    } else {
        assert(kids.drop_last()[i] == kids[i]);
        lemma_matched_contains(keys, kids.drop_last(), i);
        let j = choose|j: int|
            0 <= j < prev.len() && prev[j] == jwk_spec(kids[i], keys[kid_hex(kids[i])]);
        if keys.contains_key(kid_hex(kids.last())) {
            assert(matched_keys(keys, kids)[j] == prev[j]);
        }
    }
}

/// Every requested KID that the playlist knows is served, with its key.
pub proof fn law_license_serves_known_kids(
    keys: Map<Seq<char>, Seq<char>>,
    pairs: Seq<(Seq<char>, Seq<char>)>,
    kids: Seq<Seq<char>>,
    i: int,
)
    requires
        0 <= i < kids.len(),
        keys.contains_key(kid_hex(kids[i])),
    ensures
        license_keys(keys, pairs, kids).contains(jwk_spec(kids[i], keys[kid_hex(kids[i])])),
{
    lemma_matched_contains(keys, kids, i);
}

/// The requested KID `kids[i]` is known, and `jwk` is its key.
pub open spec fn served_by(
    keys: Map<Seq<char>, Seq<char>>,
    kids: Seq<Seq<char>>,
    jwk: JwkSpec,
    i: int,
) -> bool {
    &&& 0 <= i < kids.len()
    &&& keys.contains_key(kid_hex(kids[i]))
    &&& jwk == jwk_spec(kids[i], keys[kid_hex(kids[i])])
}

/// The position among `kids` of the requested KID behind the `j`-th key
/// matched for `kids`.
pub open spec fn served_index(keys: Map<Seq<char>, Seq<char>>, kids: Seq<Seq<char>>, j: int) -> int
    decreases kids.len(),
{
    if kids.len() == 0 {
        0
    } else if j < matched_keys(keys, kids.drop_last()).len() {
        served_index(keys, kids.drop_last(), j)
    } else {
        kids.len() - 1
    }
}

proof fn lemma_matched_served(keys: Map<Seq<char>, Seq<char>>, kids: Seq<Seq<char>>, j: int)
    requires
        0 <= j < matched_keys(keys, kids).len(),
    ensures
        served_by(keys, kids, matched_keys(keys, kids)[j], served_index(keys, kids, j)),
    decreases kids.len(),
{
    let init = kids.drop_last();
    let prev = matched_keys(keys, init);
    let cur = matched_keys(keys, kids);
    let last = kids.len() - 1;
    if j < prev.len() {
        assert(cur[j] == prev[j]);
        lemma_matched_served(keys, init, j);
        let i = served_index(keys, init, j);
        assert(init[i] == kids[i]);
    } else {
        assert(kids.last() == kids[last]);
        assert(cur[j] == jwk_spec(kids[last], keys[kid_hex(kids[last])]));
    }
}

/// When some requested KID is known, the license holds only requested
/// KIDs with their keys: the `j`-th key is that of the known requested KID
/// at position `served_index(keys, kids, j)`; every key is of type `oct`.
pub proof fn law_license_only_requested(
    keys: Map<Seq<char>, Seq<char>>,
    pairs: Seq<(Seq<char>, Seq<char>)>,
    kids: Seq<Seq<char>>,
)
    requires
        exists|i: int| 0 <= i < kids.len() && keys.contains_key(#[trigger] kid_hex(kids[i])),
    ensures
        forall|j: int|
            0 <= j < license_keys(keys, pairs, kids).len() ==> served_by(
                keys,
                kids,
                #[trigger] license_keys(keys, pairs, kids)[j],
                served_index(keys, kids, j),
            ),
        forall|j: int|
            0 <= j < license_keys(keys, pairs, kids).len() ==> (#[trigger] license_keys(
                keys,
                pairs,
                kids,
            )[j]).kty == "oct"@,
{
    let i0 = choose|i: int| 0 <= i < kids.len() && keys.contains_key(#[trigger] kid_hex(kids[i]));
    lemma_matched_contains(keys, kids, i0);
    assert(license_keys(keys, pairs, kids) == matched_keys(keys, kids));
    assert forall|j: int| 0 <= j < license_keys(keys, pairs, kids).len() implies served_by(
        keys,
        kids,
        #[trigger] license_keys(keys, pairs, kids)[j],
        served_index(keys, kids, j),
    ) by {
        lemma_matched_served(keys, kids, j);
    }
}


/// The ClearKey flow end to end: for a stream line
/// `URL|license_key=KID:KEY` of 128-bit hex values, a player that asks
/// for the KID (base64url of its bytes) can be served, and gets exactly
/// one key: type `oct`, that KID, and the base64url of the KEY's bytes.
pub proof fn law_playlist_key_is_licensed(
    id: nat,
    extinf: Seq<char>,
    url: Seq<char>,
    kid: Seq<char>,
    key: Seq<char>,
    pairs: Seq<(Seq<char>, Seq<char>)>,
)
    requires
        forall|i: int| 0 <= i < url.len() ==> url[i] != '|',
        is_hex_128(kid),
        is_hex_128(key),
    ensures
        ({
            let keys = channel_spec(id, extinf, url + "|license_key="@ + kid + ":"@ + key).params.clear_keys;
            let kid_b64 = b64url(hex_bytes(ascii_lower_seq(kid)));
            &&& license_inputs_ok(keys, pairs, seq![kid_b64])
            &&& license_keys(keys, pairs, seq![kid_b64]) == seq![
                JwkSpec { kty: "oct"@, kid: kid_b64, k: b64url(hex_bytes(ascii_lower_seq(key))) },
            ]
        }),
{
    law_clearkey_pair(id, extinf, url, kid, key);
    let keys = channel_spec(id, extinf, url + "|license_key="@ + kid + ":"@ + key).params.clear_keys;
    let lk = ascii_lower_seq(kid);
    let lv = ascii_lower_seq(key);
    assert forall|i: int| 0 <= i < lk.len() implies is_lower_hex(#[trigger] lk[i]) by {
        assert(is_hex_digit(kid[i]));
    }
    assert forall|i: int| 0 <= i < lv.len() implies is_lower_hex(#[trigger] lv[i]) by {
        assert(is_hex_digit(key[i]));
    }
    law_hex_b64_roundtrip(lk);
    law_hex_b64_roundtrip(lv);
    let kid_b64 = b64url(hex_bytes(lk));
    let kids = seq![kid_b64];
    assert(kid_hex(kids[0]) == lk);
    assert(keys.contains_key(lk) && keys[lk] == lv);
    assert(kids.drop_last() == Seq::<Seq<char>>::empty());
    assert(kids.last() == kid_b64);
    assert(matched_keys(keys, Seq::<Seq<char>>::empty()) == Seq::<JwkSpec>::empty());
    assert(matched_keys(keys, kids) == Seq::<JwkSpec>::empty().push(jwk_spec(kid_b64, lv)));
}

} // verus!

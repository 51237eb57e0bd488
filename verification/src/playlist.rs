//! M3U8 playlist parsing: channels, their upstream headers and ClearKey keys.

use vstd::prelude::*;
use vstd::utf8::{
    decode_utf8, decode_utf8_encode_utf8, encode_scalar, encode_utf8, encode_utf8_decode_utf8,
    encode_utf8_valid_utf8, is_ascii_chars, is_ascii_chars_encode_utf8, is_char_boundary,
    is_char_boundary_iff_not_is_continuation_byte, is_char_boundary_start_end_of_seq,
    leading_byte_width_1, valid_utf8_split, char_is_scalar,
};
use crate::string_map::StringMap;
use crate::text::{
    ascii_lower_seq, chars_of, contains, contains_seq, find_char, find_char_from,
    has_prefix, has_suffix, is_ws, lemma_find_char_from, line_ranges, lines_of, matches_at,
    ranges_match, split_segments, string_of, strip_char, strip_char_bounds, trim, trim_bounds,
    trim_end, trim_start,
};
use crate::unicode::{
    chars_eq, lemma_encode_utf8_concat, lemma_lower_seq_ascii, lemma_lower_seq_concat,
    lower_char, lower_seq, lowercase,
};

verus! {

// ─── Model ──────────────────────────────────────────────────────────────────

/// What a channel line of the playlist says, as mathematical values.
pub struct ChannelSpec {
    pub id: nat,
    pub extinf: Seq<char>,
    pub stream_url: Seq<char>,
    pub params: Params,
}

/// The settings carried by the `|key=value&…` block of a stream line.
pub struct Params {
    /// Headers to send upstream: `user-agent` and `referer`.
    pub headers: Map<Seq<char>, Seq<char>>,
    /// ClearKey keys: lowercase hex KID to lowercase hex key.
    pub clear_keys: Map<Seq<char>, Seq<char>>,
    pub license_type: Option<Seq<char>>,
    pub license_url: Option<Seq<char>>,
}

pub open spec fn no_params() -> Params {
    Params {
        headers: Map::empty(),
        clear_keys: Map::empty(),
        license_type: None,
        license_url: None,
    }
}

/// An ASCII hexadecimal digit (`char::is_ascii_hexdigit`).
pub open spec fn is_hex_digit(c: char) -> bool {
    ('0' <= c && c <= '9') || ('a' <= c && c <= 'f') || ('A' <= c && c <= 'F')
}

/// A 128-bit ClearKey identifier or key: 32 hexadecimal digits.
pub open spec fn is_hex_128(s: Seq<char>) -> bool {
    s.len() == 32 && forall|i: int| 0 <= i < s.len() ==> is_hex_digit(#[trigger] s[i])
}

/// A `referer=` value: surrounding double quotes, then single quotes, are
/// removed; an empty result is ignored.
pub open spec fn referer_step(p: Params, v: Seq<char>) -> Params {
    let w = strip_char(strip_char(v, '"'), '\'');
    if w.len() > 0 {
        Params { headers: p.headers.insert("referer"@, w), ..p }
    } else {
        p
    }
}

/// A `license_key=` value: an `http(s)://` URL is a license server; a
/// `KID:KEY` pair whose parts, trimmed and lowercased, are 128-bit hex
/// values is a ClearKey key (stored lowercased); anything else is taken as
/// a license server URL.
pub open spec fn license_key_step(p: Params, val: Seq<char>) -> Params {
    if has_prefix(val, "http://"@) || has_prefix(val, "https://"@) {
        Params { license_url: Some(val), ..p }
    } else {
        match find_char_from(val, ':', 0) {
            Some(i) if is_hex_128(lower_seq(trim(val.take(i)))) && is_hex_128(
                lower_seq(trim(val.skip(i + 1))),
            ) => Params {
                clear_keys: p.clear_keys.insert(
                    lower_seq(trim(val.take(i))),
                    lower_seq(trim(val.skip(i + 1))),
                ),
                ..p
            },
            _ => Params { license_url: Some(val), ..p },
        }
    }
}

/// A `User-Agent=` value: one whose lowercase starts with `referrer=` or
/// `referer=` names the referer (the text after its first `=`); any other
/// non-empty value is the user agent.
pub open spec fn user_agent_step(p: Params, val: Seq<char>) -> Params {
    let l = lower_seq(val);
    if has_prefix(l, "referrer="@) || has_prefix(l, "referer="@) {
        referer_step(
            p,
            match find_char_from(val, '=', 0) {
                Some(i) => val.skip(i + 1),
                None => val,
            },
        )
    } else if val.len() > 0 {
        Params { headers: p.headers.insert("user-agent"@, val), ..p }
    } else {
        p
    }
}

/// `t` without the lowercase ASCII `key` in front, compared without regard
/// to case: when `t` has at least as many UTF-8 bytes as `key` and its
/// first that many bytes lowercase to `key`, the text after those bytes.
pub open spec fn strip_ci(t: Seq<char>, key: Seq<char>) -> Option<Seq<char>> {
    let tb = encode_utf8(t);
    let n = encode_utf8(key).len() as int;
    if tb.len() < n {
        None
    } else if lower_seq(decode_utf8(tb.take(n))) == key {
        Some(decode_utf8(tb.skip(n)))
    } else {
        None
    }
}

/// The comparison of `strip_ci` cuts `t` between two characters (or `t`
/// is shorter than `key`); a cut inside a character is refused.
pub open spec fn strip_ok(t: Seq<char>, key: Seq<char>) -> bool {
    let tb = encode_utf8(t);
    let n = encode_utf8(key).len() as int;
    tb.len() < n || is_char_boundary(tb, n)
}

/// One `key=value` token, trimmed; the keys are tried in this order and
/// unknown keys are ignored.
pub open spec fn param_step(p: Params, token: Seq<char>) -> Params {
    let t = trim(token);
    match strip_ci(t, "license_type="@) {
        Some(v) => Params { license_type: Some(v), ..p },
        None => match strip_ci(t, "license_key="@) {
            Some(v) => license_key_step(p, v),
            None => match strip_ci(t, "user-agent="@) {
                Some(v) => user_agent_step(p, v),
                None => match strip_ci(t, "referrer="@) {
                    Some(v) => referer_step(p, v),
                    None => match strip_ci(t, "referer="@) {
                        Some(v) => referer_step(p, v),
                        None => p,
                    },
                },
            },
        },
    }
}

/// Every key comparison that `param_step` makes on the token cuts it
/// between two characters.
pub open spec fn token_ok(token: Seq<char>) -> bool {
    let t = trim(token);
    &&& strip_ok(t, "license_type="@)
    &&& strip_ci(t, "license_type="@) is None ==> strip_ok(t, "license_key="@)
    &&& strip_ci(t, "license_type="@) is None && strip_ci(t, "license_key="@) is None ==> strip_ok(
        t,
        "user-agent="@,
    )
    &&& strip_ci(t, "license_type="@) is None && strip_ci(t, "license_key="@) is None && strip_ci(
        t,
        "user-agent="@,
    ) is None ==> strip_ok(t, "referrer="@)
    &&& strip_ci(t, "license_type="@) is None && strip_ci(t, "license_key="@) is None && strip_ci(
        t,
        "user-agent="@,
    ) is None && strip_ci(t, "referrer="@) is None ==> strip_ok(t, "referer="@)
}

pub open spec fn apply_params(p: Params, tokens: Seq<Seq<char>>) -> Params
    decreases tokens.len(),
{
    if tokens.len() == 0 {
        p
    } else {
        param_step(apply_params(p, tokens.drop_last()), tokens.last())
    }
}

/// Lowercased text that starts with one of the parameter keys.
pub open spec fn starts_with_key(l: Seq<char>) -> bool {
    ||| has_prefix(l, "user-agent="@)
    ||| has_prefix(l, "referer="@)
    ||| has_prefix(l, "referrer="@)
    ||| has_prefix(l, "license_type="@)
    ||| has_prefix(l, "license_key="@)
}

/// An `&` that starts a new token: the text after it starts with a known
/// key, compared without regard to case. Other `&` characters belong to
/// the value (URLs and user agents contain them).
pub open spec fn param_cut(s: Seq<char>) -> spec_fn(int) -> bool {
    |i: int| s[i] == '&' && starts_with_key(lower_seq(s.skip(i + 1)))
}

pub open spec fn param_tokens(flat: Seq<char>) -> Seq<Seq<char>> {
    split_segments(flat, param_cut(flat), flat.len() as int)
}

/// Every token of the parameter block can be compared with the keys.
pub open spec fn params_ok(flat: Seq<char>) -> bool {
    forall|k: int| 0 <= k < param_tokens(flat).len() ==> token_ok(#[trigger] param_tokens(flat)[k])
}

/// The parameter block with every `|` turned into `&`.
pub open spec fn flatten_bars(s: Seq<char>) -> Seq<char> {
    s.map_values(|c: char| if c == '|' { '&' } else { c })
}

/// A stream line: the URL before the first `|`, the parameters after it.
pub open spec fn channel_spec(id: nat, extinf: Seq<char>, raw: Seq<char>) -> ChannelSpec {
    match find_char_from(raw, '|', 0) {
        Some(i) => ChannelSpec {
            id,
            extinf,
            stream_url: trim(raw.take(i)),
            params: apply_params(no_params(), param_tokens(flatten_bars(raw.skip(i + 1)))),
        },
        None => ChannelSpec { id, extinf, stream_url: trim(raw), params: no_params() },
    }
}

/// A stream line whose parameter block can be parsed.
pub open spec fn channel_ok(raw: Seq<char>) -> bool {
    match find_char_from(raw, '|', 0) {
        Some(i) => params_ok(flatten_bars(raw.skip(i + 1))),
        None => true,
    }
}

/// Playlist scanning state: the pending `#EXTINF` line and the channels so far.
pub struct ScanState {
    pub pending: Option<Seq<char>>,
    pub channels: Seq<ChannelSpec>,
}

/// One playlist line: `#EXTINF…` becomes pending; a URL line (non-empty,
/// not a comment) makes a channel of the pending `#EXTINF` line, if any;
/// other lines are skipped. Lines are trimmed first.
pub open spec fn scan_step(st: ScanState, raw_line: Seq<char>) -> ScanState {
    let line = trim(raw_line);
    if has_prefix(line, "#EXTINF"@) {
        ScanState { pending: Some(line), channels: st.channels }
    } else if line.len() > 0 && line[0] != '#' {
        match st.pending {
            Some(info) => ScanState {
                pending: None,
                channels: st.channels.push(channel_spec(st.channels.len(), info, line)),
            },
            None => st,
        }
    } else {
        st
    }
}

pub open spec fn scan_lines(lines: Seq<Seq<char>>) -> ScanState
    decreases lines.len(),
{
    if lines.len() == 0 {
        ScanState { pending: None, channels: Seq::empty() }
    } else {
        scan_step(scan_lines(lines.drop_last()), lines.last())
    }
}

/// The channels of a playlist, in order.
pub open spec fn playlist_spec(content: Seq<char>) -> Seq<ChannelSpec> {
    scan_lines(lines_of(content)).channels
}

/// The line makes a channel in scanning state `st`.
pub open spec fn takes_channel(st: ScanState, raw_line: Seq<char>) -> bool {
    let line = trim(raw_line);
    &&& !has_prefix(line, "#EXTINF"@)
    &&& line.len() > 0
    &&& line[0] != '#'
    &&& st.pending is Some
}

/// Every stream line of the playlist that makes a channel can be parsed.
pub open spec fn playlist_ok(content: Seq<char>) -> bool {
    forall|i: int|
        0 <= i < lines_of(content).len() && takes_channel(
            scan_lines(lines_of(content).take(i)),
            #[trigger] lines_of(content)[i],
        ) ==> channel_ok(trim(lines_of(content)[i]))
}

proof fn lemma_scan_ids(lines: Seq<Seq<char>>)
    ensures
        forall|i: int|
            0 <= i < scan_lines(lines).channels.len() ==> #[trigger] scan_lines(
                lines,
            ).channels[i].id == i,
    decreases lines.len(),
{
    if lines.len() > 0 {
        lemma_scan_ids(lines.drop_last());
    }
}

/// Channels are numbered in playlist order: the `i`-th channel has id `i`.
pub proof fn law_channel_ids(content: Seq<char>)
    ensures
        forall|i: int|
            0 <= i < playlist_spec(content).len() ==> #[trigger] playlist_spec(content)[i].id == i,
{
    lemma_scan_ids(lines_of(content));
}


// ─── Channels ───────────────────────────────────────────────────────────────

/// A single IPTV channel parsed from the M3U8 playlist.
#[derive(Debug)]
pub struct Channel {
    pub id: usize,
    pub extinf: String,
    pub stream_url: String,
    /// HTTP headers to inject when fetching the upstream (User-Agent, Referer…)
    pub headers: StringMap,
    /// ClearKey DRM keys:  kid_hex → key_hex
    pub clear_keys: StringMap,
    pub license_type: Option<String>,
    pub license_url: Option<String>,
}

impl View for Channel {
    type V = ChannelSpec;

    open spec fn view(&self) -> ChannelSpec {
        ChannelSpec {
            id: self.id as nat,
            extinf: self.extinf@,
            stream_url: self.stream_url@,
            params: Params {
                headers: self.headers@,
                clear_keys: self.clear_keys@,
                license_type: self.license_type.deep_view(),
                license_url: self.license_url.deep_view(),
            },
        }
    }
}

/// The stream is a DASH manifest: its URL contains `.mpd` or ends with `/manifest`.
pub open spec fn is_dash_url(url: Seq<char>) -> bool {
    contains(url, ".mpd"@) || has_suffix(url, "/manifest"@)
}

impl Channel {
    /// Returns true when the stream is a DASH manifest
    pub fn is_dash(&self) -> (b: bool)
        ensures
            b == is_dash_url(self.stream_url@),
    {
        let u = chars_of(self.stream_url.as_str());
        let mpd = chars_of(".mpd");
        let manifest = chars_of("/manifest");
        if contains_seq(u.as_slice(), mpd.as_slice()) {
            return true;
        }
        manifest.len() <= u.len() && matches_at(u.as_slice(), u.len() - manifest.len(), manifest.as_slice())
    }
}

// ─── Parameters ─────────────────────────────────────────────────────────────

/// The parameter settings being collected for one channel.
struct ParamsExec {
    headers: StringMap,
    clear_keys: StringMap,
    license_type: Option<String>,
    license_url: Option<String>,
}

impl View for ParamsExec {
    type V = Params;

    closed spec fn view(&self) -> Params {
        Params {
            headers: self.headers@,
            clear_keys: self.clear_keys@,
            license_type: self.license_type.deep_view(),
            license_url: self.license_url.deep_view(),
        }
    }
}

/// Lowercased text that starts with a known key.
fn key_first(l: &[char]) -> (b: bool)
    ensures
        b == starts_with_key(l@),
{
    let ua = chars_of("user-agent=");
    let re = chars_of("referer=");
    let rr = chars_of("referrer=");
    let lt = chars_of("license_type=");
    let lk = chars_of("license_key=");
    matches_at(l, 0, ua.as_slice()) || matches_at(l, 0, re.as_slice()) || matches_at(
        l,
        0,
        rr.as_slice(),
    ) || matches_at(l, 0, lt.as_slice()) || matches_at(l, 0, lk.as_slice())
}

/// Split `s` at `&` only when the text after `&` starts with a known key
/// (case-insensitive); the pieces are returned as positions in `s`.
pub(crate) fn token_ranges(s: &[char]) -> (r: Vec<(usize, usize)>)
    ensures
        ranges_match(s@, r@, param_tokens(s@)),
{
    let ghost sv = s@;
    let ghost cut = param_cut(sv);
    let mut r: Vec<(usize, usize)> = Vec::new();
    let mut start: usize = 0;
    let mut i: usize = 0;
    let ghost mut segs = split_segments(sv, cut, 0);
    while i < s.len()
        invariant
            sv == s@,
            cut == param_cut(sv),
            start <= i <= sv.len(),
            segs == split_segments(sv, cut, i as int),
            segs.len() >= 1,
            segs.last() == sv.subrange(start as int, i as int),
            r@.len() == segs.len() - 1,
            forall|j: int|
                0 <= j < r@.len() ==> #[trigger] r@[j].0 <= r@[j].1 <= sv.len()
                    && sv.subrange(r@[j].0 as int, r@[j].1 as int) == segs[j],
        decreases sv.len() - i,
    {
        let ghost prev = segs;
        let is_cut = if s[i] == '&' {
            let low = lowercase(&s[i + 1..s.len()]);
            assert(sv.subrange(i + 1, sv.len() as int) == sv.skip(i + 1));
            key_first(low.as_slice())
        } else {
            false
        };
        if is_cut {
            assert(cut(i as int));
            r.push((start, i));
            start = i + 1;
            proof {
                segs = prev.push(Seq::empty());
            }
        } else {
            assert(!cut(i as int));
            assert(sv.subrange(start as int, i + 1) == prev.last().push(sv[i as int]));
            proof {
                segs = prev.update(prev.len() - 1, prev.last().push(sv[i as int]));
            }
            assert(forall|j: int| 0 <= j < prev.len() - 1 ==> segs[j] == prev[j]);
        }
        assert(segs == split_segments(sv, cut, i + 1));
        i = i + 1;
    }
    r.push((start, s.len()));
    r
}

fn is_hex_digit_char(c: char) -> (b: bool)
    ensures
        b == is_hex_digit(c),
{
    ('0' <= c && c <= '9') || ('a' <= c && c <= 'f') || ('A' <= c && c <= 'F')
}

fn is_hex_128_chars(s: &[char]) -> (b: bool)
    ensures
        b == is_hex_128(s@),
{
    if s.len() != 32 {
        return false;
    }
    for i in 0..32
        invariant
            s@.len() == 32,
            forall|j: int| 0 <= j < i ==> is_hex_digit(#[trigger] s@[j]),
    {
        if !is_hex_digit_char(s[i]) {
            return false;
        }
    }
    true
}

/// Handles the value of a `referer=` setting.
fn apply_referer(v: &[char], p: &mut ParamsExec)
    ensures
        final(p)@ == referer_step(old(p)@, v@),
{
    assert(v@.subrange(0, v@.len() as int) == v@);
    let (a, b) = strip_char_bounds(v, 0, v.len(), '"');
    let (c, d) = strip_char_bounds(v, a, b, '\'');
    if c < d {
        p.headers.insert("referer".to_owned(), string_of(&v[c..d]));
    }
}

/// Handles the value of a `license_key=` setting.
fn parse_license_key(val: &[char], p: &mut ParamsExec)
    ensures
        final(p)@ == license_key_step(old(p)@, val@),
{
    let http = chars_of("http://");
    let https = chars_of("https://");
    if matches_at(val, 0, http.as_slice()) || matches_at(val, 0, https.as_slice()) {
        p.license_url = Some(string_of(val));
        return;
    }
    // Expect  32-hex:32-hex
    if let Some(i) = find_char(val, ':', 0) {
        assert(val@.subrange(0, i as int) == val@.take(i as int));
        assert(val@.subrange(i + 1, val@.len() as int) == val@.skip(i + 1));
        let (a, b) = trim_bounds(val, 0, i);
        let (c, d) = trim_bounds(val, i + 1, val.len());
        let kid = lowercase(&val[a..b]);
        let key = lowercase(&val[c..d]);
        if is_hex_128_chars(kid.as_slice()) && is_hex_128_chars(key.as_slice()) {
            p.clear_keys.insert(string_of(kid.as_slice()), string_of(key.as_slice()));
            return;
        }
    }
    // Fallback: treat as URL
    p.license_url = Some(string_of(val));
}

/// Handles the value of a `User-Agent=` setting.
fn parse_user_agent(val: &[char], p: &mut ParamsExec)
    ensures
        final(p)@ == user_agent_step(old(p)@, val@),
{
    let lower = lowercase(val);
    let referrer = chars_of("referrer=");
    let referer = chars_of("referer=");
    if matches_at(lower.as_slice(), 0, referrer.as_slice()) || matches_at(
        lower.as_slice(),
        0,
        referer.as_slice(),
    ) {
        let start = match find_char(val, '=', 0) {
            Some(i) => i + 1,
            None => 0,
        };
        assert(val@.subrange(start as int, val@.len() as int) == match find_char_from(
            val@,
            '=',
            0,
        ) {
            Some(i) => val@.skip(i + 1),
            None => val@,
        });
        apply_referer(&val[start..val.len()], p);
    } else if val.len() > 0 {
        p.headers.insert("user-agent".to_owned(), string_of(val));
    }
}

/// The comparison of `strip_key` cuts `t` between two characters.
fn strip_fits(t: &str, key: &str) -> (b: bool)
    ensures
        b == strip_ok(t@, key@),
{
    let n = key.as_bytes().len();
    t.as_bytes().len() < n || t.is_char_boundary(n)
}

/// `t` without `key` when its first key-length bytes lowercase to `key`
/// (`key` is lowercase).
fn strip_key(t: &str, key: &str) -> (r: Option<String>)
    requires
        strip_ok(t@, key@),
    ensures
        match r {
            Some(v) => strip_ci(t@, key@) == Some(v@),
            None => strip_ci(t@, key@) is None,
        },
{
    let n = key.as_bytes().len();
    if t.as_bytes().len() < n {
        return None;
    }
    let (head, rest) = t.split_at(n);
    proof {
        encode_utf8_decode_utf8(head@);
        encode_utf8_decode_utf8(rest@);
        assert(encode_utf8(t@).take(n as int) == encode_utf8(t@).subrange(0, n as int));
        assert(encode_utf8(t@).skip(n as int) == encode_utf8(t@).subrange(
            n as int,
            encode_utf8(t@).len() as int,
        ));
    }
    let hc = chars_of(head);
    let lower = lowercase(hc.as_slice());
    let kc = chars_of(key);
    if chars_eq(lower.as_slice(), kc.as_slice()) {
        Some(rest.to_owned())
    } else {
        None
    }
}

/// Handles one `key=value` token of the parameter block; `false` when a
/// key comparison would cut the token inside a character.
fn apply_token(tok: &[char], p: &mut ParamsExec) -> (ok: bool)
    ensures
        ok == token_ok(tok@),
        ok ==> final(p)@ == param_step(old(p)@, tok@),
{
    assert(tok@.subrange(0, tok@.len() as int) == tok@);
    let (a, b) = trim_bounds(tok, 0, tok.len());
    let text = string_of(&tok[a..b]);
    let t = text.as_str();
    if !strip_fits(t, "license_type=") {
        return false;
    }
    if let Some(v) = strip_key(t, "license_type=") {
        p.license_type = Some(v);
        return true;
    }
    if !strip_fits(t, "license_key=") {
        return false;
    }
    if let Some(v) = strip_key(t, "license_key=") {
        let vc = chars_of(v.as_str());
        parse_license_key(vc.as_slice(), p);
        return true;
    }
    if !strip_fits(t, "user-agent=") {
        return false;
    }
    if let Some(v) = strip_key(t, "user-agent=") {
        let vc = chars_of(v.as_str());
        parse_user_agent(vc.as_slice(), p);
        return true;
    }
    if !strip_fits(t, "referrer=") {
        return false;
    }
    if let Some(v) = strip_key(t, "referrer=") {
        let vc = chars_of(v.as_str());
        apply_referer(vc.as_slice(), p);
        return true;
    }
    if !strip_fits(t, "referer=") {
        return false;
    }
    if let Some(v) = strip_key(t, "referer=") {
        let vc = chars_of(v.as_str());
        apply_referer(vc.as_slice(), p);
    }
    true
}

/// Parse the `key=value&key=value` block that follows the `|` in a stream line.
///
/// The tricky parts:
///  - Values can contain `=` (e.g. `User-Agent=Mozilla/5.0 ...`)
///  - Values can contain `&` inside URLs
///  - `User-Agent=referrer=https://…` means the UA IS the referer
///  - `license_key=KID:KEY` is a ClearKey pair
///  - `license_key=https://…` is a Widevine license URL
fn parse_params(flat: &[char], p: &mut ParamsExec) -> (ok: bool)
    ensures
        ok == params_ok(flat@),
        ok ==> final(p)@ == apply_params(old(p)@, param_tokens(flat@)),
{
    let tokens = token_ranges(flat);
    let ghost ts = param_tokens(flat@);
    let n = tokens.len();
    for j in 0..n
        invariant
            n == tokens@.len(),
            ts == param_tokens(flat@),
            ranges_match(flat@, tokens@, ts),
            forall|k: int| 0 <= k < j ==> token_ok(#[trigger] ts[k]),
            p@ == apply_params(old(p)@, ts.take(j as int)),
    {
        let (lo, hi) = tokens[j];
        assert(tokens@[j as int].0 <= tokens@[j as int].1);
        if !apply_token(&flat[lo..hi], p) {
            assert(!token_ok(ts[j as int]));
            return false;
        }
        assert(ts.take(j + 1).drop_last() == ts.take(j as int));
    }
    assert(ts.take(n as int) == ts);
    true
}

/// The parameter block with every `|` turned into `&`.
fn flatten(block: &[char]) -> (v: Vec<char>)
    ensures
        v@ == flatten_bars(block@),
{
    let mut v: Vec<char> = Vec::new();
    let n = block.len();
    for i in 0..n
        invariant
            n == block@.len(),
            v@ == flatten_bars(block@.take(i as int)),
    {
        let c = block[i];
        v.push(if c == '|' { '&' } else { c });
        assert(flatten_bars(block@.take(i + 1)) == flatten_bars(block@.take(i as int)).push(
            if c == '|' { '&' } else { c },
        ));
    }
    assert(block@.take(n as int) == block@);
    v
}

/// The channel of a stream line; `None` when its parameter block cannot
/// be parsed.
fn channel_from_chars(id: usize, extinf: String, raw: &[char]) -> (r: Option<Channel>)
    ensures
        match r {
            Some(ch) => channel_ok(raw@) && ch@ == channel_spec(id as nat, extinf@, raw@),
            None => !channel_ok(raw@),
        },
{
    let mut p = ParamsExec {
        headers: StringMap::new(),
        clear_keys: StringMap::new(),
        license_type: None,
        license_url: None,
    };
    assert(p@ == no_params());
    // Split on the first `|` → stream URL + param block
    let stream_url = match find_char(raw, '|', 0) {
        Some(i) => {
            assert(raw@.subrange(0, i as int) == raw@.take(i as int));
            let (a, b) = trim_bounds(raw, 0, i);
            let flat = flatten(&raw[i + 1..raw.len()]);
            assert(raw@.subrange(i + 1, raw@.len() as int) == raw@.skip(i + 1));
            if !parse_params(flat.as_slice(), &mut p) {
                return None;
            }
            string_of(&raw[a..b])
        },
        None => {
            assert(raw@.subrange(0, raw@.len() as int) == raw@);
            let (a, b) = trim_bounds(raw, 0, raw.len());
            string_of(&raw[a..b])
        },
    };
    Some(
        Channel {
            id,
            extinf,
            stream_url,
            headers: p.headers,
            clear_keys: p.clear_keys,
            license_type: p.license_type,
            license_url: p.license_url,
        },
    )
}

/// Parses one stream line (`URL|key=value&…`) into channel `id`.
pub fn parse_channel(id: usize, extinf: String, raw: &str) -> (ch: Channel)
    requires
        channel_ok(raw@),
    ensures
        ch@ == channel_spec(id as nat, extinf@, raw@),
{
    let cs = chars_of(raw);
    channel_from_chars(id, extinf, cs.as_slice()).unwrap()
}

/// Whether a stream line can be parsed.
pub fn channel_parsable(raw: &str) -> (b: bool)
    ensures
        b == channel_ok(raw@),
{
    let cs = chars_of(raw);
    channel_from_chars(0, String::new(), cs.as_slice()).is_some()
}

/// The model of each parsed channel.
pub open spec fn channels_view(cs: Seq<Channel>) -> Seq<ChannelSpec> {
    cs.map_values(|c: Channel| c@)
}

/// Parses an M3U8 playlist: every URL line that follows an `#EXTINF` line
/// becomes a channel, numbered from 0 in order of appearance.
pub fn parse_playlist(content: &str) -> (channels: Vec<Channel>)
    requires
        playlist_ok(content@),
    ensures
        channels_view(channels@) == playlist_spec(content@),
{
    let cs = chars_of(content);
    let ranges = line_ranges(cs.as_slice());
    let ghost lines = lines_of(cs@);
    let extinf = chars_of("#EXTINF");
    let mut channels: Vec<Channel> = Vec::new();
    let mut pending: Option<String> = None;
    let n = ranges.len();
    assert(channels_view(channels@) == Seq::<ChannelSpec>::empty());
    assert(lines.take(0) == Seq::<Seq<char>>::empty());
    for j in 0..n
        invariant
            n == ranges@.len(),
            lines == lines_of(cs@),
            cs@ == content@,
            playlist_ok(content@),
            extinf@ == "#EXTINF"@,
            ranges_match(cs@, ranges@, lines),
            (ScanState { pending: pending.deep_view(), channels: channels_view(channels@) })
                == scan_lines(lines.take(j as int)),
    {
        let ghost before = ScanState {
            pending: pending.deep_view(),
            channels: channels_view(channels@),
        };
        let (lo, hi) = ranges[j];
        assert(ranges@[j as int].0 <= ranges@[j as int].1);
        let (a, b) = trim_bounds(cs.as_slice(), lo, hi);
        let line = &cs[a..b];
        if matches_at(line, 0, extinf.as_slice()) {
            pending = Some(string_of(line));
        } else if line.len() > 0 && line[0] != '#' {
            let cur = pending;
            pending = None;
            match cur {
                Some(info) => {
                    assert(takes_channel(scan_lines(lines.take(j as int)), lines[j as int]));
                    assert(channel_ok(trim(lines_of(content@)[j as int])));
                    let id = channels.len();
                    let text = string_of(line);
                    let ch = parse_channel(id, info, text.as_str());
                    channels.push(ch);
                    assert(channels_view(channels@) == before.channels.push(ch@));
                },
                None => {},
            }
        }
        assert(lines.take(j + 1).drop_last() == lines.take(j as int));
        assert(ScanState { pending: pending.deep_view(), channels: channels_view(channels@) }
            == scan_step(before, lines[j as int]));
    }
    assert(lines.take(n as int) == lines);
    channels
}

/// Whether every channel line of the playlist can be parsed.
pub fn playlist_parsable(content: &str) -> (b: bool)
    ensures
        b == playlist_ok(content@),
{
    let cs = chars_of(content);
    let ranges = line_ranges(cs.as_slice());
    let ghost lines = lines_of(cs@);
    let extinf = chars_of("#EXTINF");
    let mut pending = false;
    let n = ranges.len();
    assert(lines.take(0) == Seq::<Seq<char>>::empty());
    for j in 0..n
        invariant
            n == ranges@.len(),
            lines == lines_of(cs@),
            cs@ == content@,
            extinf@ == "#EXTINF"@,
            ranges_match(cs@, ranges@, lines),
            pending == (scan_lines(lines.take(j as int)).pending is Some),
            forall|i: int|
                0 <= i < j && takes_channel(scan_lines(lines.take(i)), #[trigger] lines[i])
                    ==> channel_ok(trim(lines[i])),
    {
        let ghost before = scan_lines(lines.take(j as int));
        let (lo, hi) = ranges[j];
        assert(ranges@[j as int].0 <= ranges@[j as int].1);
        let (a, b) = trim_bounds(cs.as_slice(), lo, hi);
        let line = &cs[a..b];
        if matches_at(line, 0, extinf.as_slice()) {
            pending = true;
        } else if line.len() > 0 && line[0] != '#' {
            if pending {
                let text = string_of(line);
                if !channel_parsable(text.as_str()) {
                    assert(takes_channel(before, lines[j as int]));
                    return false;
                }
            }
            pending = false;
        }
        proof {
            lemma_pending_step(lines, j as int);
        }
    }
    assert(lines.take(n as int) == lines);
    true
}

/// Whether an `#EXTINF` line is pending after one more line.
proof fn lemma_pending_step(lines: Seq<Seq<char>>, j: int)
    requires
        0 <= j < lines.len(),
    ensures
        (scan_lines(lines.take(j + 1)).pending is Some) <==> (has_prefix(trim(lines[j]), "#EXTINF"@)
            || (!(trim(lines[j]).len() > 0 && trim(lines[j])[0] != '#') && scan_lines(
            lines.take(j),
        ).pending is Some)),
{
    assert(lines.take(j + 1).drop_last() == lines.take(j));
    assert(lines.take(j + 1).last() == lines[j]);
}

/// Parses an M3U8 playlist when every channel line of it can be parsed.
pub fn try_parse_playlist(content: &str) -> (r: Option<Vec<Channel>>)
    ensures
        match r {
            Some(channels) => playlist_ok(content@) && channels_view(channels@) == playlist_spec(
                content@,
            ),
            None => !playlist_ok(content@),
        },
{
    if playlist_parsable(content) {
        Some(parse_playlist(content))
    } else {
        None
    }
}


// ─── Laws ───────────────────────────────────────────────────────────────────

proof fn lemma_trim_unchanged(s: Seq<char>)
    requires
        s.len() > 0,
        !is_ws(s[0]),
        !is_ws(s.last()),
    ensures
        trim(s) == s,
{
    assert(trim_start(s) == s);
    assert(trim_end(s) == s);
}

proof fn lemma_no_cut(s: Seq<char>, cut: spec_fn(int) -> bool, n: int)
    requires
        0 <= n <= s.len(),
        forall|i: int| 0 <= i < n ==> !#[trigger] cut(i),
    ensures
        split_segments(s, cut, n) == seq![s.take(n)],
    decreases n,
{
    if n > 0 {
        lemma_no_cut(s, cut, n - 1);
        assert(s.take(n) == s.take(n - 1).push(s[n - 1]));
    } else {
        assert(s.take(0) == Seq::<char>::empty());
    }
}

proof fn lemma_first_at(s: Seq<char>, c: char, i: int)
    requires
        0 <= i < s.len(),
        s[i] == c,
        forall|j: int| 0 <= j < i ==> s[j] != c,
    ensures
        find_char_from(s, c, 0) == Some(i),
{
    lemma_find_char_from(s, c, 0);
}

/// The first character of a text whose UTF-8 form starts with an ASCII byte
/// is that byte.
proof fn lemma_first_char_ascii(h: Seq<char>, b: u8)
    requires
        h.len() > 0,
        encode_utf8(h).len() > 0,
        encode_utf8(h)[0] == b,
        b < 128,
    ensures
        h[0] as u32 == b as u32,
{
    let v = h[0] as u32;
    char_is_scalar(h[0]);
    assert(encode_utf8(h) == encode_scalar(v) + encode_utf8(h.drop_first()));
    let e = encode_scalar(v);
    assert(e.len() > 0);
    assert(encode_utf8(h)[0] == e[0]);
    if v <= 0x7F {
        assert(leading_byte_width_1(v) == v as u8) by (bit_vector)
            requires
                v <= 0x7F,
        ;
    } else if v <= 0x7FF {
        let x = ((v >> 6) & 0x1F) as u8;
        assert(0xC0u8 | x >= 0xC0u8) by (bit_vector);
    } else if v <= 0xFFFF {
        let x = ((v >> 12) & 0x0F) as u8;
        assert(0xE0u8 | x >= 0xE0u8) by (bit_vector);
    } else {
        let x = ((v >> 18) & 0x7) as u8;
        assert(0xF0u8 | x >= 0xF0u8) by (bit_vector);
    }
}

/// On ASCII text the key comparison is an ASCII-case-insensitive prefix test.
proof fn lemma_strip_ascii(t: Seq<char>, key: Seq<char>)
    requires
        is_ascii_chars(t),
        is_ascii_chars(key),
    ensures
        strip_ok(t, key),
        strip_ci(t, key) == (if key.len() <= t.len() && ascii_lower_seq(t.take(key.len() as int))
            == key {
            Some(t.skip(key.len() as int))
        } else {
            None::<Seq<char>>
        }),
{
    is_ascii_chars_encode_utf8(t);
    is_ascii_chars_encode_utf8(key);
    encode_utf8_valid_utf8(t);
    let tb = encode_utf8(t);
    let n = key.len() as int;
    if n <= t.len() {
        if n < tb.len() {
            is_char_boundary_iff_not_is_continuation_byte(tb, n);
            assert(tb[n] == t[n] as u8);
        } else {
            is_char_boundary_start_end_of_seq(tb);
        }
        let h = t.take(n);
        let r = t.skip(n);
        assert(is_ascii_chars(h)) by {
            assert forall|i: int| 0 <= i < h.len() implies '\0' <= #[trigger] h[i] <= '\u{7f}' by {
                assert(h[i] == t[i]);
            }
        }
        assert(is_ascii_chars(r)) by {
            assert forall|i: int| 0 <= i < r.len() implies '\0' <= #[trigger] r[i] <= '\u{7f}' by {
                assert(r[i] == t[i + n]);
            }
        }
        is_ascii_chars_encode_utf8(h);
        is_ascii_chars_encode_utf8(r);
        assert(encode_utf8(h) == tb.take(n)) by {
            assert forall|i: int| 0 <= i < n implies encode_utf8(h)[i] == tb.take(n)[i] by {
                assert(h[i] == t[i]);
            }
        }
        assert(encode_utf8(r) == tb.skip(n)) by {
            assert forall|i: int| 0 <= i < r.len() implies encode_utf8(r)[i] == tb.skip(n)[i] by {
                assert(r[i] == t[i + n]);
            }
        }
        encode_utf8_decode_utf8(h);
        encode_utf8_decode_utf8(r);
        assert forall|i: int| 0 <= i < h.len() implies (#[trigger] h[i] as u32) < 128 by {
            assert('\0' <= h[i] <= '\u{7f}');
        }
        lemma_lower_seq_ascii(h);
    }
}

/// The lowercase of a text starts with the lowercase of its first character.
proof fn lemma_lower_first(h: Seq<char>)
    requires
        h.len() > 0,
    ensures
        lower_seq(h) == lower_char(h[0]) + lower_seq(h.drop_first()),
{
    assert(h == seq![h[0]] + h.drop_first());
    lemma_lower_seq_concat(seq![h[0]], h.drop_first());
    assert(seq![h[0]].drop_last() == Seq::<char>::empty());
    assert(lower_seq(seq![h[0]]) == lower_seq(Seq::<char>::empty()) + lower_char(h[0]));
}

/// A token that starts with the ASCII letter `u` is not `key=…` for a key
/// that starts with `l`.
proof fn lemma_strip_other_letter(t: Seq<char>, key: Seq<char>)
    requires
        t.len() > 0,
        t[0] == 'u',
        key.len() > 0,
        key[0] == 'l',
        strip_ok(t, key),
    ensures
        strip_ci(t, key) is None,
{
    let tb = encode_utf8(t);
    let n = encode_utf8(key).len() as int;
    if tb.len() >= n {
        encode_utf8_valid_utf8(t);
        let hb = tb.take(n);
        valid_utf8_split(tb, n);
        assert(hb == tb.subrange(0, n));
        decode_utf8_encode_utf8(hb);
        let h = decode_utf8(hb);
        if lower_seq(h) == key {
            assert(tb == encode_scalar(t[0] as u32) + encode_utf8(t.drop_first()));
            assert((t[0] as u32) == 0x75u32);
            assert(leading_byte_width_1(0x75u32) == 0x75u8) by (bit_vector);
            assert(tb[0] == 0x75u8);
            if h.len() == 0 {
                assert(encode_utf8(h) == Seq::<u8>::empty());
                assert(n > 0) by {
                    lemma_lower_seq_concat(Seq::<char>::empty(), Seq::<char>::empty());
                }
            }
            assert(encode_utf8(h)[0] == hb[0]);
            lemma_first_char_ascii(h, 0x75u8);
            lemma_lower_first(h);
            assert(h[0] == 'u');
            assert(lower_seq(h)[0] == 'u');
        }
    }
}

/// A cut at `c` and nowhere else before `n` splits `s[..n]` in two.
proof fn lemma_one_cut(s: Seq<char>, cut: spec_fn(int) -> bool, c: int, n: int)
    requires
        0 <= c < n <= s.len(),
        cut(c),
        forall|i: int| 0 <= i < n && i != c ==> !#[trigger] cut(i),
    ensures
        split_segments(s, cut, n) == seq![s.take(c), s.subrange(c + 1, n)],
    decreases n,
{
    if n == c + 1 {
        lemma_no_cut(s, cut, c);
        assert(s.subrange(c + 1, n) == Seq::<char>::empty());
    } else {
        lemma_one_cut(s, cut, c, n - 1);
        assert(s.subrange(c + 1, n) == s.subrange(c + 1, n - 1).push(s[n - 1]));
    }
}

/// The token `license_key=KID:KEY` with 128-bit hex KID and KEY is plain
/// ASCII without `|` or `&`, can be compared with the keys, and adds the
/// lowercased pair to the ClearKey keys and changes nothing else.
proof fn lemma_clearkey_token(p: Params, kid: Seq<char>, key: Seq<char>)
    requires
        is_hex_128(kid),
        is_hex_128(key),
    ensures
        ("license_key="@ + kid + ":"@ + key).len() == 77,
        forall|i: int| 0 <= i < 77 ==> ({
            let c = #[trigger] ("license_key="@ + kid + ":"@ + key)[i];
            c != '|' && c != '&' && '\0' <= c <= '\u{7f}'
        }),
        token_ok("license_key="@ + kid + ":"@ + key),
        param_step(p, "license_key="@ + kid + ":"@ + key) == (Params {
            clear_keys: p.clear_keys.insert(ascii_lower_seq(kid), ascii_lower_seq(key)),
            ..p
        }),
{
    reveal_strlit("license_key=");
    reveal_strlit("license_type=");
    reveal_strlit(":");
    reveal_strlit("http://");
    reveal_strlit("https://");
    let lk = "license_key="@;
    let block = lk + kid + ":"@ + key;
    assert(block.len() == 77);
    assert forall|i: int| 0 <= i < 77 implies ({
        let c = #[trigger] block[i];
        c != '|' && c != '&' && '\0' <= c <= '\u{7f}'
    }) by {
        if i < 12 {
            assert(block[i] == lk[i]);
        } else if i < 44 {
            assert(block[i] == kid[i - 12]);
            assert(is_hex_digit(kid[i - 12]));
        } else if i == 44 {
        } else {
            assert(block[i] == key[i - 45]);
            assert(is_hex_digit(key[i - 45]));
        }
    }
    assert(is_hex_digit(key[31]));
    lemma_trim_unchanged(block);
    assert(is_ascii_chars(block));
    lemma_strip_ascii(block, "license_type="@);
    lemma_strip_ascii(block, "license_key="@);
    assert(ascii_lower_seq(block.take(13))[8] == 'k');
    assert(strip_ci(block, "license_type="@) is None);
    assert(ascii_lower_seq(block.take(12)) == lk);
    let val = block.skip(12);
    assert(strip_ci(block, "license_key="@) == Some(val));
    assert(token_ok(block));
    assert(val == kid + ":"@ + key);
    assert(is_hex_digit(val[0]));
    if has_prefix(val, "http://"@) {
        assert(val.subrange(0, 7)[0] == val[0]);
    }
    if has_prefix(val, "https://"@) {
        assert(val.subrange(0, 8)[0] == val[0]);
    }
    assert forall|j: int| 0 <= j < 32 implies val[j] != ':' by {
        assert(val[j] == kid[j]);
        assert(is_hex_digit(kid[j]));
    }
    lemma_first_at(val, ':', 32);
    assert(val.take(32) == kid);
    assert(val.skip(33) == key);
    assert(is_hex_digit(kid[0]) && is_hex_digit(kid[31]) && is_hex_digit(key[0]));
    lemma_trim_unchanged(kid);
    lemma_trim_unchanged(key);
    assert forall|i: int| 0 <= i < kid.len() implies (#[trigger] kid[i] as u32) < 128 by {
        assert(is_hex_digit(kid[i]));
    }
    assert forall|i: int| 0 <= i < key.len() implies (#[trigger] key[i] as u32) < 128 by {
        assert(is_hex_digit(key[i]));
    }
    lemma_lower_seq_ascii(kid);
    lemma_lower_seq_ascii(key);
    assert forall|i: int| 0 <= i < 32 implies is_hex_digit(#[trigger] ascii_lower_seq(kid)[i]) by {
        assert(is_hex_digit(kid[i]));
    }
    assert forall|i: int| 0 <= i < 32 implies is_hex_digit(#[trigger] ascii_lower_seq(key)[i]) by {
        assert(is_hex_digit(key[i]));
    }
    assert(license_key_step(p, val) == Params {
        clear_keys: p.clear_keys.insert(ascii_lower_seq(kid), ascii_lower_seq(key)),
        ..p
    });
}

/// The ClearKey law of the playlist format: a stream line
/// `URL|license_key=KID:KEY` with 128-bit hex KID and KEY can be parsed,
/// and gives the channel exactly that key (in lowercase) and no license
/// URL.
pub proof fn law_clearkey_pair(
    id: nat,
    extinf: Seq<char>,
    url: Seq<char>,
    kid: Seq<char>,
    key: Seq<char>,
)
    requires
        forall|i: int| 0 <= i < url.len() ==> url[i] != '|',
        is_hex_128(kid),
        is_hex_128(key),
    ensures
        channel_ok(url + "|license_key="@ + kid + ":"@ + key),
        ({
            let ch = channel_spec(id, extinf, url + "|license_key="@ + kid + ":"@ + key);
            &&& ch.stream_url == trim(url)
            &&& ch.params.clear_keys == Map::<Seq<char>, Seq<char>>::empty().insert(
                ascii_lower_seq(kid),
                ascii_lower_seq(key),
            )
            &&& ch.params.license_url is None
            &&& ch.params.license_type is None
            &&& ch.params.headers == Map::<Seq<char>, Seq<char>>::empty()
        }),
{
    reveal_strlit("|license_key=");
    reveal_strlit("license_key=");
    reveal_strlit(":");
    let raw = url + "|license_key="@ + kid + ":"@ + key;
    let u = url.len() as int;
    assert(raw[u] == '|');
    assert forall|j: int| 0 <= j < u implies raw[j] != '|' by {
        assert(raw[j] == url[j]);
    }
    lemma_first_at(raw, '|', u);
    let block = raw.skip(u + 1);
    assert(block == "license_key="@ + kid + ":"@ + key);
    lemma_clearkey_token(no_params(), kid, key);
    assert(flatten_bars(block) == block);
    lemma_no_cut(block, param_cut(block), block.len() as int);
    assert(block.take(block.len() as int) == block);
    assert(param_tokens(block) == seq![block]);
    assert(params_ok(block));
    assert(seq![block].drop_last() == Seq::<Seq<char>>::empty());
    assert(seq![block].last() == block);
    assert(apply_params(no_params(), Seq::<Seq<char>>::empty()) == no_params());
    assert(raw.take(u) == url);
}

/// Where the parameter block is cut into tokens: at an `&` exactly when
/// the text after it, lowercased, starts with `user-agent=`, `referer=`,
/// `referrer=`, `license_type=` or `license_key=`. Any other `&` stays
/// inside its token.
pub proof fn law_cut_before_keys(s: Seq<char>, i: int)
    requires
        0 <= i < s.len(),
    ensures
        param_cut(s)(i) <==> s[i] == '&' && ({
            let l = lower_seq(s.skip(i + 1));
            ||| has_prefix(l, "user-agent="@)
            ||| has_prefix(l, "referer="@)
            ||| has_prefix(l, "referrer="@)
            ||| has_prefix(l, "license_type="@)
            ||| has_prefix(l, "license_key="@)
        }),
{
}

/// A ClearKey pair followed by its license type: the stream line
/// `URL|license_key=KID:KEY&license_type=T`, with 128-bit hex KID and KEY,
/// can be parsed; the `&` before `license_type=` starts a new token, so the
/// channel gets exactly that key (in lowercase), the license type `T` and
/// no license URL.
pub proof fn law_license_key_then_type(
    id: nat,
    extinf: Seq<char>,
    url: Seq<char>,
    kid: Seq<char>,
    key: Seq<char>,
    t: Seq<char>,
)
    requires
        forall|i: int| 0 <= i < url.len() ==> url[i] != '|',
        is_hex_128(kid),
        is_hex_128(key),
        t.len() > 0,
        !is_ws(t.last()),
        forall|i: int| 0 <= i < t.len() ==> ({
            let c = #[trigger] t[i];
            c != '|' && c != '&' && '\0' <= c <= '\u{7f}'
        }),
    ensures
        channel_ok(url + "|license_key="@ + kid + ":"@ + key + "&license_type="@ + t),
        ({
            let ch = channel_spec(
                id,
                extinf,
                url + "|license_key="@ + kid + ":"@ + key + "&license_type="@ + t,
            );
            &&& ch.stream_url == trim(url)
            &&& ch.params.clear_keys == Map::<Seq<char>, Seq<char>>::empty().insert(
                ascii_lower_seq(kid),
                ascii_lower_seq(key),
            )
            &&& ch.params.license_type == Some(t)
            &&& ch.params.license_url is None
            &&& ch.params.headers == Map::<Seq<char>, Seq<char>>::empty()
        }),
{
    reveal_strlit("|license_key=");
    reveal_strlit("license_key=");
    reveal_strlit("&license_type=");
    reveal_strlit("license_type=");
    reveal_strlit(":");
    let lt = "license_type="@;
    let tok1 = "license_key="@ + kid + ":"@ + key;
    let tok2 = lt + t;
    lemma_clearkey_token(no_params(), kid, key);
    let raw = url + "|license_key="@ + kid + ":"@ + key + "&license_type="@ + t;
    let u = url.len() as int;
    assert(raw[u] == '|');
    assert forall|j: int| 0 <= j < u implies raw[j] != '|' by {
        assert(raw[j] == url[j]);
    }
    lemma_first_at(raw, '|', u);
    let block = raw.skip(u + 1);
    assert(block == tok1 + seq!['&'] + tok2);
    assert(block.len() == 78 + tok2.len());
    assert forall|i: int| 0 <= i < block.len() implies #[trigger] block[i] != '|' && (i != 77
        ==> block[i] != '&') by {
        if i < 77 {
            assert(block[i] == tok1[i]);
        } else if i == 77 {
        } else if i < 91 {
            assert(block[i] == lt[i - 78]);
        } else {
            assert(block[i] == t[i - 91]);
        }
    }
    assert(flatten_bars(block) == block);
    let cut = param_cut(block);
    assert(block.skip(78) == tok2);
    assert(is_ascii_chars(tok2)) by {
        assert forall|i: int| 0 <= i < tok2.len() implies '\0' <= #[trigger] tok2[i] <= '\u{7f}' by {
            if i >= 13 {
                assert(tok2[i] == t[i - 13]);
            }
        }
    }
    assert forall|i: int| 0 <= i < tok2.len() implies (#[trigger] tok2[i] as u32) < 128 by {
        assert('\0' <= tok2[i] <= '\u{7f}');
    }
    lemma_lower_seq_ascii(tok2);
    assert(ascii_lower_seq(tok2).subrange(0, 13) == lt);
    assert(cut(77));
    assert forall|i: int| 0 <= i < block.len() && i != 77 implies !#[trigger] cut(i) by {
        assert(block[i] != '&');
    }
    lemma_one_cut(block, cut, 77, block.len() as int);
    assert(block.take(77) == tok1);
    assert(block.subrange(78, block.len() as int) == tok2);
    let toks = param_tokens(block);
    assert(toks == seq![tok1, tok2]);
    // the second token: `license_type=T`
    assert(tok2.last() == t.last());
    lemma_trim_unchanged(tok2);
    lemma_strip_ascii(tok2, lt);
    assert(ascii_lower_seq(tok2.take(13)) == lt);
    assert(tok2.skip(13) == t);
    assert(strip_ci(tok2, lt) == Some(t));
    assert(token_ok(tok2));
    assert(toks[0] == tok1 && toks[1] == tok2);
    assert(params_ok(block));
    let after = Params {
        clear_keys: no_params().clear_keys.insert(ascii_lower_seq(kid), ascii_lower_seq(key)),
        ..no_params()
    };
    assert(toks.drop_last() == seq![tok1]);
    assert(seq![tok1].drop_last() == Seq::<Seq<char>>::empty());
    assert(apply_params(no_params(), Seq::<Seq<char>>::empty()) == no_params());
    assert(apply_params(no_params(), seq![tok1]) == after);
    assert(apply_params(no_params(), toks) == param_step(after, tok2));
    assert(raw.take(u) == url);
}

/// The header law of the playlist format: a stream line
/// `URL|user-agent=UA` that can be parsed, where the lowercase of the user
/// agent names no referer, sets the channel's `user-agent` header to `UA`
/// and nothing else.
pub proof fn law_user_agent_header(id: nat, extinf: Seq<char>, url: Seq<char>, ua: Seq<char>)
    requires
        forall|i: int| 0 <= i < url.len() ==> url[i] != '|',
        forall|i: int| 0 <= i < ua.len() ==> ua[i] != '|' && ua[i] != '&',
        ua.len() > 0,
        !is_ws(ua.last()),
        !has_prefix(lower_seq(ua), "referrer="@),
        !has_prefix(lower_seq(ua), "referer="@),
        channel_ok(url + "|user-agent="@ + ua),
    ensures
        ({
            let ch = channel_spec(id, extinf, url + "|user-agent="@ + ua);
            &&& ch.stream_url == trim(url)
            &&& ch.params.headers == Map::<Seq<char>, Seq<char>>::empty().insert(
                "user-agent"@,
                ua,
            )
            &&& ch.params.clear_keys == Map::<Seq<char>, Seq<char>>::empty()
            &&& ch.params.license_url is None
            &&& ch.params.license_type is None
        }),
{
    reveal_strlit("|user-agent=");
    reveal_strlit("user-agent=");
    reveal_strlit("license_key=");
    reveal_strlit("license_type=");
    let uk = "user-agent="@;
    let raw = url + "|user-agent="@ + ua;
    let u = url.len() as int;
    assert(raw[u] == '|');
    assert forall|j: int| 0 <= j < u implies raw[j] != '|' by {
        assert(raw[j] == url[j]);
    }
    lemma_first_at(raw, '|', u);
    let block = raw.skip(u + 1);
    assert(block == uk + ua);
    assert forall|i: int| 0 <= i < block.len() implies block[i] != '|' && block[i] != '&' by {
        if i < 11 {
            assert(block[i] == uk[i]);
        } else {
            assert(block[i] == ua[i - 11]);
        }
    }
    assert(flatten_bars(block) == block);
    lemma_no_cut(block, param_cut(block), block.len() as int);
    assert(block.take(block.len() as int) == block);
    assert(param_tokens(block) == seq![block]);
    assert(seq![block].drop_last() == Seq::<Seq<char>>::empty());
    assert(block.last() == ua.last());
    lemma_trim_unchanged(block);
    // the line parses, so every comparison falls between characters
    assert(params_ok(block));
    assert(token_ok(param_tokens(block)[0]));
    assert(block[0] == 'u');
    lemma_strip_other_letter(block, "license_type="@);
    lemma_strip_other_letter(block, "license_key="@);
    // `user-agent=` is matched: its 11 ASCII bytes come first
    let tb = encode_utf8(block);
    lemma_encode_utf8_concat(uk, ua);
    assert(is_ascii_chars(uk));
    is_ascii_chars_encode_utf8(uk);
    assert(tb.take(11) == encode_utf8(uk));
    assert(tb.skip(11) == encode_utf8(ua));
    encode_utf8_decode_utf8(uk);
    encode_utf8_decode_utf8(ua);
    assert forall|i: int| 0 <= i < uk.len() implies (#[trigger] uk[i] as u32) < 128 by {
        assert('\0' <= uk[i] <= '\u{7f}');
    }
    lemma_lower_seq_ascii(uk);
    assert(ascii_lower_seq(uk) == uk);
    assert(strip_ci(block, uk) == Some(ua));
    let after = Params { headers: no_params().headers.insert("user-agent"@, ua), ..no_params() };
    assert(user_agent_step(no_params(), ua) == after);
    assert(param_step(no_params(), block) == after);
    assert(seq![block].last() == block);
    assert(apply_params(no_params(), Seq::<Seq<char>>::empty()) == no_params());
    assert(apply_params(no_params(), seq![block]) == param_step(
        apply_params(no_params(), seq![block].drop_last()),
        seq![block].last(),
    ));
    assert(apply_params(no_params(), seq![block]) == after);
    assert(raw.take(u) == url);
    assert(channel_spec(id, extinf, raw) == ChannelSpec {
        id,
        extinf,
        stream_url: trim(url),
        params: after,
    });
}


proof fn lemma_ascii_sub(s: Seq<char>, lo: int, hi: int)
    requires
        is_ascii_chars(s),
        0 <= lo <= hi <= s.len(),
    ensures
        is_ascii_chars(s.subrange(lo, hi)),
{
    assert forall|i: int| 0 <= i < hi - lo implies '\0' <= #[trigger] s.subrange(lo, hi)[i]
        <= '\u{7f}' by {
        assert(s.subrange(lo, hi)[i] == s[lo + i]);
    }
}

proof fn lemma_trim_ascii(s: Seq<char>)
    requires
        is_ascii_chars(s),
    ensures
        is_ascii_chars(trim_start(s)),
        is_ascii_chars(trim_end(s)),
        is_ascii_chars(trim(s)),
    decreases s.len(),
{
    if s.len() > 0 {
        lemma_ascii_sub(s, 1, s.len() as int);
        assert(s.drop_first() == s.subrange(1, s.len() as int));
        lemma_ascii_sub(s, 0, s.len() - 1);
        assert(s.drop_last() == s.subrange(0, s.len() - 1));
        lemma_trim_ascii(s.drop_first());
        lemma_trim_ascii(s.drop_last());
    }
    lemma_trim_end_ascii(trim_start(s));
}

proof fn lemma_trim_end_ascii(s: Seq<char>)
    requires
        is_ascii_chars(s),
    ensures
        is_ascii_chars(trim_end(s)),
    decreases s.len(),
{
    if s.len() > 0 {
        lemma_ascii_sub(s, 0, s.len() - 1);
        assert(s.drop_last() == s.subrange(0, s.len() - 1));
        lemma_trim_end_ascii(s.drop_last());
    }
}

proof fn lemma_split_ascii(s: Seq<char>, cut: spec_fn(int) -> bool, n: int)
    requires
        is_ascii_chars(s),
        0 <= n <= s.len(),
    ensures
        forall|k: int|
            0 <= k < split_segments(s, cut, n).len() ==> is_ascii_chars(
                #[trigger] split_segments(s, cut, n)[k],
            ),
    decreases n,
{
    if n > 0 {
        lemma_split_ascii(s, cut, n - 1);
        crate::text::lemma_split_segments_len(s, cut, n - 1);
        let r = split_segments(s, cut, n - 1);
        if !cut(n - 1) {
            let l = r.last().push(s[n - 1]);
            assert(is_ascii_chars(r[r.len() - 1]));
            assert forall|i: int| 0 <= i < l.len() implies '\0' <= #[trigger] l[i] <= '\u{7f}' by {
                if i < l.len() - 1 {
                    assert(l[i] == r.last()[i]);
                }
            }
            assert forall|k: int| 0 <= k < split_segments(s, cut, n).len() implies is_ascii_chars(
                #[trigger] split_segments(s, cut, n)[k],
            ) by {
                if k < r.len() - 1 {
                    assert(split_segments(s, cut, n)[k] == r[k]);
                }
            }
        } else {
            assert forall|k: int| 0 <= k < split_segments(s, cut, n).len() implies is_ascii_chars(
                #[trigger] split_segments(s, cut, n)[k],
            ) by {
                if k < r.len() {
                    assert(split_segments(s, cut, n)[k] == r[k]);
                }
            }
        }
    }
}

/// An ASCII parameter block can always be parsed.
proof fn lemma_ascii_params_ok(flat: Seq<char>)
    requires
        is_ascii_chars(flat),
    ensures
        params_ok(flat),
{
    reveal_strlit("license_type=");
    reveal_strlit("license_key=");
    reveal_strlit("user-agent=");
    reveal_strlit("referrer=");
    reveal_strlit("referer=");
    lemma_split_ascii(flat, param_cut(flat), flat.len() as int);
    assert forall|k: int| 0 <= k < param_tokens(flat).len() implies token_ok(
        #[trigger] param_tokens(flat)[k],
    ) by {
        let t = trim(param_tokens(flat)[k]);
        lemma_trim_ascii(param_tokens(flat)[k]);
        lemma_strip_ascii(t, "license_type="@);
        lemma_strip_ascii(t, "license_key="@);
        lemma_strip_ascii(t, "user-agent="@);
        lemma_strip_ascii(t, "referrer="@);
        lemma_strip_ascii(t, "referer="@);
    }
}

/// A playlist in ASCII can always be parsed: only characters outside
/// ASCII can make a parameter comparison cut a character.
pub proof fn law_ascii_playlist_parses(content: Seq<char>)
    requires
        is_ascii_chars(content),
    ensures
        playlist_ok(content),
{
    let lines = lines_of(content);
    let p = split_segments(content, crate::text::newline_at(content), content.len() as int);
    lemma_split_ascii(content, crate::text::newline_at(content), content.len() as int);
    crate::text::lemma_split_segments_len(content, crate::text::newline_at(content), content.len() as int);
    assert forall|i: int| 0 <= i < lines.len() implies is_ascii_chars(#[trigger] lines[i]) by {
        if i < p.len() - 1 {
            let l = p[i];
            assert(is_ascii_chars(l));
            if l.len() > 0 && l.last() == '\r' {
                lemma_ascii_sub(l, 0, l.len() - 1);
                assert(l.drop_last() == l.subrange(0, l.len() - 1));
            }
            assert(lines[i] == crate::text::strip_cr(l));
        } else {
            assert(lines[i] == p.last());
        }
    }
    assert forall|i: int|
        0 <= i < lines_of(content).len() && takes_channel(
            scan_lines(lines_of(content).take(i)),
            #[trigger] lines_of(content)[i],
        ) implies channel_ok(trim(lines_of(content)[i])) by {
        let line = trim(lines[i]);
        lemma_trim_ascii(lines[i]);
        match find_char_from(line, '|', 0) {
            Some(j) => {
                lemma_find_char_from(line, '|', 0);
                lemma_ascii_sub(line, j + 1, line.len() as int);
                let rest = line.skip(j + 1);
                assert(rest == line.subrange(j + 1, line.len() as int));
                let flat = flatten_bars(rest);
                assert forall|m: int| 0 <= m < flat.len() implies '\0' <= #[trigger] flat[m]
                    <= '\u{7f}' by {
                    assert('\0' <= rest[m] <= '\u{7f}');
                }
                lemma_ascii_params_ok(flat);
            },
            None => {},
        }
    }
}


} // verus!

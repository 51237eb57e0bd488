//! HLS / DASH manifest URL rewriting and the proxy context token.

use vstd::prelude::*;
use vstd::utf8::{encode_utf8, encode_utf8_decode_utf8, encode_utf8_valid_utf8};
use crate::codec::{
    b64url, b64url_decode, b64url_encode, lemma_b64url_injective, percent_encode, string_from_utf8,
    url_encode,
};
use crate::string_map::StringMap;
use crate::template::{ident_len_at, proxy_template_url_spec, template_encode};
use crate::unicode::{lower_seq, lowercase};
use crate::text::{
    chars_of, contains, contains_seq, line_ranges, lines_of, ranges_match, find_char, find_char_from, find_from, find_seq,
    has_at, has_prefix, has_suffix, is_whitespace, is_ws, lemma_find_char_from, lemma_find_from, same_pos, trim, trim_bounds, matches_at, push_all, push_str, rfind, rfind_char,
    string_of,
};

verus! {

// ─── URL helpers ────────────────────────────────────────────────────────────

/// The URL starts with `http://` or `https://`.
pub open spec fn is_absolute_url(s: Seq<char>) -> bool {
    has_prefix(s, "http://"@) || has_prefix(s, "https://"@)
}

/// `base` up to and including its last `/` (all of `base` if it has none).
pub open spec fn base_dir(base: Seq<char>) -> Seq<char> {
    match rfind_char(base, '/') {
        Some(i) => base.take(i + 1),
        None => base,
    }
}

/// The end of the scheme and host of `base`: the first `/` after `://`.
pub open spec fn origin_end(base: Seq<char>) -> Option<int> {
    match find_from(base, "://"@, 0) {
        Some(p) => find_char_from(base, '/', p + 3),
        None => None,
    }
}

/// `relative` made absolute against `base`: absolute URLs are kept, a
/// path starting with `/` goes after the origin of `base`, anything else
/// after the directory of `base`.
pub open spec fn resolve_url_spec(relative: Seq<char>, base: Seq<char>) -> Seq<char> {
    if is_absolute_url(relative) {
        relative
    } else if has_prefix(relative, "/"@) && origin_end(base) is Some {
        base.take(origin_end(base)->0) + relative
    } else {
        base_dir(base) + relative
    }
}

/// A URL that names a playlist rather than a media segment.
pub open spec fn is_manifest_url_spec(url: Seq<char>) -> bool {
    let u = lower_seq(url);
    contains(u, ".m3u8"@) || contains(u, "chunklist"@) || contains(u, "playlist"@)
}

/// The proxy endpoint `kind` for the upstream URL `raw`.
pub open spec fn proxy_url_spec(
    kind: Seq<char>,
    raw: Seq<char>,
    proxy_base: Seq<char>,
    ctx: Seq<char>,
) -> Seq<char> {
    proxy_base + "/"@ + kind + "?ctx="@ + ctx + "&url="@ + percent_encode(encode_utf8(raw))
}

fn absolute(s: &[char]) -> (b: bool)
    ensures
        b == is_absolute_url(s@),
{
    let http = chars_of("http://");
    let https = chars_of("https://");
    matches_at(s, 0, http.as_slice()) || matches_at(s, 0, https.as_slice())
}

fn dir_end(base: &[char]) -> (n: usize)
    ensures
        n <= base@.len(),
        base@.take(n as int) == base_dir(base@),
{
    match rfind(base, '/') {
        Some(i) => i + 1,
        None => {
            assert(base@.take(base@.len() as int) == base@);
            base.len()
        },
    }
}

fn resolve_chars(relative: &[char], base: &[char]) -> (r: Vec<char>)
    ensures
        r@ == resolve_url_spec(relative@, base@),
{
    let mut out: Vec<char> = Vec::new();
    if absolute(relative) {
        push_all(&mut out, relative);
        assert(out@ == relative@);
        return out;
    }
    let slash = chars_of("/");
    if matches_at(relative, 0, slash.as_slice()) {
        // Absolute path — keep origin
        let sep = chars_of("://");
        if let Some(p) = find_seq(base, sep.as_slice(), 0) {
            proof {
                reveal_strlit("://");
            }
            if let Some(q) = find_char(base, '/', p + 3) {
                push_all(&mut out, &base[0..q]);
                push_all(&mut out, relative);
                assert(base@.subrange(0, q as int) == base@.take(q as int));
                return out;
            }
        }
    }
    // Relative path
    let n = dir_end(base);
    push_all(&mut out, &base[0..n]);
    assert(base@.subrange(0, n as int) == base@.take(n as int));
    push_all(&mut out, relative);
    out
}

/// Resolves `relative` against the URL `base`.
pub fn resolve_url(relative: &str, base: &str) -> (r: String)
    ensures
        r@ == resolve_url_spec(relative@, base@),
{
    let rel = chars_of(relative);
    let b = chars_of(base);
    let out = resolve_chars(rel.as_slice(), b.as_slice());
    string_of(out.as_slice())
}

fn is_manifest_url(url: &[char]) -> (b: bool)
    ensures
        b == is_manifest_url_spec(url@),
{
    let u = lowercase(url);
    let m3u8 = chars_of(".m3u8");
    let chunklist = chars_of("chunklist");
    let playlist = chars_of("playlist");
    contains_seq(u.as_slice(), m3u8.as_slice()) || contains_seq(u.as_slice(), chunklist.as_slice())
        || contains_seq(u.as_slice(), playlist.as_slice())
}

/// Appends the proxy endpoint `kind` for the upstream URL `raw`.
fn push_proxy_url(out: &mut Vec<char>, kind: &str, raw: &[char], proxy_base: &[char], ctx: &[char])
    ensures
        final(out)@ == old(out)@ + proxy_url_spec(kind@, raw@, proxy_base@, ctx@),
{
    push_all(out, proxy_base);
    push_str(out, "/");
    push_str(out, kind);
    push_str(out, "?ctx=");
    push_all(out, ctx);
    push_str(out, "&url=");
    let raw_s = string_of(raw);
    let enc = url_encode(raw_s.as_str());
    push_str(out, enc.as_str());
    assert(final(out)@ == old(out)@ + proxy_url_spec(kind@, raw@, proxy_base@, ctx@));
}


/// The proxy endpoint `kind` (`hls`, `mpd`, `segment`) for the upstream
/// URL `raw_url`.
pub fn proxy_url(kind: &str, raw_url: &str, proxy_base: &str, ctx_b64: &str) -> (r: String)
    ensures
        r@ == proxy_url_spec(kind@, raw_url@, proxy_base@, ctx_b64@),
{
    let raw = chars_of(raw_url);
    let pb = chars_of(proxy_base);
    let ctx = chars_of(ctx_b64);
    let mut out: Vec<char> = Vec::new();
    push_proxy_url(&mut out, kind, raw.as_slice(), pb.as_slice(), ctx.as_slice());
    string_of(out.as_slice())
}

/// Appends the proxy segment URL for the segment template `raw`.
fn push_template_url(out: &mut Vec<char>, raw: &[char], proxy_base: &[char], ctx: &[char])
    ensures
        final(out)@ == old(out)@ + proxy_template_url_spec(raw@, proxy_base@, ctx@),
{
    push_all(out, proxy_base);
    push_str(out, "/");
    push_str(out, "segment");
    push_str(out, "?ctx=");
    push_all(out, ctx);
    push_str(out, "&url=");
    let ghost head = out@;
    let n = raw.len();
    let mut i: usize = 0;
    assert(raw@.skip(0) == raw@);
    while i < n
        invariant
            n == raw@.len(),
            i <= n,
            head + template_encode(raw@) == out@ + template_encode(raw@.skip(i as int)),
        decreases n - i,
    {
        let ghost rest = raw@.skip(i as int);
        let k = ident_len_at(raw, i);
        if k > 0 {
            push_all(out, &raw[i..i + k]);
            proof {
                assert(raw@.subrange(i as int, i + k) == rest.take(k as int));
                assert(rest.skip(k as int) == raw@.skip(i + k));
            }
            i = i + k;
        } else {
            let one = string_of(&raw[i..i + 1]);
            let enc = url_encode(one.as_str());
            push_str(out, enc.as_str());
            proof {
                assert(raw@.subrange(i as int, i + 1) == seq![rest[0]]);
                assert(rest.drop_first() == raw@.skip(i + 1));
            }
            i = i + 1;
        }
    }
    assert(raw@.skip(n as int) == Seq::<char>::empty());
}

// ─── Pattern replacement ────────────────────────────────────────────────────

/// The UUID of the ClearKey DRM system.
pub open spec fn clearkey_uuid() -> Seq<char> {
    "e2719d58-a985-b3c9-781a-b030af78d30e"@
}

/// The text rules applied to manifests. Each finds occurrences of one
/// pattern (see `rule_match`) and says what replaces them (`rule_output`).
pub enum Rule {
    /// `URI="…"` in an HLS tag; URIs are resolved against `base`.
    KeyUri { base: Seq<char>, proxy: Seq<char>, ctx: Seq<char> },
    /// `<BaseURL …>…</BaseURL>` in an MPD.
    BaseUrl { dir: Seq<char>, proxy: Seq<char>, ctx: Seq<char> },
    /// `initialization="…"` in an MPD.
    Initialization { dir: Seq<char>, proxy: Seq<char>, ctx: Seq<char> },
    /// ` media="…"` (after a whitespace character) in an MPD.
    Media { dir: Seq<char>, proxy: Seq<char>, ctx: Seq<char> },
    /// A `<ContentProtection …>…</ContentProtection>` element whose start
    /// tag names the ClearKey UUID.
    ClearKeyBlock,
    /// A `<ContentProtection … />` tag naming the ClearKey UUID.
    ClearKeyTag,
    /// An `<AdaptationSet …>` start tag; `inject` is added after it.
    AdaptationSet { inject: Seq<char> },
}

/// The end of `[^"]+"` starting at `start`: one or more characters other
/// than `"`, then `"`.
pub open spec fn quoted_end(s: Seq<char>, start: int) -> Option<int> {
    match find_char_from(s, '"', start) {
        Some(r) => if r > start {
            Some(r + 1)
        } else {
            None
        },
        None => None,
    }
}

/// The end of `[^/]*/>` starting at `start`.
pub open spec fn tag_close(s: Seq<char>, start: int) -> Option<int> {
    match find_char_from(s, '/', start) {
        Some(r) => if r + 1 < s.len() && s[r + 1] == '>' {
            Some(r + 2)
        } else {
            None
        },
        None => None,
    }
}

/// A self-closing ClearKey tag whose UUID starts at one of `lo..=o`;
/// later UUID positions are tried first, as a backtracking matcher does.
pub open spec fn uuid_tag_from(s: Seq<char>, lo: int, o: int) -> Option<int>
    decreases o - lo + 1,
{
    if o < lo {
        None
    } else if has_at(s, o, clearkey_uuid()) && tag_close(s, o + clearkey_uuid().len()) is Some {
        tag_close(s, o + clearkey_uuid().len())
    } else {
        uuid_tag_from(s, lo, o - 1)
    }
}

/// A character of the regex class `\w`.
pub uninterp spec fn word_char(c: char) -> bool;

/// `regex_syntax::is_word_character`: membership in the Unicode `\w` class
/// (the `Alphabetic` and `Join_Control` properties and the
/// `Decimal_Number`, `Mark` and `Connector_Punctuation` categories); among
/// ASCII characters that class is `[0-9A-Za-z_]`. The function relies on
/// the crate's default `unicode-perl` feature, which is enabled here.
#[verifier::external_body]
fn is_word_character(c: char) -> (b: bool)
    ensures
        b == word_char(c),
        (c as u32) < 128 ==> (b <==> (('0' <= c && c <= '9') || ('A' <= c && c <= 'Z') || ('a'
            <= c && c <= 'z') || c == '_')),
{
    regex_syntax::is_word_character(c)
}

/// The end of the occurrence of the rule's pattern that starts at `p`, if
/// one does.
pub open spec fn rule_match(r: Rule, s: Seq<char>, p: int) -> Option<int> {
    match r {
        Rule::KeyUri { .. } => if has_at(s, p, "URI=\""@) {
            quoted_end(s, p + "URI=\""@.len())
        } else {
            None
        },
        Rule::BaseUrl { .. } => if has_at(s, p, "<BaseURL"@) {
            match find_char_from(s, '>', p + "<BaseURL"@.len()) {
                Some(q) => match find_from(s, "</BaseURL>"@, q + 1) {
                    Some(t) => Some(t + "</BaseURL>"@.len()),
                    None => None,
                },
                None => None,
            }
        } else {
            None
        },
        Rule::Initialization { .. } => if has_at(s, p, "initialization=\""@) {
            quoted_end(s, p + "initialization=\""@.len())
        } else {
            None
        },
        Rule::Media { .. } => if 0 <= p < s.len() && is_ws(s[p]) && has_at(s, p + 1, "media=\""@) {
            quoted_end(s, p + 1 + "media=\""@.len())
        } else {
            None
        },
        Rule::ClearKeyBlock => if has_at(s, p, "<ContentProtection"@) {
            let from = p + "<ContentProtection"@.len();
            match find_char_from(s, '>', from) {
                Some(q) => match find_from(s, clearkey_uuid(), from) {
                    Some(o) => if o + clearkey_uuid().len() <= q {
                        match find_from(s, "</ContentProtection>"@, q + 1) {
                            Some(t) => Some(t + "</ContentProtection>"@.len()),
                            None => None,
                        }
                    } else {
                        None
                    },
                    None => None,
                },
                None => None,
            }
        } else {
            None
        },
        Rule::ClearKeyTag => if has_at(s, p, "<ContentProtection"@) {
            let from = p + "<ContentProtection"@.len();
            let limit = match find_char_from(s, '>', from) {
                Some(q) => q,
                None => s.len() as int,
            };
            uuid_tag_from(s, from, limit - clearkey_uuid().len())
        } else {
            None
        },
        Rule::AdaptationSet { .. } => if has_at(s, p, "<AdaptationSet"@) && (p
            + "<AdaptationSet"@.len() == s.len() || !word_char(
            s[p + "<AdaptationSet"@.len()],
        )) {
            match find_char_from(s, '>', p + "<AdaptationSet"@.len()) {
                Some(q) => Some(q + 1),
                None => None,
            }
        } else {
            None
        },
    }
}

/// A key URI: one ending in `.key` or containing `/key`.
pub open spec fn is_key_uri(abs: Seq<char>) -> bool {
    has_suffix(abs, ".key"@) || contains(abs, "/key"@)
}

/// What replaces the occurrence `s[p..e]` of the rule's pattern.
pub open spec fn rule_output(r: Rule, s: Seq<char>, p: int, e: int) -> Seq<char> {
    match r {
        Rule::KeyUri { base, proxy, ctx } => {
            let abs = resolve_url_spec(s.subrange(p + "URI=\""@.len(), e - 1), base);
            if is_key_uri(abs) {
                "URI=\""@ + proxy + "/clearkey?ctx="@ + ctx + "\""@
            } else {
                "URI=\""@ + proxy_url_spec("segment"@, abs, proxy, ctx) + "\""@
            }
        },
        Rule::BaseUrl { dir, proxy, ctx } => {
            let q = find_char_from(s, '>', p + "<BaseURL"@.len())->0;
            let inner = trim(s.subrange(q + 1, e - "</BaseURL>"@.len()));
            "<BaseURL>"@ + proxy_url_spec("segment"@, resolve_url_spec(inner, dir), proxy, ctx)
                + "</BaseURL>"@
        },
        Rule::Initialization { dir, proxy, ctx } => {
            let val = s.subrange(p + "initialization=\""@.len(), e - 1);
            "initialization=\""@ + proxy_url_spec("segment"@, resolve_url_spec(val, dir), proxy, ctx)
                + "\""@
        },
        Rule::Media { dir, proxy, ctx } => {
            let val = s.subrange(p + 1 + "media=\""@.len(), e - 1);
            let full = if is_absolute_url(val) {
                val
            } else {
                dir + val
            };
            seq![s[p]] + "media=\""@ + proxy_template_url_spec(full, proxy, ctx) + "\""@
        },
        Rule::ClearKeyBlock => Seq::empty(),
        Rule::ClearKeyTag => Seq::empty(),
        Rule::AdaptationSet { inject } => s.subrange(p, e) + "\n    "@ + inject,
    }
}

/// Every non-overlapping occurrence of the rule's pattern in `s[p..]`,
/// leftmost first, replaced by the rule's output (as `Regex::replace_all`).
pub open spec fn replace_all_from(r: Rule, s: Seq<char>, p: int) -> Seq<char>
    decreases s.len() - p,
{
    if p < 0 || p >= s.len() {
        Seq::empty()
    } else {
        match rule_match(r, s, p) {
            Some(e) => if p < e <= s.len() {
                rule_output(r, s, p, e) + replace_all_from(r, s, e)
            } else {
                seq![s[p]] + replace_all_from(r, s, p + 1)
            },
            None => seq![s[p]] + replace_all_from(r, s, p + 1),
        }
    }
}

pub open spec fn replace_all(r: Rule, s: Seq<char>) -> Seq<char> {
    replace_all_from(r, s, 0)
}


// ─── Pattern replacement, executable ────────────────────────────────────────

/// The literal parts of the patterns, as characters.
struct Lits {
    uri: Vec<char>,
    base_open: Vec<char>,
    base_close: Vec<char>,
    init: Vec<char>,
    media: Vec<char>,
    cp_open: Vec<char>,
    cp_close: Vec<char>,
    uuid: Vec<char>,
    adapt: Vec<char>,
}

impl Lits {
    spec fn valid(&self) -> bool {
        &&& self.uri@ == "URI=\""@
        &&& self.base_open@ == "<BaseURL"@
        &&& self.base_close@ == "</BaseURL>"@
        &&& self.init@ == "initialization=\""@
        &&& self.media@ == "media=\""@
        &&& self.cp_open@ == "<ContentProtection"@
        &&& self.cp_close@ == "</ContentProtection>"@
        &&& self.uuid@ == clearkey_uuid()
        &&& self.adapt@ == "<AdaptationSet"@
    }

    fn new() -> (l: Lits)
        ensures
            l.valid(),
    {
        Lits {
            uri: chars_of("URI=\""),
            base_open: chars_of("<BaseURL"),
            base_close: chars_of("</BaseURL>"),
            init: chars_of("initialization=\""),
            media: chars_of("media=\""),
            cp_open: chars_of("<ContentProtection"),
            cp_close: chars_of("</ContentProtection>"),
            uuid: chars_of("e2719d58-a985-b3c9-781a-b030af78d30e"),
            adapt: chars_of("<AdaptationSet"),
        }
    }
}

/// A rule with its parameters as characters.
enum RuleExec {
    KeyUri { base: Vec<char>, proxy: Vec<char>, ctx: Vec<char> },
    BaseUrl { dir: Vec<char>, proxy: Vec<char>, ctx: Vec<char> },
    Initialization { dir: Vec<char>, proxy: Vec<char>, ctx: Vec<char> },
    Media { dir: Vec<char>, proxy: Vec<char>, ctx: Vec<char> },
    ClearKeyBlock,
    ClearKeyTag,
    AdaptationSet { inject: Vec<char> },
}

impl View for RuleExec {
    type V = Rule;

    closed spec fn view(&self) -> Rule {
        match self {
            RuleExec::KeyUri { base, proxy, ctx } => Rule::KeyUri {
                base: base@,
                proxy: proxy@,
                ctx: ctx@,
            },
            RuleExec::BaseUrl { dir, proxy, ctx } => Rule::BaseUrl {
                dir: dir@,
                proxy: proxy@,
                ctx: ctx@,
            },
            RuleExec::Initialization { dir, proxy, ctx } => Rule::Initialization {
                dir: dir@,
                proxy: proxy@,
                ctx: ctx@,
            },
            RuleExec::Media { dir, proxy, ctx } => Rule::Media {
                dir: dir@,
                proxy: proxy@,
                ctx: ctx@,
            },
            RuleExec::ClearKeyBlock => Rule::ClearKeyBlock,
            RuleExec::ClearKeyTag => Rule::ClearKeyTag,
            RuleExec::AdaptationSet { inject } => Rule::AdaptationSet { inject: inject@ },
        }
    }
}

fn quoted_end_at(s: &[char], start: usize) -> (r: Option<usize>)
    requires
        start <= s@.len(),
    ensures
        same_pos(r, quoted_end(s@, start as int)),
        r matches Some(e) ==> start < e <= s@.len(),
{
    match find_char(s, '"', start) {
        Some(q) => if q > start {
            Some(q + 1)
        } else {
            None
        },
        None => None,
    }
}

fn tag_close_at(s: &[char], start: usize) -> (r: Option<usize>)
    requires
        start <= s@.len(),
    ensures
        same_pos(r, tag_close(s@, start as int)),
        r matches Some(e) ==> start < e <= s@.len(),
{
    match find_char(s, '/', start) {
        Some(q) => if q + 1 < s.len() && s[q + 1] == '>' {
            Some(q + 2)
        } else {
            None
        },
        None => None,
    }
}

fn uuid_tag_at(s: &[char], lits: &Lits, from: usize, limit: usize) -> (r: Option<usize>)
    requires
        lits.valid(),
        from <= limit <= s@.len(),
    ensures
        same_pos(r, uuid_tag_from(s@, from as int, limit - clearkey_uuid().len())),
        r matches Some(e) ==> from < e <= s@.len(),
{
    let n = lits.uuid.len();
    if limit < n || limit - n < from {
        return None;
    }
    let mut o = limit - n;
    loop
        invariant
            lits.valid(),
            n == clearkey_uuid().len(),
            from <= o,
            o + n <= limit <= s@.len(),
            uuid_tag_from(s@, from as int, limit - clearkey_uuid().len()) == uuid_tag_from(
                s@,
                from as int,
                o as int,
            ),
        decreases o,
    {
        if matches_at(s, o, lits.uuid.as_slice()) {
            if let Some(e) = tag_close_at(s, o + n) {
                return Some(e);
            }
        }
        if o == from {
            assert(uuid_tag_from(s@, from as int, o - 1) is None);
            return None;
        }
        o = o - 1;
    }
}

fn word_boundary_after(s: &[char], i: usize) -> (b: bool)
    requires
        i <= s@.len(),
    ensures
        b == (i == s@.len() || !word_char(s@[i as int])),
{
    i == s.len() || !is_word_character(s[i])
}

impl RuleExec {
    /// Where the occurrence of the pattern starting at `p` ends, if any.
    fn match_at(&self, lits: &Lits, s: &[char], p: usize) -> (r: Option<usize>)
        requires
            lits.valid(),
            p < s@.len(),
        ensures
            same_pos(r, rule_match(self@, s@, p as int)),
            r matches Some(e) ==> p < e <= s@.len(),
    {
        match self {
            RuleExec::KeyUri { .. } => {
                if matches_at(s, p, lits.uri.as_slice()) {
                    quoted_end_at(s, p + lits.uri.len())
                } else {
                    None
                }
            },
            RuleExec::BaseUrl { .. } => {
                if !matches_at(s, p, lits.base_open.as_slice()) {
                    return None;
                }
                match find_char(s, '>', p + lits.base_open.len()) {
                    Some(q) => match find_seq(s, lits.base_close.as_slice(), q + 1) {
                        Some(t) => Some(t + lits.base_close.len()),
                        None => None,
                    },
                    None => None,
                }
            },
            RuleExec::Initialization { .. } => {
                if matches_at(s, p, lits.init.as_slice()) {
                    quoted_end_at(s, p + lits.init.len())
                } else {
                    None
                }
            },
            RuleExec::Media { .. } => {
                if is_whitespace(s[p]) && matches_at(s, p + 1, lits.media.as_slice()) {
                    quoted_end_at(s, p + 1 + lits.media.len())
                } else {
                    None
                }
            },
            RuleExec::ClearKeyBlock => {
                if !matches_at(s, p, lits.cp_open.as_slice()) {
                    return None;
                }
                let from = p + lits.cp_open.len();
                match find_char(s, '>', from) {
                    Some(q) => match find_seq(s, lits.uuid.as_slice(), from) {
                        Some(o) => if o + lits.uuid.len() <= q {
                            match find_seq(s, lits.cp_close.as_slice(), q + 1) {
                                Some(t) => Some(t + lits.cp_close.len()),
                                None => None,
                            }
                        } else {
                            None
                        },
                        None => None,
                    },
                    None => None,
                }
            },
            RuleExec::ClearKeyTag => {
                if !matches_at(s, p, lits.cp_open.as_slice()) {
                    return None;
                }
                let from = p + lits.cp_open.len();
                let limit = match find_char(s, '>', from) {
                    Some(q) => q,
                    None => s.len(),
                };
                uuid_tag_at(s, lits, from, limit)
            },
            RuleExec::AdaptationSet { .. } => {
                if !matches_at(s, p, lits.adapt.as_slice()) {
                    return None;
                }
                let after = p + lits.adapt.len();
                if !word_boundary_after(s, after) {
                    return None;
                }
                match find_char(s, '>', after) {
                    Some(q) => Some(q + 1),
                    None => None,
                }
            },
        }
    }
}


fn is_key_uri_chars(abs: &[char]) -> (b: bool)
    ensures
        b == is_key_uri(abs@),
{
    let key = chars_of(".key");
    let slash_key = chars_of("/key");
    (key.len() <= abs.len() && matches_at(abs, abs.len() - key.len(), key.as_slice()))
        || contains_seq(abs, slash_key.as_slice())
}

impl RuleExec {
    /// Appends what replaces the occurrence `s[p..e]` of the pattern.
    fn emit(&self, lits: &Lits, s: &[char], p: usize, e: usize, out: &mut Vec<char>)
        requires
            lits.valid(),
            p < e <= s@.len(),
            rule_match(self@, s@, p as int) == Some(e as int),
        ensures
            final(out)@ == old(out)@ + rule_output(self@, s@, p as int, e as int),
    {
        match self {
            RuleExec::KeyUri { base, proxy, ctx } => {
                let start = p + lits.uri.len();
                let abs = resolve_chars(&s[start..e - 1], base.as_slice());
                push_str(out, "URI=\"");
                if is_key_uri_chars(abs.as_slice()) {
                    push_all(out, proxy.as_slice());
                    push_str(out, "/clearkey?ctx=");
                    push_all(out, ctx.as_slice());
                } else {
                    push_proxy_url(out, "segment", abs.as_slice(), proxy.as_slice(), ctx.as_slice());
                }
                push_str(out, "\"");
            },
            RuleExec::BaseUrl { dir, proxy, ctx } => {
                assert(has_at(s@, p as int, "<BaseURL"@));
                assert(p + lits.base_open@.len() <= s.len());
                let q = match find_char(s, '>', p + lits.base_open.len()) {
                    Some(q) => q,
                    None => {
                        assert(false);
                        return;
                    },
                };
                proof {
                    lemma_find_from(s@, "</BaseURL>"@, q + 1);
                }
                let end = e - lits.base_close.len();
                let (a, b) = trim_bounds(s, q + 1, end);
                let abs = resolve_chars(&s[a..b], dir.as_slice());
                push_str(out, "<BaseURL>");
                push_proxy_url(out, "segment", abs.as_slice(), proxy.as_slice(), ctx.as_slice());
                push_str(out, "</BaseURL>");
            },
            RuleExec::Initialization { dir, proxy, ctx } => {
                let start = p + lits.init.len();
                let abs = resolve_chars(&s[start..e - 1], dir.as_slice());
                push_str(out, "initialization=\"");
                push_proxy_url(out, "segment", abs.as_slice(), proxy.as_slice(), ctx.as_slice());
                push_str(out, "\"");
            },
            RuleExec::Media { dir, proxy, ctx } => {
                let start = p + 1 + lits.media.len();
                let val = &s[start..e - 1];
                let mut full: Vec<char> = Vec::new();
                if !absolute(val) {
                    push_all(&mut full, dir.as_slice());
                }
                push_all(&mut full, val);
                out.push(s[p]);
                push_str(out, "media=\"");
                push_template_url(out, full.as_slice(), proxy.as_slice(), ctx.as_slice());
                push_str(out, "\"");
            },
            RuleExec::ClearKeyBlock => {},
            RuleExec::ClearKeyTag => {},
            RuleExec::AdaptationSet { inject } => {
                push_all(out, &s[p..e]);
                push_str(out, "\n    ");
                push_all(out, inject.as_slice());
            },
        }
    }
}

/// Applies a rule to the whole of `s`.
fn replace_all_exec(rule: &RuleExec, s: &[char]) -> (out: Vec<char>)
    ensures
        out@ == replace_all(rule@, s@),
{
    let lits = Lits::new();
    let mut out: Vec<char> = Vec::new();
    let mut p: usize = 0;
    while p < s.len()
        invariant
            lits.valid(),
            p <= s@.len(),
            replace_all(rule@, s@) == out@ + replace_all_from(rule@, s@, p as int),
        decreases s@.len() - p,
    {
        match rule.match_at(&lits, s, p) {
            Some(e) => {
                rule.emit(&lits, s, p, e, &mut out);
                p = e;
            },
            None => {
                out.push(s[p]);
                p = p + 1;
            },
        }
    }
    out
}


// ─── HLS rewriter ───────────────────────────────────────────────────────────

/// One line of an HLS manifest: blank lines stay as they are; in a tag
/// line every `URI="…"` points to the proxy (key URIs to the ClearKey
/// endpoint, others to the segment endpoint); any other line is a URL and
/// becomes a proxy URL (playlists via `/hls`, media via `/segment`).
pub open spec fn rewrite_hls_line_spec(
    line: Seq<char>,
    base: Seq<char>,
    proxy: Seq<char>,
    ctx: Seq<char>,
) -> Seq<char> {
    let t = trim(line);
    if t.len() == 0 {
        line
    } else if t[0] == '#' {
        replace_all(Rule::KeyUri { base, proxy, ctx }, t)
    } else {
        let abs = resolve_url_spec(t, base);
        let kind = if is_manifest_url_spec(abs) {
            "hls"@
        } else {
            "segment"@
        };
        proxy_url_spec(kind, abs, proxy, ctx)
    }
}

/// Lines joined with `\n` between them.
pub open spec fn join_lines(ls: Seq<Seq<char>>) -> Seq<char>
    decreases ls.len(),
{
    if ls.len() == 0 {
        Seq::empty()
    } else if ls.len() == 1 {
        ls[0]
    } else {
        join_lines(ls.drop_last()) + "\n"@ + ls.last()
    }
}

pub open spec fn rewrite_hls_spec(
    content: Seq<char>,
    base: Seq<char>,
    proxy: Seq<char>,
    ctx: Seq<char>,
) -> Seq<char> {
    join_lines(lines_of(content).map_values(|l: Seq<char>| rewrite_hls_line_spec(l, base, proxy, ctx)))
}

fn rewrite_hls_line(line: &[char], base: &[char], proxy: &[char], ctx: &[char], out: &mut Vec<char>)
    ensures
        final(out)@ == old(out)@ + rewrite_hls_line_spec(line@, base@, proxy@, ctx@),
{
    assert(line@.subrange(0, line@.len() as int) == line@);
    let (a, b) = trim_bounds(line, 0, line.len());
    let t = &line[a..b];
    if t.len() == 0 {
        push_all(out, line);
    } else if t[0] == '#' {
        // Rewrite URI="..." inside tags (#EXT-X-KEY, #EXT-X-MAP, …)
        let rule = RuleExec::KeyUri { base: copy_chars(base), proxy: copy_chars(proxy), ctx: copy_chars(ctx) };
        let r = replace_all_exec(&rule, t);
        push_all(out, r.as_slice());
    } else {
        // Bare URL line (segment or sub-manifest)
        let abs = resolve_chars(t, base);
        if is_manifest_url(abs.as_slice()) {
            push_proxy_url(out, "hls", abs.as_slice(), proxy, ctx);
        } else {
            push_proxy_url(out, "segment", abs.as_slice(), proxy, ctx);
        }
    }
}

fn copy_chars(s: &[char]) -> (v: Vec<char>)
    ensures
        v@ == s@,
{
    let mut v: Vec<char> = Vec::new();
    push_all(&mut v, s);
    v
}

/// Rewrite every URL inside an HLS manifest (.m3u8) so that it points
/// to the local proxy, preserving header/key context.
pub fn rewrite_hls(content: &str, base_url: &str, proxy_base: &str, ctx_b64: &str) -> (r: String)
    ensures
        r@ == rewrite_hls_spec(content@, base_url@, proxy_base@, ctx_b64@),
{
    let cs = chars_of(content);
    let base = chars_of(base_url);
    let proxy = chars_of(proxy_base);
    let ctx = chars_of(ctx_b64);
    let ranges = line_ranges(cs.as_slice());
    let ghost lines = lines_of(cs@);
    let ghost f = |l: Seq<char>| rewrite_hls_line_spec(l, base@, proxy@, ctx@);
    let mut out: Vec<char> = Vec::new();
    let n = ranges.len();
    for j in 0..n
        invariant
            n == ranges@.len(),
            lines == lines_of(cs@),
            f == (|l: Seq<char>| rewrite_hls_line_spec(l, base@, proxy@, ctx@)),
            ranges_match(cs@, ranges@, lines),
            out@ == join_lines(lines.take(j as int).map_values(f)),
    {
        let (lo, hi) = ranges[j];
        assert(ranges@[j as int].0 <= ranges@[j as int].1);
        let ghost prev = lines.take(j as int).map_values(f);
        if j > 0 {
            push_str(&mut out, "\n");
        }
        rewrite_hls_line(&cs[lo..hi], base.as_slice(), proxy.as_slice(), ctx.as_slice(), &mut out);
        assert(lines.take(j + 1).map_values(f) == prev.push(f(lines[j as int])));
        assert(lines.take(j + 1).map_values(f).drop_last() == prev);
    }
    assert(lines.take(n as int) == lines);
    string_of(out.as_slice())
}


// ─── Proxy context ──────────────────────────────────────────────────────────

/// What the proxy needs to fetch a channel's upstream: headers, ClearKey
/// keys and the license type (carried in the `?ctx=` query value).
#[derive(Debug)]
pub struct ProxyCtx {
    pub headers: StringMap,
    pub clear_keys: StringMap,
    pub license_type: Option<String>,
}

impl Default for ProxyCtx {
    fn default() -> (c: ProxyCtx)
        ensures
            c.headers@ == Map::<Seq<char>, Seq<char>>::empty(),
            c.clear_keys@ == Map::<Seq<char>, Seq<char>>::empty(),
            c.license_type is None,
    {
        ProxyCtx { headers: StringMap::new(), clear_keys: StringMap::new(), license_type: None }
    }
}

impl ProxyCtx {
    pub fn has_clear_keys(&self) -> (b: bool)
        ensures
            b == (self.clear_keys@ != Map::<Seq<char>, Seq<char>>::empty()),
    {
        !self.clear_keys.is_empty()
    }
}

// ─── DASH / MPD rewriter ────────────────────────────────────────────────────

/// The ClearKey `ContentProtection` element that points the player to the
/// proxy's license server.
pub open spec fn clearkey_element(proxy: Seq<char>, ctx: Seq<char>) -> Seq<char> {
    "<ContentProtection schemeIdUri=\"urn:uuid:e2719d58-a985-b3c9-781a-b030af78d30e\">\n      <dashif:Laurl xmlns:dashif=\"https://dashif.org/CPS\">"@
        + proxy + "/clearkey?ctx="@ + ctx + "</dashif:Laurl>\n    </ContentProtection>"@
}

/// The MPD rewrite: `<BaseURL>`, `initialization="…"` and `media="…"` go
/// through the proxy; with ClearKey keys, existing ClearKey
/// `ContentProtection` elements and tags are removed and one pointing to
/// the proxy is added after every `<AdaptationSet …>` tag.
pub open spec fn rewrite_mpd_spec(
    content: Seq<char>,
    base_url: Seq<char>,
    proxy: Seq<char>,
    has_keys: bool,
    ctx: Seq<char>,
) -> Seq<char> {
    if has_keys {
        replace_all(
            Rule::AdaptationSet { inject: clearkey_element(proxy, ctx) },
            mpd_before_injection(content, base_url, proxy, ctx),
        )
    } else {
        mpd_urls_rewritten(content, base_url, proxy, ctx)
    }
}

/// The MPD with `<BaseURL>`, `initialization="…"` and `media="…"` pointing
/// to the proxy.
pub open spec fn mpd_urls_rewritten(
    content: Seq<char>,
    base_url: Seq<char>,
    proxy: Seq<char>,
    ctx: Seq<char>,
) -> Seq<char> {
    let dir = base_dir(base_url);
    let s1 = replace_all(Rule::BaseUrl { dir, proxy, ctx }, content);
    let s2 = replace_all(Rule::Initialization { dir, proxy, ctx }, s1);
    replace_all(Rule::Media { dir, proxy, ctx }, s2)
}

/// The MPD into which the ClearKey element is injected: URLs rewritten,
/// existing ClearKey elements and tags removed.
pub open spec fn mpd_before_injection(
    content: Seq<char>,
    base_url: Seq<char>,
    proxy: Seq<char>,
    ctx: Seq<char>,
) -> Seq<char> {
    let s3 = mpd_urls_rewritten(content, base_url, proxy, ctx);
    replace_all(Rule::ClearKeyTag, replace_all(Rule::ClearKeyBlock, s3))
}

/// Rewrite a DASH MPD:
///  1. `<BaseURL>` content → proxy/segment
///  2. `initialization="..."` attributes → proxy/segment
///  3. `media="..."` attributes → proxy/segment (template preserved)
///  4. Replace / inject `<ContentProtection>` with local ClearKey license server
pub fn rewrite_mpd(
    content: &str,
    base_url: &str,
    proxy_base: &str,
    ctx: &ProxyCtx,
    ctx_b64: &str,
) -> (r: String)
    ensures
        r@ == rewrite_mpd_spec(
            content@,
            base_url@,
            proxy_base@,
            ctx.clear_keys@ != Map::<Seq<char>, Seq<char>>::empty(),
            ctx_b64@,
        ),
{
    let cs = chars_of(content);
    let base = chars_of(base_url);
    let proxy = chars_of(proxy_base);
    let c = chars_of(ctx_b64);
    let n = dir_end(base.as_slice());
    let dir = copy_chars(&base[0..n]);
    assert(base@.subrange(0, n as int) == base@.take(n as int));

    // ── 1. <BaseURL>…</BaseURL> ──
    let rule = RuleExec::BaseUrl { dir: copy_chars(dir.as_slice()), proxy: copy_chars(proxy.as_slice()), ctx: copy_chars(c.as_slice()) };
    let out = replace_all_exec(&rule, cs.as_slice());
    // ── 2. initialization="…" ──
    let rule = RuleExec::Initialization { dir: copy_chars(dir.as_slice()), proxy: copy_chars(proxy.as_slice()), ctx: copy_chars(c.as_slice()) };
    let out = replace_all_exec(&rule, out.as_slice());
    // ── 3. media="…" (SegmentTemplate) ──
    let rule = RuleExec::Media { dir: copy_chars(dir.as_slice()), proxy: copy_chars(proxy.as_slice()), ctx: copy_chars(c.as_slice()) };
    let mut out = replace_all_exec(&rule, out.as_slice());
    // ── 4. ClearKey DRM injection ──
    if ctx.has_clear_keys() {
        // Remove any existing ClearKey ContentProtection blocks
        out = replace_all_exec(&RuleExec::ClearKeyBlock, out.as_slice());
        // Also handle self-closing
        out = replace_all_exec(&RuleExec::ClearKeyTag, out.as_slice());
        let mut inject: Vec<char> = Vec::new();
        push_str(&mut inject, "<ContentProtection schemeIdUri=\"urn:uuid:e2719d58-a985-b3c9-781a-b030af78d30e\">\n      <dashif:Laurl xmlns:dashif=\"https://dashif.org/CPS\">");
        push_all(&mut inject, proxy.as_slice());
        push_str(&mut inject, "/clearkey?ctx=");
        push_all(&mut inject, c.as_slice());
        push_str(&mut inject, "</dashif:Laurl>\n    </ContentProtection>");
        // Inject once per <AdaptationSet>
        out = replace_all_exec(&RuleExec::AdaptationSet { inject }, out.as_slice());
    }
    string_of(out.as_slice())
}

// ─── Context token ──────────────────────────────────────────────────────────

/// The `ctx` query value that carries a serialized context: the URL-safe
/// base64 of its UTF-8 text.
pub open spec fn ctx_token(text: Seq<char>) -> Seq<char> {
    b64url(encode_utf8(text))
}

/// Encodes the serialized context `json` as a `ctx` query value.
pub fn encode_ctx_token(json: &str) -> (t: String)
    ensures
        t@ == ctx_token(json@),
{
    b64url_encode(json.as_bytes())
}

/// The serialized context carried by a `ctx` query value: `None` when the
/// value is not base64url or does not decode to UTF-8 text.
pub fn decode_ctx_token(token: &str) -> (r: Option<String>)
    ensures
        match r {
            Some(json) => ctx_token(json@) == token@,
            None => forall|text: Seq<char>| ctx_token(text) != token@,
        },
{
    match b64url_decode(token) {
        Some(bytes) => {
            let ghost b = bytes@;
            let r = string_from_utf8(bytes);
            proof {
                if r is None {
                    assert forall|text: Seq<char>| ctx_token(text) != token@ by {
                        if ctx_token(text) == token@ {
                            lemma_b64url_injective(encode_utf8(text), b);
                            encode_utf8_valid_utf8(text);
                        }
                    }
                }
            }
            r
        },
        None => None,
    }
}

/// A context token names exactly one text.
pub proof fn lemma_ctx_token_injective(a: Seq<char>, b: Seq<char>)
    requires
        ctx_token(a) == ctx_token(b),
    ensures
        a == b,
{
    lemma_b64url_injective(encode_utf8(a), encode_utf8(b));
    encode_utf8_decode_utf8(a);
    encode_utf8_decode_utf8(b);
}

/// Decoding what `encode_ctx_token` produced gives back the same text:
/// any result that `decode_ctx_token` may return for the token of `json`
/// (as its `ensures` describes it) is `Some(json)`.
pub proof fn law_ctx_token_roundtrip(json: Seq<char>, r: Option<Seq<char>>)
    requires
        match r {
            Some(j) => ctx_token(j) == ctx_token(json),
            None => forall|text: Seq<char>| #[trigger] ctx_token(text) != ctx_token(json),
        },
    ensures
        r == Some(json),
{
    match r {
        Some(j) => lemma_ctx_token_injective(j, json),
        None => {
            let t = json;
            assert(ctx_token(t) != ctx_token(json));
        },
    }
}


// ─── Laws of the rewriters ──────────────────────────────────────────────────

/// The HLS rewrite works line by line: the output is the input's lines,
/// each rewritten, joined with `\n`. Blank lines are kept as they are, and
/// every URL line (neither blank nor a `#` tag) becomes a URL on the proxy:
/// `/hls` for playlists, `/segment` for media, carrying the context token.
pub proof fn law_hls_url_lines_proxied(
    content: Seq<char>,
    base: Seq<char>,
    proxy: Seq<char>,
    ctx: Seq<char>,
)
    ensures
        ({
            let ins = lines_of(content);
            let outs = ins.map_values(|l: Seq<char>| rewrite_hls_line_spec(l, base, proxy, ctx));
            &&& rewrite_hls_spec(content, base, proxy, ctx) == join_lines(outs)
            &&& outs.len() == ins.len()
            &&& forall|i: int| 0 <= i < ins.len() && trim(ins[i]).len() == 0 ==> #[trigger] outs[i] == ins[i]
            &&& forall|i: int|
                0 <= i < ins.len() && trim(ins[i]).len() > 0 && trim(ins[i])[0] != '#' ==> {
                    ||| has_prefix(#[trigger] outs[i], proxy + "/"@ + "hls"@ + "?ctx="@ + ctx + "&url="@)
                    ||| has_prefix(outs[i], proxy + "/"@ + "segment"@ + "?ctx="@ + ctx + "&url="@)
                }
        }),
{
    let ins = lines_of(content);
    let outs = ins.map_values(|l: Seq<char>| rewrite_hls_line_spec(l, base, proxy, ctx));
    assert forall|i: int|
        0 <= i < ins.len() && trim(ins[i]).len() > 0 && trim(ins[i])[0] != '#' implies {
            ||| has_prefix(#[trigger] outs[i], proxy + "/"@ + "hls"@ + "?ctx="@ + ctx + "&url="@)
            ||| has_prefix(outs[i], proxy + "/"@ + "segment"@ + "?ctx="@ + ctx + "&url="@)
        } by {
        let abs = resolve_url_spec(trim(ins[i]), base);
        let kind = if is_manifest_url_spec(abs) {
            "hls"@
        } else {
            "segment"@
        };
        let head = proxy + "/"@ + kind + "?ctx="@ + ctx + "&url="@;
        assert(outs[i] == head + percent_encode(encode_utf8(abs)));
        assert((head + percent_encode(encode_utf8(abs))).subrange(0, head.len() as int) == head);
    }
}

/// Replacing a pattern that occurs nowhere leaves the text as it is.
proof fn lemma_replace_none(r: Rule, s: Seq<char>, p: int)
    requires
        0 <= p <= s.len(),
        forall|q: int| p <= q < s.len() ==> #[trigger] rule_match(r, s, q) is None,
    ensures
        replace_all_from(r, s, p) == s.skip(p),
    decreases s.len() - p,
{
    if p < s.len() {
        lemma_replace_none(r, s, p + 1);
        assert(s.skip(p) == seq![s[p]] + s.skip(p + 1));
    } else {
        assert(s.skip(p) == Seq::<char>::empty());
    }
}

proof fn lemma_absent_at(s: Seq<char>, pat: Seq<char>, q: int)
    requires
        !contains(s, pat),
    ensures
        !has_at(s, q, pat),
{
}

/// An MPD with nothing to rewrite is served unchanged: without
/// `<BaseURL` and `initialization="` in it, with no `media="` right after
/// a whitespace character, and (when the
/// context carries ClearKey keys) without `<ContentProtection` and
/// `<AdaptationSet`, the rewrite returns the manifest as it came.
pub proof fn law_mpd_passthrough(
    content: Seq<char>,
    base_url: Seq<char>,
    proxy: Seq<char>,
    has_keys: bool,
    ctx: Seq<char>,
)
    requires
        !contains(content, "<BaseURL"@),
        !contains(content, "initialization=\""@),
        forall|p: int|
            0 <= p < content.len() && is_ws(#[trigger] content[p]) ==> !has_at(
                content,
                p + 1,
                "media=\""@,
            ),
        has_keys ==> !contains(content, "<ContentProtection"@),
        has_keys ==> !contains(content, "<AdaptationSet"@),
    ensures
        rewrite_mpd_spec(content, base_url, proxy, has_keys, ctx) == content,
{
    let dir = base_dir(base_url);
    let s = content;
    assert(s.skip(0) == s);
    assert forall|q: int| 0 <= q < s.len() implies #[trigger] rule_match(
        Rule::BaseUrl { dir, proxy, ctx },
        s,
        q,
    ) is None by {
        lemma_absent_at(s, "<BaseURL"@, q);
    }
    lemma_replace_none(Rule::BaseUrl { dir, proxy, ctx }, s, 0);
    assert forall|q: int| 0 <= q < s.len() implies #[trigger] rule_match(
        Rule::Initialization { dir, proxy, ctx },
        s,
        q,
    ) is None by {
        lemma_absent_at(s, "initialization=\""@, q);
    }
    lemma_replace_none(Rule::Initialization { dir, proxy, ctx }, s, 0);
    assert forall|q: int| 0 <= q < s.len() implies #[trigger] rule_match(
        Rule::Media { dir, proxy, ctx },
        s,
        q,
    ) is None by {
        if is_ws(s[q]) {
            assert(!has_at(s, q + 1, "media=\""@));
        }
    }
    lemma_replace_none(Rule::Media { dir, proxy, ctx }, s, 0);
    if has_keys {
        assert forall|q: int| 0 <= q < s.len() implies #[trigger] rule_match(Rule::ClearKeyBlock, s, q)
            is None by {
            lemma_absent_at(s, "<ContentProtection"@, q);
        }
        lemma_replace_none(Rule::ClearKeyBlock, s, 0);
        assert forall|q: int| 0 <= q < s.len() implies #[trigger] rule_match(Rule::ClearKeyTag, s, q)
            is None by {
            lemma_absent_at(s, "<ContentProtection"@, q);
        }
        lemma_replace_none(Rule::ClearKeyTag, s, 0);
        let inject = clearkey_element(proxy, ctx);
        assert forall|q: int| 0 <= q < s.len() implies #[trigger] rule_match(
            Rule::AdaptationSet { inject },
            s,
            q,
        ) is None by {
            lemma_absent_at(s, "<AdaptationSet"@, q);
        }
        lemma_replace_none(Rule::AdaptationSet { inject }, s, 0);
    }
}

/// Resolving keeps the reference: the result always ends with `relative`;
/// an absolute URL is returned as it is, and a relative path that does
/// not start with `/` is placed in the directory of `base`.
pub proof fn law_resolve_url_keeps_reference(relative: Seq<char>, base: Seq<char>)
    ensures
        has_suffix(resolve_url_spec(relative, base), relative),
        is_absolute_url(relative) ==> resolve_url_spec(relative, base) == relative,
        !is_absolute_url(relative) && !has_prefix(relative, "/"@) ==> resolve_url_spec(
            relative,
            base,
        ) == base_dir(base) + relative,
{
    let r = resolve_url_spec(relative, base);
    let pre = r.take(r.len() - relative.len());
    assert(r == pre + relative);
    assert(r.subrange(r.len() - relative.len(), r.len() as int) == relative);
}


/// Once the scan reaches a position at or before an `<AdaptationSet …>`
/// tag, the injected text appears in what it produces.
proof fn lemma_injected_from(inject: Seq<char>, s: Seq<char>, q: int, p: int)
    requires
        0 <= q <= p,
        rule_match(Rule::AdaptationSet { inject }, s, p) is Some,
    ensures
        contains(replace_all_from(Rule::AdaptationSet { inject }, s, q), inject),
    decreases p - q,
{
    let r = Rule::AdaptationSet { inject };
    let start = p + "<AdaptationSet"@.len();
    lemma_find_char_from(s, '>', start);
    assert(p < s.len());
    match rule_match(r, s, q) {
        Some(e) => {
            if q < e <= s.len() {
                let out = rule_output(r, s, q, e);
                let rest = replace_all_from(r, s, e);
                let whole = out + rest;
                let at = out.len() - inject.len();
                assert(whole.subrange(at, at + inject.len()) == inject);
                assert(has_at(whole, at, inject));
            } else {
                lemma_find_char_from(s, '>', q + "<AdaptationSet"@.len());
            }
        },
        None => {
            assert(q != p);
            lemma_injected_from(inject, s, q + 1, p);
            let rest = replace_all_from(r, s, q + 1);
            let i = choose|i: int| has_at(rest, i, inject);
            let whole = seq![s[q]] + rest;
            assert(whole.subrange(i + 1, i + 1 + inject.len()) == rest.subrange(i, i + inject.len()));
            assert(has_at(whole, i + 1, inject));
        },
    }
}

/// With ClearKey keys, every DASH manifest that has an `<AdaptationSet …>`
/// start tag (once its URLs are rewritten and old ClearKey elements
/// removed) comes out holding the ClearKey element that points the player
/// to the proxy's license endpoint.
pub proof fn law_mpd_clearkey_injected(
    content: Seq<char>,
    base_url: Seq<char>,
    proxy: Seq<char>,
    ctx: Seq<char>,
    p: int,
)
    requires
        0 <= p,
        rule_match(
            Rule::AdaptationSet { inject: clearkey_element(proxy, ctx) },
            mpd_before_injection(content, base_url, proxy, ctx),
            p,
        ) is Some,
    ensures
        contains(rewrite_mpd_spec(content, base_url, proxy, true, ctx), clearkey_element(proxy, ctx)),
{
    lemma_injected_from(
        clearkey_element(proxy, ctx),
        mpd_before_injection(content, base_url, proxy, ctx),
        0,
        p,
    );
}



/// Every URL line of an HLS manifest goes to the proxy by what the
/// resolved URL names: when its lowercase contains `.m3u8`, `chunklist` or
/// `playlist` it is a sub-playlist and goes to `/hls`, anything else to
/// `/segment`; the `url=` value is the percent-encoded UTF-8 of the URL
/// resolved against the manifest's URL.
pub proof fn law_hls_url_line_endpoint(
    content: Seq<char>,
    base: Seq<char>,
    proxy: Seq<char>,
    ctx: Seq<char>,
)
    ensures
        ({
            let ins = lines_of(content);
            let outs = ins.map_values(|l: Seq<char>| rewrite_hls_line_spec(l, base, proxy, ctx));
            &&& rewrite_hls_spec(content, base, proxy, ctx) == join_lines(outs)
            &&& outs.len() == ins.len()
            &&& forall|i: int|
                0 <= i < ins.len() && trim(ins[i]).len() > 0 && trim(ins[i])[0] != '#' ==> {
                    let u = resolve_url_spec(trim(ins[i]), base);
                    let l = lower_seq(u);
                    let kind = if contains(l, ".m3u8"@) || contains(l, "chunklist"@) || contains(
                        l,
                        "playlist"@,
                    ) {
                        "hls"@
                    } else {
                        "segment"@
                    };
                    #[trigger] outs[i] == proxy + "/"@ + kind + "?ctx="@ + ctx + "&url="@
                        + percent_encode(encode_utf8(u))
                }
        }),
{
}

/// A rewritten `<BaseURL>` points to the proxy's segment endpoint, and its
/// `url=` value is the percent-encoded UTF-8 of the element's trimmed text
/// resolved against the manifest's directory: an absolute `http(s)://`
/// URL is carried unchanged.
pub proof fn law_base_url_rewritten(
    s: Seq<char>,
    p: int,
    dir: Seq<char>,
    proxy: Seq<char>,
    ctx: Seq<char>,
)
    requires
        rule_match(Rule::BaseUrl { dir, proxy, ctx }, s, p) is Some,
    ensures
        ({
            let e = rule_match(Rule::BaseUrl { dir, proxy, ctx }, s, p)->0;
            let q = find_char_from(s, '>', p + "<BaseURL"@.len())->0;
            let t = trim(s.subrange(q + 1, e - "</BaseURL>"@.len()));
            let u = resolve_url_spec(t, dir);
            &&& rule_output(Rule::BaseUrl { dir, proxy, ctx }, s, p, e) == "<BaseURL>"@ + proxy + "/"@
                + "segment"@ + "?ctx="@ + ctx + "&url="@ + percent_encode(encode_utf8(u))
                + "</BaseURL>"@
            &&& (has_prefix(t, "http://"@) || has_prefix(t, "https://"@)) ==> u == t
        }),
{
}

/// A path starting with `/` goes after the origin of the base URL, whatever
/// its scheme: when `base` has its first `://` at `p` and its first `/`
/// after that at `q`, the result is `base[..q]` followed by the path.
pub proof fn law_resolve_absolute_path(relative: Seq<char>, base: Seq<char>, p: int, q: int)
    requires
        !has_prefix(relative, "http://"@),
        !has_prefix(relative, "https://"@),
        has_prefix(relative, "/"@),
        has_at(base, p, "://"@),
        forall|j: int| 0 <= j < p ==> !has_at(base, j, "://"@),
        p + "://"@.len() <= q < base.len(),
        base[q] == '/',
        forall|j: int| p + "://"@.len() <= j < q ==> base[j] != '/',
    ensures
        resolve_url_spec(relative, base) == base.take(q) + relative,
{
    reveal_strlit("://");
    lemma_find_from(base, "://"@, 0);
    lemma_find_char_from(base, '/', p + "://"@.len());
    assert(find_from(base, "://"@, 0) == Some(p)) by {
        match find_from(base, "://"@, 0) {
            Some(i) => {
                if i < p {
                    assert(!has_at(base, i, "://"@));
                } else if i > p {
                    assert(!has_at(base, p, "://"@));
                }
            },
            None => {
                assert(!has_at(base, p, "://"@));
            },
        }
    }
    assert(find_char_from(base, '/', p + "://"@.len()) == Some(q)) by {
        match find_char_from(base, '/', p + "://"@.len()) {
            Some(i) => {
                if i < q {
                    assert(base[i] != '/');
                } else if i > q {
                    assert(base[q] != '/');
                }
            },
            None => {
                assert(base[q] != '/');
            },
        }
    }
}

} // verus!

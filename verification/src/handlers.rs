//! The decisions of the HTTP endpoints, apart from the I/O around them.

use vstd::prelude::*;
use crate::playlist::{is_dash_url, Channel, ChannelSpec};
use crate::rewriter::{
    proxy_url, proxy_url_spec, rewrite_hls, rewrite_hls_spec, join_lines,
};
use crate::unicode::{lower_seq, lowercase};
use crate::codec::percent_encode;
use vstd::utf8::encode_utf8;
use crate::text::{
    chars_of, contains, contains_seq, decimal, find_char, find_char_from, find_from, find_seq,
    has_suffix, push_all, push_decimal, push_str, rfind, rfind_char, string_of, trim,
    trim_bounds,
};

verus! {

// ─── Query structs ──────────────────────────────────────────────────────────

/// `?ctx=…&url=…` of the manifest endpoints.
#[derive(Debug)]
pub struct ManifestQuery {
    pub ctx: Option<String>,
    pub url: Option<String>,
}

/// `?ctx=…&url=…` of the segment endpoint.
#[derive(Debug)]
pub struct SegmentQuery {
    pub ctx: Option<String>,
    pub url: Option<String>,
}

/// `?ctx=…` of the license endpoint.
#[derive(Debug)]
pub struct ClearKeyQuery {
    pub ctx: Option<String>,
}

/// A query value, or the empty text when it is absent.
pub open spec fn or_empty(o: Option<Seq<char>>) -> Seq<char> {
    match o {
        Some(s) => s,
        None => Seq::empty(),
    }
}

fn non_empty(o: &Option<String>) -> (r: Option<String>)
    ensures
        match r {
            Some(u) => o.deep_view() == Some(u@) && u@.len() > 0,
            None => or_empty(o.deep_view()).len() == 0,
        },
{
    match o {
        Some(u) => if u.as_str().is_empty() {
            None
        } else {
            Some(u.clone())
        },
        None => None,
    }
}

fn value_or_empty(o: &Option<String>) -> (r: String)
    ensures
        r@ == or_empty(o.deep_view()),
{
    match o {
        Some(c) => c.clone(),
        None => String::new(),
    }
}

impl ManifestQuery {
    /// The upstream URL; `None` when it is missing or empty (a bad request).
    pub fn target_url(&self) -> (r: Option<String>)
        ensures
            match r {
                Some(u) => self.url.deep_view() == Some(u@) && u@.len() > 0,
                None => or_empty(self.url.deep_view()).len() == 0,
            },
    {
        non_empty(&self.url)
    }

    /// The context token (empty when absent).
    pub fn ctx_token(&self) -> (r: String)
        ensures
            r@ == or_empty(self.ctx.deep_view()),
    {
        value_or_empty(&self.ctx)
    }
}

impl SegmentQuery {
    /// The upstream URL; `None` when it is missing or empty (a bad request).
    pub fn target_url(&self) -> (r: Option<String>)
        ensures
            match r {
                Some(u) => self.url.deep_view() == Some(u@) && u@.len() > 0,
                None => or_empty(self.url.deep_view()).len() == 0,
            },
    {
        non_empty(&self.url)
    }

    /// The context token (empty when absent).
    pub fn ctx_token(&self) -> (r: String)
        ensures
            r@ == or_empty(self.ctx.deep_view()),
    {
        value_or_empty(&self.ctx)
    }
}

impl ClearKeyQuery {
    /// The context token (empty when absent).
    pub fn ctx_token(&self) -> (r: String)
        ensures
            r@ == or_empty(self.ctx.deep_view()),
    {
        value_or_empty(&self.ctx)
    }
}

// ─── Proxy base URL ─────────────────────────────────────────────────────────

/// `http://` and the request's `Host` header (`localhost:8888` without one).
pub open spec fn proxy_base_spec(host: Option<Seq<char>>) -> Seq<char> {
    "http://"@ + match host {
        Some(h) => h,
        None => "localhost:8888"@,
    }
}

pub fn proxy_base(host: Option<&str>) -> (r: String)
    ensures
        r@ == proxy_base_spec(match host {
            Some(h) => Some(h@),
            None => None,
        }),
{
    let mut out: Vec<char> = Vec::new();
    push_str(&mut out, "http://");
    match host {
        Some(h) => push_str(&mut out, h),
        None => push_str(&mut out, "localhost:8888"),
    }
    string_of(out.as_slice())
}

// ─── /playlist.m3u8 ─────────────────────────────────────────────────────────

/// The proxy's own playlist: a header, then for every channel its
/// `#EXTINF` line and its `/stream/<id>` URL.
pub open spec fn playlist_lines(chs: Seq<ChannelSpec>, proxy: Seq<char>) -> Seq<Seq<char>>
    decreases chs.len(),
{
    if chs.len() == 0 {
        seq!["#EXTM3U"@, Seq::empty()]
    } else {
        playlist_lines(chs.drop_last(), proxy).push(chs.last().extinf).push(
            proxy + "/stream/"@ + decimal(chs.last().id),
        )
    }
}

pub open spec fn playlist_text(chs: Seq<ChannelSpec>, proxy: Seq<char>) -> Seq<char> {
    join_lines(playlist_lines(chs, proxy))
}

proof fn lemma_playlist_lines_len(chs: Seq<ChannelSpec>, proxy: Seq<char>)
    ensures
        playlist_lines(chs, proxy).len() == 2 + 2 * chs.len(),
    decreases chs.len(),
{
    if chs.len() > 0 {
        lemma_playlist_lines_len(chs.drop_last(), proxy);
    }
}

proof fn lemma_join_push(ls: Seq<Seq<char>>, l: Seq<char>)
    requires
        ls.len() > 0,
    ensures
        join_lines(ls.push(l)) == join_lines(ls) + "\n"@ + l,
{
    assert(ls.push(l).drop_last() == ls);
}

/// Renders the playlist that points every channel at the proxy.
pub fn render_playlist(channels: &[Channel], proxy_base: &str) -> (r: String)
    ensures
        r@ == playlist_text(crate::playlist::channels_view(channels@), proxy_base@),
{
    let pb = chars_of(proxy_base);
    let ghost chs = crate::playlist::channels_view(channels@);
    let mut out: Vec<char> = Vec::new();
    push_str(&mut out, "#EXTM3U");
    push_str(&mut out, "\n");
    proof {
        reveal_strlit("#EXTM3U");
        assert(playlist_lines(chs.take(0), pb@) == seq!["#EXTM3U"@, Seq::<char>::empty()]);
        assert(seq!["#EXTM3U"@, Seq::<char>::empty()].drop_last() == seq!["#EXTM3U"@]);
        let first = seq!["#EXTM3U"@, Seq::<char>::empty()];
        assert(join_lines(first.drop_last()) == "#EXTM3U"@);
        assert(join_lines(first) == join_lines(first.drop_last()) + "\n"@ + Seq::<char>::empty());
        assert(out@ == join_lines(first));
    }
    let n = channels.len();
    for i in 0..n
        invariant
            n == chs.len(),
            chs == crate::playlist::channels_view(channels@),
            pb@ == proxy_base@,
            out@ == join_lines(playlist_lines(chs.take(i as int), pb@)),
    {
        let ch = &channels[i];
        assert(chs[i as int] == ch@);
        let ghost prev = playlist_lines(chs.take(i as int), pb@);
        proof {
            lemma_playlist_lines_len(chs.take(i as int), pb@);
            assert(chs.take(i + 1).drop_last() == chs.take(i as int));
            lemma_join_push(prev, ch.extinf@);
            lemma_join_push(prev.push(ch.extinf@), pb@ + "/stream/"@ + decimal(ch.id as nat));
        }
        push_str(&mut out, "\n");
        push_str(&mut out, ch.extinf.as_str());
        push_str(&mut out, "\n");
        push_all(&mut out, pb.as_slice());
        push_str(&mut out, "/stream/");
        push_decimal(&mut out, ch.id);
    }
    assert(chs.take(n as int) == chs);
    string_of(out.as_slice())
}


// ─── /stream/:id ────────────────────────────────────────────────────────────

/// Where `/stream/<id>` redirects: the `/mpd` endpoint for DASH channels,
/// `/hls` otherwise, with the channel's context and URL.
pub fn stream_location(ch: &Channel, proxy_base: &str, ctx_b64: &str) -> (r: String)
    ensures
        r@ == proxy_url_spec(
            if is_dash_url(ch.stream_url@) {
                "mpd"@
            } else {
                "hls"@
            },
            ch.stream_url@,
            proxy_base@,
            ctx_b64@,
        ),
{
    let kind = if ch.is_dash() {
        "mpd"
    } else {
        "hls"
    };
    proxy_url(kind, ch.stream_url.as_str(), proxy_base, ctx_b64)
}

// ─── /hls ───────────────────────────────────────────────────────────────────

/// The answer of `/hls` once the upstream manifest has been fetched.
#[derive(Debug)]
pub enum HlsReply {
    /// The manifest is DASH: redirect to this `/mpd` URL.
    Redirect(String),
    /// The rewritten HLS manifest.
    Manifest(String),
}

/// The upstream answer is a DASH manifest: its content type mentions
/// `mpd`, or its URL contains `.mpd`.
pub open spec fn answer_is_dash(content_type: Seq<char>, target_url: Seq<char>) -> bool {
    contains(content_type, "mpd"@) || contains(target_url, ".mpd"@)
}

/// Decides the `/hls` answer for an upstream manifest `body` fetched from
/// `target_url` with the given content type (empty when there is none).
pub fn hls_reply(
    target_url: &str,
    content_type: &str,
    body: &str,
    proxy_base: &str,
    ctx_b64: &str,
) -> (r: HlsReply)
    ensures
        match r {
            HlsReply::Redirect(l) => answer_is_dash(content_type@, target_url@) && l@
                == proxy_url_spec("mpd"@, target_url@, proxy_base@, ctx_b64@),
            HlsReply::Manifest(m) => !answer_is_dash(content_type@, target_url@) && m@
                == rewrite_hls_spec(body@, target_url@, proxy_base@, ctx_b64@),
        },
{
    let ct = chars_of(content_type);
    let url = chars_of(target_url);
    let mpd = chars_of("mpd");
    let dot_mpd = chars_of(".mpd");
    // If it turned out to be a DASH manifest, redirect
    if contains_seq(ct.as_slice(), mpd.as_slice()) || contains_seq(url.as_slice(), dot_mpd.as_slice()) {
        HlsReply::Redirect(proxy_url("mpd", target_url, proxy_base, ctx_b64))
    } else {
        HlsReply::Manifest(rewrite_hls(body, target_url, proxy_base, ctx_b64))
    }
}

// ─── Content types ──────────────────────────────────────────────────────────

/// The content type of a rewritten MPD: the upstream's, or
/// `application/dash+xml` when it sent none.
pub fn mpd_content_type(upstream: Option<&str>) -> (r: String)
    ensures
        r@ == match upstream {
            Some(t) => t@,
            None => "application/dash+xml"@,
        },
{
    match upstream {
        Some(t) => t.to_owned(),
        None => "application/dash+xml".to_owned(),
    }
}

/// The content type of a streamed segment: the upstream's, or
/// `application/octet-stream` when it sent none (or none readable).
pub fn segment_content_type(upstream: Option<&str>) -> (r: String)
    ensures
        r@ == match upstream {
            Some(t) => t@,
            None => "application/octet-stream"@,
        },
{
    match upstream {
        Some(t) => t.to_owned(),
        None => "application/octet-stream".to_owned(),
    }
}

// ─── /segment ───────────────────────────────────────────────────────────────

/// A segment URL that is in fact an HLS playlist (its lowercase contains
/// `.m3u8`): it is fetched whole instead of streamed.
pub open spec fn segment_is_playlist_spec(url: Seq<char>) -> bool {
    contains(lower_seq(url), ".m3u8"@)
}

pub fn segment_is_playlist(url: &str) -> (b: bool)
    ensures
        b == segment_is_playlist_spec(url@),
{
    let u = chars_of(url);
    let lower = lowercase(u.as_slice());
    let m3u8 = chars_of(".m3u8");
    contains_seq(lower.as_slice(), m3u8.as_slice())
}

// ─── /channels.json ─────────────────────────────────────────────────────────

/// One entry of `/channels.json`.
#[derive(Debug)]
pub struct ChannelInfo {
    pub id: usize,
    pub name: String,
    pub group: String,
    pub url: String,
    pub kind: String,
    pub drm: String,
    pub has_key: bool,
}

/// The channel name: the text after the last `,` of the `#EXTINF` line, trimmed.
pub open spec fn extinf_name(extinf: Seq<char>) -> Seq<char> {
    match rfind_char(extinf, ',') {
        Some(i) => trim(extinf.skip(i + 1)),
        None => trim(extinf),
    }
}

/// The value of `attr="…"` in the `#EXTINF` line.
pub open spec fn extinf_attr(extinf: Seq<char>, attr: Seq<char>) -> Option<Seq<char>> {
    let search = attr + "=\""@;
    match find_from(extinf, search, 0) {
        Some(p) => match find_char_from(extinf, '"', p + search.len()) {
            Some(q) => Some(extinf.subrange(p + search.len(), q)),
            None => None,
        },
        None => None,
    }
}

fn extract_extinf_name(extinf: &[char]) -> (v: Vec<char>)
    ensures
        v@ == extinf_name(extinf@),
{
    let start = match rfind(extinf, ',') {
        Some(i) => i + 1,
        None => {
            assert(extinf@.skip(0) == extinf@);
            0
        },
    };
    assert(extinf@.subrange(start as int, extinf@.len() as int) == extinf@.skip(start as int));
    let (a, b) = trim_bounds(extinf, start, extinf.len());
    let mut v: Vec<char> = Vec::new();
    push_all(&mut v, &extinf[a..b]);
    v
}

fn extract_extinf_attr(extinf: &[char], attr: &str) -> (r: Option<Vec<char>>)
    ensures
        match r {
            Some(v) => extinf_attr(extinf@, attr@) == Some(v@),
            None => extinf_attr(extinf@, attr@) is None,
        },
{
    let mut search: Vec<char> = Vec::new();
    push_str(&mut search, attr);
    push_str(&mut search, "=\"");
    match find_seq(extinf, search.as_slice(), 0) {
        Some(p) => {
            let start = p + search.len();
            match find_char(extinf, '"', start) {
                Some(q) => {
                    let mut v: Vec<char> = Vec::new();
                    push_all(&mut v, &extinf[start..q]);
                    Some(v)
                },
                None => None,
            }
        },
        None => None,
    }
}

/// The `/channels.json` entry of a channel.
pub open spec fn channel_info_spec(
    ch: ChannelSpec,
    proxy: Seq<char>,
) -> (nat, Seq<char>, Seq<char>, Seq<char>, Seq<char>, Seq<char>, bool) {
    (
        ch.id,
        extinf_name(ch.extinf),
        match extinf_attr(ch.extinf, "group-title"@) {
            Some(g) => g,
            None => "-"@,
        },
        proxy + "/stream/"@ + decimal(ch.id),
        if is_dash_url(ch.stream_url) {
            "DASH"@
        } else {
            "HLS"@
        },
        match ch.params.license_type {
            Some(t) => t,
            None => "none"@,
        },
        ch.params.clear_keys != Map::<Seq<char>, Seq<char>>::empty(),
    )
}

impl ChannelInfo {
    pub open spec fn as_tuple(&self) -> (
        nat,
        Seq<char>,
        Seq<char>,
        Seq<char>,
        Seq<char>,
        Seq<char>,
        bool,
    ) {
        (
            self.id as nat,
            self.name@,
            self.group@,
            self.url@,
            self.kind@,
            self.drm@,
            self.has_key,
        )
    }
}

/// Describes a channel for `/channels.json`.
pub fn channel_info(ch: &Channel, proxy_base: &str) -> (info: ChannelInfo)
    ensures
        info.as_tuple() == channel_info_spec(ch@, proxy_base@),
{
    let extinf = chars_of(ch.extinf.as_str());
    let name = extract_extinf_name(extinf.as_slice());
    let group = match extract_extinf_attr(extinf.as_slice(), "group-title") {
        Some(g) => string_of(g.as_slice()),
        None => "-".to_owned(),
    };
    let mut url: Vec<char> = Vec::new();
    push_str(&mut url, proxy_base);
    push_str(&mut url, "/stream/");
    push_decimal(&mut url, ch.id);
    let kind = if ch.is_dash() {
        "DASH".to_owned()
    } else {
        "HLS".to_owned()
    };
    let drm = match &ch.license_type {
        Some(t) => t.clone(),
        None => "none".to_owned(),
    };
    ChannelInfo {
        id: ch.id,
        name: string_of(name.as_slice()),
        group,
        url: string_of(url.as_slice()),
        kind,
        drm,
        has_key: !ch.clear_keys.is_empty(),
    }
}


// ─── Laws ───────────────────────────────────────────────────────────────────

/// A stream URL that contains `.mpd` anywhere (a query string may follow)
/// or ends with `/manifest` is DASH, and `/stream/<id>` sends it to the
/// `/mpd` endpoint; any other stream URL goes to `/hls`. The `url=` value
/// is the percent-encoded UTF-8 of the stream URL.
pub proof fn law_stream_endpoint(url: Seq<char>, proxy: Seq<char>, ctx: Seq<char>)
    ensures
        (contains(url, ".mpd"@) || has_suffix(url, "/manifest"@)) == is_dash_url(url),
        contains(url, ".mpd"@) || has_suffix(url, "/manifest"@) ==> proxy_url_spec(
            if is_dash_url(url) {
                "mpd"@
            } else {
                "hls"@
            },
            url,
            proxy,
            ctx,
        ) == proxy + "/"@ + "mpd"@ + "?ctx="@ + ctx + "&url="@ + percent_encode(encode_utf8(url)),
        !(contains(url, ".mpd"@) || has_suffix(url, "/manifest"@)) ==> proxy_url_spec(
            if is_dash_url(url) {
                "mpd"@
            } else {
                "hls"@
            },
            url,
            proxy,
            ctx,
        ) == proxy + "/"@ + "hls"@ + "?ctx="@ + ctx + "&url="@ + percent_encode(encode_utf8(url)),
{
}

} // verus!

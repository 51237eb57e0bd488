use iptv_proxy::handlers::{mpd_content_type, segment_content_type};
use iptv_proxy::handlers::{
    channel_info, hls_reply, proxy_base, render_playlist, segment_is_playlist, stream_location,
    HlsReply, ManifestQuery,
};
use iptv_proxy::playlist::parse_playlist;

fn sample() -> Vec<iptv_proxy::playlist::Channel> {
    parse_playlist(
        "#EXTM3U\n#EXTINF:-1 group-title=\"News\",  World News \nhttp://h/n.m3u8\n\
         #EXTINF:-1,Movies\nhttp://h/m.mpd|license_type=clearkey&license_key=00000000000000000000000000000000:11111111111111111111111111111111\n",
    )
}

#[test]
fn playlist_points_at_proxy() {
    let chs = sample();
    let pb = proxy_base(Some("tv.local:9"));
    assert_eq!(pb, "http://tv.local:9");
    assert_eq!(proxy_base(None), "http://localhost:8888");
    assert_eq!(
        render_playlist(&chs, &pb),
        "#EXTM3U\n\n#EXTINF:-1 group-title=\"News\",  World News\nhttp://tv.local:9/stream/0\n#EXTINF:-1,Movies\nhttp://tv.local:9/stream/1"
    );
}

#[test]
fn stream_redirects() {
    let chs = sample();
    assert_eq!(stream_location(&chs[0], "http://p", "C"), "http://p/hls?ctx=C&url=http%3A%2F%2Fh%2Fn.m3u8");
    assert_eq!(stream_location(&chs[1], "http://p", "C"), "http://p/mpd?ctx=C&url=http%3A%2F%2Fh%2Fm.mpd");
}

#[test]
fn channel_infos() {
    let chs = sample();
    let a = channel_info(&chs[0], "http://p");
    assert_eq!(a.name, "World News");
    assert_eq!(a.group, "News");
    assert_eq!(a.kind, "HLS");
    assert_eq!(a.drm, "none");
    assert!(!a.has_key);
    let b = channel_info(&chs[1], "http://p");
    assert_eq!(b.id, 1);
    assert_eq!(b.group, "-");
    assert_eq!(b.url, "http://p/stream/1");
    assert_eq!(b.kind, "DASH");
    assert_eq!(b.drm, "clearkey");
    assert!(b.has_key);
}

#[test]
fn hls_reply_redirects_dash() {
    match hls_reply("http://h/a.mpd", "", "", "http://p", "C") {
        HlsReply::Redirect(l) => assert_eq!(l, "http://p/mpd?ctx=C&url=http%3A%2F%2Fh%2Fa.mpd"),
        HlsReply::Manifest(_) => panic!("expected a redirect"),
    }
    match hls_reply("http://h/a.m3u8", "application/vnd.apple.mpegurl", "x.ts", "http://p", "C") {
        HlsReply::Manifest(m) => assert_eq!(m, "http://p/segment?ctx=C&url=http%3A%2F%2Fh%2Fx.ts"),
        HlsReply::Redirect(_) => panic!("expected a manifest"),
    }
}

#[test]
fn queries_and_segments() {
    let q = ManifestQuery { ctx: None, url: Some(String::new()) };
    assert!(q.target_url().is_none());
    assert_eq!(q.ctx_token(), "");
    let q = ManifestQuery { ctx: Some("c".into()), url: Some("u".into()) };
    assert_eq!(q.target_url().as_deref(), Some("u"));
    assert!(segment_is_playlist("http://h/A.M3U8?x"));
    assert!(!segment_is_playlist("http://h/a.ts"));
}

#[test]
fn default_content_types() {
    assert_eq!(mpd_content_type(None), "application/dash+xml");
    assert_eq!(mpd_content_type(Some("text/xml")), "text/xml");
    assert_eq!(segment_content_type(None), "application/octet-stream");
    assert_eq!(segment_content_type(Some("video/mp2t")), "video/mp2t");
}

use iptv_proxy::playlist::{channel_parsable, parse_channel, parse_playlist, try_parse_playlist};
use iptv_proxy::param_split::smart_split;

#[test]
fn test_clearkey_line() {
    let raw = "https://example.com/stream/index.mpd\
        |license_type=clearkey\
        &license_key=c3004565365a42d08e3bde39a516d64e:dbfdc0967cfbbed01dba730c99d9c14a\
        &User-Agent=referrer=https://www.visionplus.id/";
    let ch = parse_channel(0, "#EXTINF:-1".into(), raw);
    assert_eq!(ch.license_type.as_deref(), Some("clearkey"));
    assert_eq!(
        ch.clear_keys.get("c3004565365a42d08e3bde39a516d64e"),
        Some(&"dbfdc0967cfbbed01dba730c99d9c14a".to_string())
    );
    assert_eq!(ch.headers.get("referer").map(|s| s.as_str()), Some("https://www.visionplus.id/"));
}

#[test]
fn test_hls_user_agent() {
    let raw = "https://example.com/live.m3u8\
        |User-Agent=Mozilla/5.0 (Windows NT 10.0) Chrome/109.0";
    let ch = parse_channel(0, "#EXTINF:-1".into(), raw);
    assert_eq!(
        ch.headers.get("user-agent").map(|s| s.as_str()),
        Some("Mozilla/5.0 (Windows NT 10.0) Chrome/109.0")
    );
}

#[test]
fn test_parse_playlist_count() {
    let m3u = "#EXTM3U\n\
        #EXTINF:-1 group-title=\"Test\",Channel 1\n\
        https://example.com/ch1.m3u8\n\
        #EXTINF:-1 group-title=\"Test\",Channel 2\n\
        https://example.com/ch2.mpd|license_type=clearkey&license_key=aabb:ccdd";
    // license_key has 4-char segments — won't match 32 hex, but parse shouldn't panic
    let channels = parse_playlist(m3u);
    assert_eq!(channels.len(), 2);
    assert!(!channels[0].is_dash());
    assert!(channels[1].is_dash());
}

#[test]
fn playlist_ids_follow_order() {
    let m3u = "#EXTM3U\r\n#EXTINF:-1,A\r\nhttp://a/1.m3u8\r\n# comment\r\n\r\n#EXTINF:-1,B\r\nhttp://b/2.m3u8\r\n";
    let channels = parse_playlist(m3u);
    assert_eq!(channels.len(), 2);
    assert_eq!(channels[0].id, 0);
    assert_eq!(channels[1].id, 1);
    assert_eq!(channels[0].extinf, "#EXTINF:-1,A");
    assert_eq!(channels[1].stream_url, "http://b/2.m3u8");
}

#[test]
fn url_line_without_extinf_is_skipped() {
    let m3u = "#EXTM3U\nhttp://orphan/x.m3u8\n#EXTINF:-1,A\nhttp://a/1.m3u8\nhttp://after/2.m3u8\n";
    let channels = parse_playlist(m3u);
    assert_eq!(channels.len(), 1);
    assert_eq!(channels[0].stream_url, "http://a/1.m3u8");
}

#[test]
fn license_url_and_uppercase_keys() {
    let ch = parse_channel(3, "#EXTINF:-1".into(), " http://x/a.mpd |License_Key=https://lic.example/w?a=1&b=2");
    assert_eq!(ch.id, 3);
    assert_eq!(ch.stream_url, "http://x/a.mpd");
    assert_eq!(ch.license_url.as_deref(), Some("https://lic.example/w?a=1&b=2"));
    assert!(ch.clear_keys.is_empty());

    let ch = parse_channel(0, "#EXTINF:-1".into(),
        "u|license_key= C3004565365A42D08E3BDE39A516D64E : DBFDC0967CFBBED01DBA730C99D9C14A ");
    assert_eq!(
        ch.clear_keys.get("c3004565365a42d08e3bde39a516d64e").map(|s| s.as_str()),
        Some("dbfdc0967cfbbed01dba730c99d9c14a")
    );
    assert!(ch.license_url.is_none());
}

#[test]
fn short_key_falls_back_to_license_url() {
    let ch = parse_channel(0, "#EXTINF:-1".into(), "u.mpd|license_key=aabb:ccdd");
    assert!(ch.clear_keys.is_empty());
    assert_eq!(ch.license_url.as_deref(), Some("aabb:ccdd"));
}

#[test]
fn referer_quotes_and_bars() {
    let ch = parse_channel(0, "#EXTINF:-1".into(), "u|referer=\"'https://r.example/'\"|user-agent=VLC");
    assert_eq!(ch.headers.get("referer").map(|s| s.as_str()), Some("https://r.example/"));
    assert_eq!(ch.headers.get("user-agent").map(|s| s.as_str()), Some("VLC"));
    let ch = parse_channel(0, "#EXTINF:-1".into(), "u|Referrer=''");
    assert!(ch.headers.get("referer").is_none());
}

#[test]
fn ampersand_inside_value_is_kept() {
    let ch = parse_channel(0, "#EXTINF:-1".into(), "u|User-Agent=A&B=C&referer=http://x/");
    assert_eq!(ch.headers.get("user-agent").map(|s| s.as_str()), Some("A&B=C"));
    assert_eq!(ch.headers.get("referer").map(|s| s.as_str()), Some("http://x/"));
}

#[test]
fn dash_detection() {
    let a = parse_channel(0, "i".into(), "http://h/path/manifest");
    let b = parse_channel(0, "i".into(), "http://h/path/Manifest");
    assert!(a.is_dash());
    assert!(!b.is_dash());
}

#[test]
fn lowercase_user_agent_key_sets_only_that_header() {
    let ch = parse_channel(7, "#EXTINF:-1,X".into(), "http://h/x.m3u8|user-agent=Kodi/20.0 (X11)");
    assert_eq!(ch.stream_url, "http://h/x.m3u8");
    assert_eq!(ch.headers.len(), 1);
    assert_eq!(ch.headers.get("user-agent").map(|s| s.as_str()), Some("Kodi/20.0 (X11)"));
    assert!(ch.clear_keys.is_empty());
    assert!(ch.license_type.is_none());
    assert!(ch.license_url.is_none());
}

#[test]
fn parameter_cut_inside_a_character_is_refused() {
    assert!(!channel_parsable("u|User-Agent=M\u{f6}"));
    assert!(try_parse_playlist("#EXTM3U\n#EXTINF:-1,A\nu|User-Agent=M\u{f6}\n").is_none());
    let chs = try_parse_playlist("#EXTM3U\n#EXTINF:-1,A\nu|User-Agent=Mozilla \u{f6}\n").unwrap();
    assert_eq!(chs[0].headers.get("user-agent").map(|s| s.as_str()), Some("Mozilla \u{f6}"));
    assert!(!channel_parsable("u|User-Agent=X&license_\u{212a}ey=aabb:ccdd"));
    assert!(channel_parsable("u|User-Agent=X&license_key=aabb:ccdd"));
    // a URL line without an #EXTINF line before it is not parsed at all
    assert!(try_parse_playlist("u|User-Agent=M\u{f6}\n").is_some());
}

#[test]
fn ampersand_before_a_key_splits_whatever_comes_before() {
    // U+2126 OHM SIGN lowercases to a shorter character; the `&` after it
    // still starts a `referer=` token
    let ch = parse_channel(0, "#EXTINF:-1".into(), "u|User-Agent=VLC/3 \u{2126}&referer=http://x");
    assert_eq!(ch.headers.get("user-agent").map(|s| s.as_str()), Some("VLC/3 \u{2126}"));
    assert_eq!(ch.headers.get("referer").map(|s| s.as_str()), Some("http://x"));
    let ch = parse_channel(0, "#EXTINF:-1".into(), "u|User-Agent=A&RE\u{212a}=1&Referer=r");
    assert_eq!(ch.headers.get("user-agent").map(|s| s.as_str()), Some("A&RE\u{212a}=1"));
    assert_eq!(ch.headers.get("referer").map(|s| s.as_str()), Some("r"));
}

#[test]
fn ascii_playlist_always_parses() {
    let m3u = "#EXTM3U\n#EXTINF:-1,A\nhttp://a/x.mpd|LICENSE_TYPE=clearkey|license_key=ab:cd&User-Agent=referer=x&y|Referrer=\"z\"\n\
               #EXTINF:-1,B\nhttp://b/y.m3u8|&&&|=|\n";
    let chs = try_parse_playlist(m3u).expect("ASCII playlists parse");
    assert_eq!(chs.len(), 2);
    assert_eq!(chs[0].license_type.as_deref(), Some("clearkey"));
    assert_eq!(chs[0].license_url.as_deref(), Some("ab:cd"));
    assert_eq!(chs[0].headers.get("referer").map(|s| s.as_str()), Some("z"));
    assert!(chs[1].headers.is_empty());
}

#[test]
fn smart_split_splits_only_before_keys() {
    let s = "LICENSE_TYPE=clearkey&license_key=ab:cd&User-Agent=A&B=C&Referer=x";
    let parts = smart_split(s);
    assert_eq!(
        parts,
        vec!["LICENSE_TYPE=clearkey", "license_key=ab:cd", "User-Agent=A&B=C", "Referer=x"]
    );
    assert_eq!(parts.join("&"), s);
    assert_eq!(smart_split(""), vec![""]);
    assert_eq!(smart_split("&&"), vec!["&&"]);
    assert_eq!(smart_split("&referrer="), vec!["", "referrer="]);
}

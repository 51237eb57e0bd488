use iptv_proxy::rewriter::{
    decode_ctx_token, encode_ctx_token, proxy_url, resolve_url, rewrite_hls, rewrite_mpd, ProxyCtx,
};

#[test]
fn test_resolve_relative() {
    assert_eq!(
        resolve_url("segment.ts", "https://cdn.example.com/path/index.m3u8"),
        "https://cdn.example.com/path/segment.ts"
    );
}

#[test]
fn test_resolve_absolute_path() {
    assert_eq!(
        resolve_url("/live/stream.ts", "https://cdn.example.com/hls/index.m3u8"),
        "https://cdn.example.com/live/stream.ts"
    );
}

#[test]
fn test_resolve_full_url() {
    let u = "https://other.cdn.com/stream.ts";
    assert_eq!(resolve_url(u, "https://cdn.example.com/"), u);
}

#[test]
fn test_hls_rewrite_tag_uri() {
    let hls = r#"#EXTM3U
#EXT-X-KEY:METHOD=AES-128,URI="https://key.server/key123",IV=0x00
seg001.ts
"#;
    let out = rewrite_hls(hls, "https://cdn.example.com/stream/", "http://proxy:8888", "CTX");
    assert!(out.contains("http://proxy:8888/clearkey?ctx=CTX"));
    assert!(out.contains("http://proxy:8888/segment?ctx=CTX&url="));
}

#[test]
fn resolve_without_origin_path() {
    assert_eq!(resolve_url("/a.ts", "relative/dir/x.m3u8"), "relative/dir//a.ts");
    assert_eq!(resolve_url("a.ts", "noslash"), "noslasha.ts");
}

#[test]
fn proxy_url_percent_encodes() {
    assert_eq!(
        proxy_url("segment", "http://h/a b?x=1&y=\u{e9}", "http://p", "C"),
        "http://p/segment?ctx=C&url=http%3A%2F%2Fh%2Fa%20b%3Fx%3D1%26y%3D%C3%A9"
    );
}

#[test]
fn hls_exact_output() {
    let hls = "#EXTM3U\r\n#EXT-X-MAP:URI=\"init.mp4\"\r\n  \r\nsub/Chunklist_1.m3u8\nseg.ts\n";
    let out = rewrite_hls(hls, "https://c.example/s/index.m3u8", "http://p", "X");
    assert_eq!(
        out,
        "#EXTM3U\n\
         #EXT-X-MAP:URI=\"http://p/segment?ctx=X&url=https%3A%2F%2Fc.example%2Fs%2Finit.mp4\"\n  \n\
         http://p/hls?ctx=X&url=https%3A%2F%2Fc.example%2Fs%2Fsub%2FChunklist_1.m3u8\n\
         http://p/segment?ctx=X&url=https%3A%2F%2Fc.example%2Fs%2Fseg.ts"
    );
}

#[test]
fn mpd_rewrite_without_keys() {
    let mpd = "<MPD><BaseURL> video/ </BaseURL><SegmentTemplate initialization=\"i.mp4\" media=\"$Number$.m4s\"/></MPD>";
    let ctx = ProxyCtx::default();
    let out = rewrite_mpd(mpd, "https://c.example/d/m.mpd", "http://p", &ctx, "T");
    assert_eq!(
        out,
        "<MPD><BaseURL>http://p/segment?ctx=T&url=https%3A%2F%2Fc.example%2Fd%2Fvideo%2F</BaseURL>\
         <SegmentTemplate initialization=\"http://p/segment?ctx=T&url=https%3A%2F%2Fc.example%2Fd%2Fi.mp4\" \
         media=\"http://p/segment?ctx=T&url=https%3A%2F%2Fc.example%2Fd%2F$Number$.m4s\"/></MPD>"
    );
}

#[test]
fn mpd_clearkey_injection() {
    let mpd = "<AdaptationSet id=\"1\"><ContentProtection schemeIdUri=\"urn:uuid:e2719d58-a985-b3c9-781a-b030af78d30e\"><x/></ContentProtection></AdaptationSet><AdaptationSets>";
    let mut ctx = ProxyCtx::default();
    ctx.clear_keys.insert("k".to_string(), "v".to_string());
    assert!(ctx.has_clear_keys());
    let out = rewrite_mpd(mpd, "http://c/m.mpd", "http://p", &ctx, "T");
    let inject = "<ContentProtection schemeIdUri=\"urn:uuid:e2719d58-a985-b3c9-781a-b030af78d30e\">\n      <dashif:Laurl xmlns:dashif=\"https://dashif.org/CPS\">http://p/clearkey?ctx=T</dashif:Laurl>\n    </ContentProtection>";
    assert_eq!(out, format!("<AdaptationSet id=\"1\">\n    {}</AdaptationSet><AdaptationSets>", inject));
}

#[test]
fn mpd_self_closing_clearkey_removed() {
    let mpd = "<ContentProtection value=\"x\" schemeIdUri=\"urn:uuid:e2719d58-a985-b3c9-781a-b030af78d30e\"/><Rest/>";
    let mut ctx = ProxyCtx::default();
    ctx.clear_keys.insert("k".to_string(), "v".to_string());
    let out = rewrite_mpd(mpd, "http://c/m.mpd", "http://p", &ctx, "T");
    assert_eq!(out, "<Rest/>");
}

#[test]
fn ctx_token_roundtrip() {
    let json = "{\"headers\":{\"user-agent\":\"VLC\"}}";
    let t = encode_ctx_token(json);
    assert_eq!(decode_ctx_token(&t).as_deref(), Some(json));
    assert_eq!(decode_ctx_token("!!"), None);
    // base64url of the bytes 0xff 0xfe, which are not UTF-8
    assert_eq!(decode_ctx_token("__4"), None);
}

#[test]
fn mpd_without_patterns_passes_through() {
    let mpd = "<MPD><Period><Representation id=\"v\"/></Period></MPD>";
    let mut ctx = ProxyCtx::default();
    assert_eq!(rewrite_mpd(mpd, "http://c/m.mpd", "http://p", &ctx, "T"), mpd);
    ctx.clear_keys.insert("k".to_string(), "v".to_string());
    assert_eq!(rewrite_mpd(mpd, "http://c/m.mpd", "http://p", &ctx, "T"), mpd);
}

#[test]
fn hls_keeps_line_structure() {
    let hls = "#EXTM3U\n\n  \n#EXTINF:4,\na.ts\nhttp://o/live/playlist_hd";
    let out = rewrite_hls(hls, "http://c/s/i.m3u8", "http://p", "K");
    let lines: Vec<&str> = out.split('\n').collect();
    assert_eq!(lines.len(), 6);
    assert_eq!(lines[1], "");
    assert_eq!(lines[2], "  ");
    assert_eq!(lines[3], "#EXTINF:4,");
    assert_eq!(lines[4], "http://p/segment?ctx=K&url=http%3A%2F%2Fc%2Fs%2Fa.ts");
    assert_eq!(lines[5], "http://p/hls?ctx=K&url=http%3A%2F%2Fo%2Flive%2Fplaylist_hd");
}

#[test]
fn resolved_url_ends_with_reference() {
    for (rel, base) in [("x.ts", "http://h/a/b.m3u8"), ("/y.ts", "http://h/a/b"), ("https://o/z", "http://h/")] {
        assert!(resolve_url(rel, base).ends_with(rel));
    }
    assert_eq!(resolve_url("x.ts", "http://h/a/b.m3u8"), "http://h/a/x.ts");
}

/// The context as the server serializes it: JSON objects of headers and
/// keys, and the license type.
fn ctx_json(ctx: &ProxyCtx) -> String {
    let obj = |m: &iptv_proxy::string_map::StringMap| {
        serde_json::Value::Object(
            m.entries()
                .iter()
                .map(|(k, v)| (k.clone(), serde_json::Value::String(v.clone())))
                .collect(),
        )
    };
    let mut top = serde_json::Map::new();
    top.insert("headers".to_string(), obj(&ctx.headers));
    top.insert("clear_keys".to_string(), obj(&ctx.clear_keys));
    top.insert(
        "license_type".to_string(),
        match &ctx.license_type {
            Some(t) => serde_json::Value::String(t.clone()),
            None => serde_json::Value::Null,
        },
    );
    serde_json::Value::Object(top).to_string()
}

fn ctx_from_json(json: &str) -> ProxyCtx {
    let mut ctx = ProxyCtx::default();
    if let Ok(serde_json::Value::Object(top)) = serde_json::from_str::<serde_json::Value>(json) {
        for (field, map) in [("headers", &mut ctx.headers), ("clear_keys", &mut ctx.clear_keys)] {
            if let Some(serde_json::Value::Object(o)) = top.get(field) {
                for (k, v) in o {
                    if let Some(v) = v.as_str() {
                        map.insert(k.clone(), v.to_string());
                    }
                }
            }
        }
        ctx.license_type = top.get("license_type").and_then(|t| t.as_str()).map(|t| t.to_string());
    }
    ctx
}

#[test]
fn test_proxy_ctx_roundtrip() {
    let mut ctx = ProxyCtx::default();
    ctx.headers.insert("user-agent".into(), "VLC".into());
    ctx.clear_keys.insert("aabbccdd".repeat(4), "11223344".repeat(4));
    ctx.license_type = Some("clearkey".into());
    let encoded = encode_ctx_token(&ctx_json(&ctx));
    let decoded = ctx_from_json(&decode_ctx_token(&encoded).unwrap_or_default());
    assert_eq!(decoded.headers.get("user-agent").map(|s| s.as_str()), Some("VLC"));
    assert!(decoded.has_clear_keys());
}

#[test]
fn media_template_identifiers_stay_literal() {
    let mpd = "<SegmentTemplate media=\"v/$RepresentationID$/$Bandwidth$-$Time$-$$x$Foo$.m4s\"/>";
    let out = rewrite_mpd(mpd, "http://c/d/m.mpd", "http://p", &ProxyCtx::default(), "T");
    assert_eq!(
        out,
        "<SegmentTemplate media=\"http://p/segment?ctx=T&url=http%3A%2F%2Fc%2Fd%2Fv%2F$RepresentationID$%2F$Bandwidth$-$Time$-$$x%24Foo%24.m4s\"/>"
    );
    let out = rewrite_mpd(" media=\"seg-$Number$.m4s\"", "", "", &ProxyCtx::default(), "");
    assert_eq!(out, " media=\"/segment?ctx=&url=seg-$Number$.m4s\"");
}

#[test]
fn format_tagged_template_identifiers_stay_literal() {
    let mpd = " media=\"s-$Number%05d$-$Time%010d$-$Bandwidth%1d$-$Number%d$-$Time%0xd$.m4s\"";
    let out = rewrite_mpd(mpd, "", "http://p", &ProxyCtx::default(), "T");
    assert_eq!(
        out,
        " media=\"http://p/segment?ctx=T&url=s-$Number%05d$-$Time%010d$-%24Bandwidth%251d%24-%24Number%25d%24-%24Time%250xd%24.m4s\""
    );
}

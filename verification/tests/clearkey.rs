use base64::Engine;
use base64::engine::general_purpose::URL_SAFE_NO_PAD;
use iptv_proxy::clearkey::{b64url_to_hex, build_license, hex_to_b64url, is_hex_decodable, license_request_ok};
use iptv_proxy::string_map::StringMap;

#[test]
fn test_build_license_with_known_kid() {
    let kid_hex = "c3004565365a42d08e3bde39a516d64e";
    let key_hex = "dbfdc0967cfbbed01dba730c99d9c14a";
    let mut keys = StringMap::new();
    keys.insert(kid_hex.to_string(), key_hex.to_string());

    // Encode the KID as the player would
    let kid_b64 = hex_to_b64url(kid_hex);
    let resp = build_license(&keys, &[kid_b64.clone()]).unwrap();

    assert_eq!(resp.keys.len(), 1);
    assert_eq!(resp.keys[0].kty, "oct");
    assert_eq!(resp.keys[0].kid, kid_b64);
    // Verify the key roundtrips
    let decoded = URL_SAFE_NO_PAD.decode(&resp.keys[0].k).unwrap();
    let back_hex: String = decoded.iter().map(|b| format!("{:02x}", b)).collect();
    assert_eq!(back_hex, key_hex);
}

#[test]
fn test_build_license_fallback_all_keys() {
    let mut keys = StringMap::new();
    keys.insert("aabbccdd".repeat(4)[..32].to_string(), "11223344".repeat(4)[..32].to_string());

    // Empty requested KIDs → return all
    let resp = build_license(&keys, &[]).unwrap();
    assert_eq!(resp.keys.len(), 1);
}

#[test]
fn test_hex_b64_roundtrip() {
    let hex = "c3004565365a42d08e3bde39a516d64e";
    let b64 = hex_to_b64url(hex);
    let back = b64url_to_hex(&b64);
    assert_eq!(back, hex);
}

#[test]
fn unknown_kid_falls_back_to_every_key() {
    let mut keys = StringMap::new();
    keys.insert("00".repeat(16), "11".repeat(16));
    keys.insert("22".repeat(16), "33".repeat(16));
    let resp = build_license(&keys, &["AAAA".to_string()]).unwrap();
    assert_eq!(resp.response_type, "temporary");
    assert_eq!(resp.keys.len(), 2);
    assert_eq!(resp.keys[0].kid, hex_to_b64url(&"00".repeat(16)));
    assert_eq!(resp.keys[1].k, hex_to_b64url(&"33".repeat(16)));
}

#[test]
fn exact_base64_values() {
    assert_eq!(hex_to_b64url("48656c6c6f"), "SGVsbG8");
    assert_eq!(hex_to_b64url("fbff"), "-_8");
    assert_eq!(b64url_to_hex("SGVsbG8"), "48656c6c6f");
    // not base64url, or padded, or with trailing bits: no KID
    assert_eq!(b64url_to_hex("SGVsbG8="), "");
    assert_eq!(b64url_to_hex("SGVsbG9"), "");
    assert_eq!(b64url_to_hex("a"), "");
    // a '+' sign before one digit is a byte; other pairs are skipped
    assert_eq!(hex_to_b64url("+f"), hex_to_b64url("0f"));
    assert_eq!(hex_to_b64url("zz41"), hex_to_b64url("41"));
}

#[test]
fn decodable_hex() {
    assert!(is_hex_decodable("aabb"));
    assert!(!is_hex_decodable("aab"));
    assert!(is_hex_decodable("\u{e9}\u{e9}"));
    assert!(!is_hex_decodable("a\u{e9}b"));
    let mut keys = StringMap::new();
    keys.insert("abc".to_string(), "00".to_string());
    assert!(!license_request_ok(&keys, &[]));
    let mut keys = StringMap::new();
    keys.insert("ab".to_string(), "00".to_string());
    assert!(license_request_ok(&keys, &[]));
}

#[test]
fn string_map_keeps_insertion_order() {
    let mut m = StringMap::new();
    m.insert("b".to_string(), "1".to_string());
    m.insert("a".to_string(), "2".to_string());
    m.insert("b".to_string(), "3".to_string());
    assert_eq!(m.len(), 2);
    assert_eq!(m.get("b").map(|s| s.as_str()), Some("3"));
    assert_eq!(m.entries()[0].0, "b");
    assert_eq!(m.entries()[1].0, "a");
    assert!(m.contains_key("a"));
    assert!(!m.contains_key("c"));
    let c = m.clone();
    assert_eq!(c.entries(), m.entries());
}

#[test]
fn playlist_key_is_licensed_end_to_end() {
    let kid = "C3004565365A42D08E3BDE39A516D64E";
    let key = "dbfdc0967cfbbed01dba730c99d9c14a";
    let ch = iptv_proxy::playlist::parse_channel(
        0,
        "#EXTINF:-1".into(),
        &format!("https://h/x.mpd|license_key={}:{}", kid, key),
    );
    let kid_b64 = hex_to_b64url(&kid.to_lowercase());
    assert_eq!(kid_b64, "wwBFZTZaQtCOO945pRbWTg");
    assert!(license_request_ok(&ch.clear_keys, &[kid_b64.clone()]));
    let resp = build_license(&ch.clear_keys, &[kid_b64.clone()]).unwrap();
    assert_eq!(resp.keys.len(), 1);
    assert_eq!(resp.keys[0].kty, "oct");
    assert_eq!(resp.keys[0].kid, kid_b64);
    assert_eq!(resp.keys[0].k, "2_3Alnz7vtAdunMMmdnBSg");
    assert_eq!(resp.response_type, "temporary");
}

use iptv_proxy::config::Config;

#[test]
fn listen_address_joins_bind_and_port() {
    let c = Config {
        port: 8888,
        bind: "0.0.0.0".to_string(),
        playlist: "playlist.m3u8".to_string(),
        timeout: 15,
        log_level: "info".to_string(),
    };
    assert_eq!(c.listen_addr(), "0.0.0.0:8888");
    let c = Config { port: 0, bind: "::1".to_string(), ..c };
    assert_eq!(c.listen_addr(), "::1:0");
    let c = Config { port: 65535, ..c };
    assert_eq!(c.listen_addr(), "::1:65535");
}

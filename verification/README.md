# iptv_proxy

An IPTV proxy that serves a rewritten M3U8 playlist, proxies HLS and DASH
manifests and their segments with per-channel upstream headers, and answers
ClearKey license requests from keys found in the playlist.

The text processing and the decisions of the proxy form a library verified
with Verus; the server around it is ordinary Rust.

## Layout

- `src/` — the verified library
  - `text.rs`: characters, trimming, searching, line splitting, decimal text
  - `unicode.rs`: lowercasing (`char::to_lowercase`) and UTF-8 lengths
  - `string_map.rs`: an insertion-ordered string map with a `Map` view
  - `playlist.rs`: the playlist format (`#EXTINF` lines, `URL|key=value&…`
    stream lines, headers, ClearKey keys) and its laws
  - `param_split.rs`: how a parameter block splits into tokens
  - `codec.rs`: base64url (the `base64` crate), percent-encoding (the
    `urlencoding` crate), UTF-8 decoding
  - `clearkey.rs`: hex ↔ base64url keys and the W3C ClearKey JWK license
  - `rewriter.rs`: URL resolution, the HLS and DASH manifest rewriters and
    the `?ctx=` token
  - `template.rs`: DASH segment-template identifiers and their encoding
  - `handlers.rs`: what each HTTP endpoint answers, apart from the I/O
  - `config.rs`: the server settings
- `tests/` — tests of the library
- `app/` — the server: command line (clap), logging, upstream fetches
  (reqwest), JSON (serde) and routing (axum)

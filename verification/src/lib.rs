//! Verified core of an IPTV proxy: playlist parsing, manifest rewriting and
//! ClearKey license construction.

pub mod text;
pub mod unicode;
pub mod config;
pub mod string_map;
pub mod playlist;
pub mod param_split;
pub mod codec;
pub mod clearkey;
pub mod template;
pub mod rewriter;
pub mod handlers;

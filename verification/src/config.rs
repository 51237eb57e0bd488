//! Server settings.

use vstd::prelude::*;
use crate::text::{decimal, push_decimal, push_str, string_of};

verus! {

/// The settings the server runs with (the command line and environment
/// fill them in).
pub struct Config {
    /// TCP port to listen on.
    pub port: u16,
    /// Bind address.
    pub bind: String,
    /// Path to the M3U8 playlist file.
    pub playlist: String,
    /// Upstream request timeout in seconds.
    pub timeout: u64,
    /// Log level: trace | debug | info | warn | error.
    pub log_level: String,
}

/// `bind:port`, the socket address the server listens on.
pub open spec fn listen_addr_spec(bind: Seq<char>, port: nat) -> Seq<char> {
    bind + ":"@ + decimal(port)
}

impl Config {
    /// The address to listen on, as `bind:port`.
    pub fn listen_addr(&self) -> (r: String)
        ensures
            r@ == listen_addr_spec(self.bind@, self.port as nat),
    {
        let mut out: Vec<char> = Vec::new();
        push_str(&mut out, self.bind.as_str());
        push_str(&mut out, ":");
        push_decimal(&mut out, self.port as usize);
        string_of(out.as_slice())
    }
}

} // verus!

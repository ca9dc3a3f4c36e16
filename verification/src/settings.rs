//! Where the reader finds its daemon: host, port and an optional bearer token.
//!
//! Reading and writing the key file is left to the application; this module
//! says what its values mean.

use vstd::prelude::*;
use vstd::string::StringExecFns;
use crate::format::{append_decimal, decimal, law_decimal_round_trip, parse_decimal, parse_decimal_exec, spec_trim, trim};

verus! {

#[derive(Debug, Clone)]
pub struct ServerConfig {
    pub host: String,
    pub port: u16,
    pub token: Option<String>,
}

impl Default for ServerConfig {
    /// A daemon on this machine at its usual port, without a token.
    fn default() -> (r: Self)
        ensures
            r.host@ == "127.0.0.1"@,
            r.port == 8080,
            r.token is None,
    {
        ServerConfig { host: String::from_str("127.0.0.1"), port: 8080, token: None }
    }
}

/// A stored token, when it is not empty.
pub open spec fn stored_token(t: Option<Seq<char>>) -> Option<Seq<char>> {
    match t {
        Some(x) => if x.len() > 0 { Some(x) } else { None },
        None => None,
    }
}

pub open spec fn opt_view(o: Option<String>) -> Option<Seq<char>> {
    match o {
        Some(s) => Some(s@),
        None => None,
    }
}

/// The outcome of checking a settings form against the previous settings.
pub struct FormOutcome {
    pub config: ServerConfig,
    /// The host field was empty and the previous host was kept.
    pub host_rejected: bool,
    /// The port field was not a port from 1 to 65535 and the previous port was kept.
    pub port_rejected: bool,
}

impl ServerConfig {
    /// The settings held by the stored values of the `server` group: a host
    /// and a port are required, the port a decimal number that fits 16 bits;
    /// an empty token is no token.
    pub fn from_stored(host: Option<String>, port: Option<String>, token: Option<String>) -> (r: Option<ServerConfig>)
        ensures
            match r {
                Some(c) => host is Some && port is Some
                    && parse_decimal(port->0@, u16::MAX as nat) == Some(c.port as nat)
                    && c.host@ == host->0@ && opt_view(c.token) == stored_token(opt_view(token)),
                None => host is None || port is None || parse_decimal(port->0@, u16::MAX as nat) is None,
            },
    {
        let host = host?;
        let port = port?;
        let port = parse_decimal_exec(port.as_str(), u16::MAX as u64)?;
        let token = match token {
            Some(t) => if t.as_str().is_empty() { None } else { Some(t) },
            None => None,
        };
        Some(ServerConfig { host, port: port as u16, token })
    }

    /// The values to store in the `server` group: host, port in decimal, and
    /// the token or an empty string.
    pub fn stored_values(&self) -> (r: (String, String, String))
        ensures
            r.0@ == self.host@,
            r.1@ == decimal(self.port as u64),
            r.2@ == (match opt_view(self.token) { Some(t) => t, None => Seq::empty() }),
    {
        let mut port = String::new();
        append_decimal(&mut port, self.port as u64);
        let token = match &self.token {
            Some(t) => String::from_str(t.as_str()),
            None => String::new(),
        };
        (String::from_str(self.host.as_str()), port, token)
    }

    /// The settings a form asks for. A rejected field falls back to the
    /// previous value rather than abandoning the whole edit: an empty host
    /// keeps the previous host, a port that is not 1 to 65535 keeps the
    /// previous port. Fields are trimmed, and an empty token is no token.
    pub fn from_form(host: &str, port: &str, token: &str, previous: &ServerConfig) -> (r: FormOutcome)
        ensures
            r.host_rejected == (spec_trim(host@).len() == 0),
            r.config.host@ == (if r.host_rejected { previous.host@ } else { spec_trim(host@) }),
            r.port_rejected == !(parse_decimal(spec_trim(port@), u16::MAX as nat) matches Some(p) && p > 0),
            r.port_rejected ==> r.config.port == previous.port,
            !r.port_rejected ==> parse_decimal(spec_trim(port@), u16::MAX as nat) == Some(r.config.port as nat),
            opt_view(r.config.token) == (if spec_trim(token@).len() > 0 { Some(spec_trim(token@)) } else { None::<Seq<char>> }),
    {
        let h = trim(host);
        let host_rejected = h.as_str().is_empty();
        let host = if host_rejected { String::from_str(previous.host.as_str()) } else { h };
        let p = trim(port);
        let parsed = parse_decimal_exec(p.as_str(), u16::MAX as u64);
        let (port, port_rejected) = match parsed {
            Some(v) => if v > 0 { (v as u16, false) } else { (previous.port, true) },
            None => (previous.port, true),
        };
        let t = trim(token);
        let token = if t.as_str().is_empty() { None } else { Some(t) };
        FormOutcome { config: ServerConfig { host, port, token }, host_rejected, port_rejected }
    }
}

/// Settings read back from the values they were stored as are the settings
/// stored: the same host and port, and the same token, except that an empty
/// token reads back as none.
pub proof fn law_settings_round_trip(port: u16, token: Option<Seq<char>>)
    ensures
        parse_decimal(decimal(port as u64), u16::MAX as nat) == Some(port as nat),
        stored_token(Some(match token { Some(t) => t, None => Seq::<char>::empty() }))
            == (match token { Some(t) => if t.len() > 0 { Some(t) } else { None }, None => None::<Seq<char>> }),
{
    law_decimal_round_trip(port as u64, u16::MAX as nat);
}

} // verus!

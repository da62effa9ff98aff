//! Runtime configuration of the chat core: bind address, log verbosity,
//! per-room history capacity and the idle time after which an empty room
//! is garbage-collected. Reading the process environment happens outside
//! this crate; `from_parts` does the verified half of that work.
use vstd::prelude::*;

use vstd::string::StrSliceExecFns;

use crate::codec::{parse_digits, sp_digits};

verus! {

/// The runtime knobs consumed by the hub, the rooms and the listener.
#[derive(Debug, Clone)]
pub struct Config {
    /// WebSocket listen address, e.g. "0.0.0.0:9000".
    pub server_addr: String,
    /// Log level: trace|debug|info|warn|error.
    pub log_level: String,
    /// Messages kept per room for history replay.
    pub history_limit: usize,
    /// Seconds before an empty room is garbage-collected.
    pub room_ttl_secs: u64,
}

impl Default for Config {
    /// The documented defaults.
    fn default() -> (c: Self)
        ensures
            c.server_addr@ == "0.0.0.0:9000"@,
            c.log_level@ == "info"@,
            c.history_limit == 100,
            c.room_ttl_secs == 300,
    {
        Config {
            server_addr: String::from_str("0.0.0.0:9000"),
            log_level: String::from_str("info"),
            history_limit: 100,
            room_ttl_secs: 300,
        }
    }
}

/// What `str::parse` accepts for an unsigned number: an optional leading
/// plus sign, then at least one decimal digit and nothing else, with the
/// value within range.
pub open spec fn spec_parse_u64(s: Seq<char>) -> Option<u64> {
    let t: int = if s.len() > 0 && s[0] == '+' {
        1
    } else {
        0
    };
    if t < s.len() && sp_digits(s, t, 0).1 == s.len() {
        if sp_digits(s, t, 0).0 <= u64::MAX {
            Some(sp_digits(s, t, 0).0 as u64)
        } else {
            None
        }
    } else {
        None
    }
}

/// As [`spec_parse_u64`], bounded by `usize`.
pub open spec fn spec_parse_usize(s: Seq<char>) -> Option<usize> {
    let t: int = if s.len() > 0 && s[0] == '+' {
        1
    } else {
        0
    };
    if t < s.len() && sp_digits(s, t, 0).1 == s.len() {
        if sp_digits(s, t, 0).0 <= usize::MAX {
            Some(sp_digits(s, t, 0).0 as usize)
        } else {
            None
        }
    } else {
        None
    }
}

/// Parse an unsigned decimal number as `str::parse::<u64>` does.
pub fn parse_u64_str(s: &str) -> (r: Option<u64>)
    ensures
        r == spec_parse_u64(s@),
{
    let n = s.unicode_len();
    let start: usize = if n > 0 && s.get_char(0) == '+' {
        1
    } else {
        0
    };
    if start >= n {
        return None;
    }
    match parse_digits(s, n, start, 0) {
        None => None,
        Some((v, j)) => {
            if j == n {
                Some(v)
            } else {
                None
            }
        },
    }
}

/// Parse an unsigned decimal number as `str::parse::<usize>` does.
pub fn parse_usize_str(s: &str) -> (r: Option<usize>)
    ensures
        r == spec_parse_usize(s@),
{
    let n = s.unicode_len();
    let start: usize = if n > 0 && s.get_char(0) == '+' {
        1
    } else {
        0
    };
    if start >= n {
        return None;
    }
    match parse_digits(s, n, start, 0) {
        None => {
            proof {
                assert(usize::MAX <= u64::MAX);
            }
            None
        },
        Some((v, j)) => {
            if j == n && v <= usize::MAX as u64 {
                Some(v as usize)
            } else {
                None
            }
        },
    }
}

impl Config {
    /// Build a configuration from the raw environment values, where they
    /// were set: a missing value falls back to its default, and so does a
    /// numeric value that does not parse.
    pub fn from_parts(
        server_addr: Option<String>,
        log_level: Option<String>,
        history_limit: Option<String>,
        room_ttl_secs: Option<String>,
    ) -> (c: Config)
        ensures
            c.server_addr@ == match server_addr {
                Some(s) => s@,
                None => "0.0.0.0:9000"@,
            },
            c.log_level@ == match log_level {
                Some(s) => s@,
                None => "info"@,
            },
            c.history_limit == match history_limit {
                Some(s) => match spec_parse_usize(s@) {
                    Some(v) => v,
                    None => 100usize,
                },
                None => 100usize,
            },
            c.room_ttl_secs == match room_ttl_secs {
                Some(s) => match spec_parse_u64(s@) {
                    Some(v) => v,
                    None => 300u64,
                },
                None => 300u64,
            },
    {
        let server_addr = match server_addr {
            Some(s) => s,
            None => String::from_str("0.0.0.0:9000"),
        };
        let log_level = match log_level {
            Some(s) => s,
            None => String::from_str("info"),
        };
        let history_limit: usize = match history_limit {
            Some(s) => match parse_usize_str(s.as_str()) {
                Some(v) => v,
                None => 100,
            },
            None => 100,
        };
        let room_ttl_secs: u64 = match room_ttl_secs {
            Some(s) => match parse_u64_str(s.as_str()) {
                Some(v) => v,
                None => 300,
            },
            None => 300,
        };
        Config { server_addr, log_level, history_limit, room_ttl_secs }
    }
}

} // verus!

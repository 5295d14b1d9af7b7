//! Command-line arguments of the porter server.

use crate::stream::status_codes;
use vstd::prelude::*;

verus! {

/// Arguments of the porter server: the TCP port to listen on, the Unix socket of the local
/// object store, and the largest number of connections accepted at once.
#[derive(Debug, Clone)]
pub struct Cla {
    pub port: String,
    pub socket: String,
    pub max_connections: u32,
}

impl Cla {
    /// The arguments used when none are given: port 2021, socket `/tmp/plasma`, and 128
    /// connections.
    pub fn with_defaults() -> (r: Cla)
        ensures
            r.port@ == "2021"@,
            r.socket@ == "/tmp/plasma"@,
            r.max_connections == 128,
    {
        Cla { port: "2021".to_owned(), socket: "/tmp/plasma".to_owned(), max_connections: 128 }
    }
}

/// Largest backoff, in seconds, after which a listener that keeps failing to accept connections
/// gives up.
pub const MAX_ACCEPT_BACKOFF: u64 = 4;

/// Decides what a listener does after failing to accept a connection with the current
/// `backoff`: give up (none) once the backoff exceeds the maximum, and otherwise sleep `backoff`
/// seconds and retry with the backoff increased by one.
pub fn after_failed_accept(backoff: u64) -> (r: Option<(u64, u64)>)
    requires
        backoff < u64::MAX,
    ensures
        r == if backoff > MAX_ACCEPT_BACKOFF {
            None::<(u64, u64)>
        } else {
            Some((backoff, (backoff + 1) as u64))
        },
{
    if backoff > MAX_ACCEPT_BACKOFF {
        None
    } else {
        Some((backoff, backoff + 1))
    }
}

/// The status code written back for each SYNC subtask: success or failure.
pub fn sync_subtask_status(succeeded: bool) -> (r: u8)
    ensures
        r == if succeeded {
            status_codes::SUCCESS
        } else {
            status_codes::FAILURE
        },
{
    if succeeded {
        status_codes::SUCCESS
    } else {
        status_codes::FAILURE
    }
}

} // verus!

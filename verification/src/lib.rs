//! Core of an in-memory key/value store with publish/subscribe that speaks a
//! RESP-style framed protocol.
//!
//! The crate is organised around four pieces:
//!
//! * [`frame`]: the wire-level frame type together with a verified
//!   incremental parser and encoder, and a proof that parsing inverts
//!   encoding.
//! * [`parse`]: a cursor over the elements of an array frame with typed
//!   extractors, used to read command arguments.
//! * [`cmd`]: the supported commands, how they are parsed from a frame and
//!   how they are applied against the store.
//! * [`db`]: the shared state behind the server: entries with optional
//!   expiration, the expiration index the sweeper walks, and the per-channel
//!   broadcast senders for publish/subscribe.
//!
//! Asynchronous plumbing (sockets, the mutex around the state, the sweeper
//! task, the accept loop) lives outside this crate; everything here is plain
//! data and decisions, stated in contracts and verified.

use vstd::prelude::*;

mod bridge;
pub mod cmd;
pub mod db;
pub mod frame;
pub mod parse;
pub mod subs;
mod text;

pub use cmd::Command;
pub use frame::Frame;

verus! {

/// Default port a server embedding this crate listens on.
pub const DEFAULT_PORT: u16 = 6379;

/// Maximum number of connections a server embedding this crate serves at once.
pub const MAX_CONNECTIONS: usize = 250;

/// The accept loop's reaction to a failed accept: wait `backoff` seconds
/// and continue with a doubled backoff, or give up once the backoff has
/// passed 64 seconds.
pub fn accept_backoff(backoff: u64) -> (r: Option<(u64, u64)>)
    ensures
        r == (if backoff > 64 {
            None::<(u64, u64)>
        } else {
            Some((backoff, (backoff * 2) as u64))
        }),
{
    if backoff > 64 {
        None
    } else {
        Some((backoff, backoff * 2))
    }
}

} // verus!

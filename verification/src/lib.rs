//! A minimal HTTP/1.1 server core: request framing and parsing, response
//! construction and wire serialization, content-encoding negotiation,
//! path-prefix dispatch, and per-connection keep-alive decisions.
//!
//! Everything textual on the wire is handled as bytes; the surrounding
//! runtime (sockets, timers, the handler registry) lives outside this crate
//! and drives these functions.

pub mod dispatch;
pub mod encoding;
pub mod request;
pub mod response;
pub mod server;
pub mod text;

use vstd::prelude::*;

verus! {

} // verus!

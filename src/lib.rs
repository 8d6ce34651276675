//! Server-side core of a broadcast chat service: the wire codec, the
//! per-connection state machine and the hub that owns the roster.
use vstd::prelude::*;

pub mod codec;
pub mod connection;
pub mod protocol;
pub mod server;

verus! {

} // verus!

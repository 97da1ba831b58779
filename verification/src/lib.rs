//! Connection-oriented byte-stream semantics over connectionless datagram
//! transport, and the inverse: datagram boundaries framed over a byte stream.
//!
//! The crate has two cooperating parts:
//!
//! * a length-prefixed frame codec (`frame`) that carries discrete messages
//!   across a byte stream while preserving partial-read and partial-write
//!   progress, and
//! * a session demultiplexer (`listener`, `sockmap`, `streaml`, `streamr`)
//!   that turns a single shared datagram socket into independent per-peer
//!   stream-like endpoints with idle-timeout lifecycles.

pub mod addr;
pub mod frame;
pub mod kv;
pub mod listener;
pub mod sockmap;
pub mod streaml;
pub mod streamr;
pub mod uot;

pub use addr::IpAddr;
pub use addr::SockAddr;
pub use frame::State;
pub use listener::Routed;
pub use listener::UdpListener;
pub use sockmap::SockMap;
pub use streaml::UdpStreamLocal;
pub use streamr::UdpStreamRemote;
pub use uot::MemStream;
pub use uot::UotStream;

use vstd::prelude::*;

verus! {

/// Default idle timeout for endpoint reads, in milliseconds.
pub const DEFAULT_TIMEOUT_MILLIS: u64 = 20000;

} // verus!

//! The remote endpoint: an actively opened stream over an owned
//! datagram socket addressed to one fixed peer.
//!
//! Reads deliver one received datagram, truncated to the caller's
//! buffer, and reset the idle deadline; past the deadline without any
//! datagram the read completes with zero bytes, end-of-stream, and so
//! does every read after it.  Writes go to the fixed peer and are not
//! modeled here.  Time is plain milliseconds, supplied by the runtime.

use vstd::prelude::*;

use crate::addr::SockAddr;
use crate::streaml::take_front;
use crate::uot::min2;

verus! {

/// A stream actively established towards one peer.
pub struct UdpStreamRemote {
    pub peer: SockAddr,
    pub local: SockAddr,
    pub deadline: u64,
    pub fin: bool,
}

impl UdpStreamRemote {
    /// A fresh endpoint whose socket is bound to `local` and addressed
    /// to `peer`; its first idle deadline starts now.
    pub fn new(local: SockAddr, peer: SockAddr, now: u64, timeout: u64) -> (r: UdpStreamRemote)
        requires
            now + timeout <= u64::MAX,
        ensures
            r.peer == peer,
            r.local == local,
            r.deadline == now + timeout,
            !r.fin,
    {
        UdpStreamRemote { peer, local, deadline: now + timeout, fin: false }
    }

    /// The fixed peer this endpoint sends to.
    pub fn peer_addr(&self) -> (r: SockAddr)
        ensures
            r == self.peer,
    {
        self.peer
    }

    /// The address the owned socket is bound to.
    pub fn local_addr(&self) -> (r: SockAddr)
        ensures
            r == self.local,
    {
        self.local
    }

    /// A datagram arrived before the deadline: deliver what fits into a
    /// buffer of `cap` bytes, drop the rest, and push the idle deadline
    /// out to `now + timeout`.
    pub fn on_packet(&mut self, payload: &Vec<u8>, cap: usize, now: u64, timeout: u64) -> (r: Vec<u8>)
        requires
            !old(self).fin,
            now + timeout <= u64::MAX,
        ensures
            r@ == payload@.take(min2(cap as int, payload@.len() as int)),
            final(self).deadline == now + timeout,
            !final(self).fin,
            final(self).peer == old(self).peer,
            final(self).local == old(self).local,
    {
        self.deadline = now + timeout;
        take_front(payload, cap)
    }

    /// The clock reached `now` with nothing received: past the deadline
    /// the stream ends, and the pending read completes with zero bytes.
    pub fn on_idle(&mut self, now: u64) -> (eof: bool)
        requires
            !old(self).fin,
        ensures
            eof == (now >= old(self).deadline),
            final(self).fin == eof,
            final(self).deadline == old(self).deadline,
            final(self).peer == old(self).peer,
            final(self).local == old(self).local,
    {
        if now >= self.deadline {
            self.fin = true;
            true
        } else {
            false
        }
    }

    /// Whether the stream has ended; every read afterwards completes
    /// with zero bytes.
    pub fn is_terminated(&self) -> (r: bool)
        ensures
            r == self.fin,
    {
        self.fin
    }
}

} // verus!

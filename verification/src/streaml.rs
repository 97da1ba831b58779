//! The local endpoint: one accepted peer's stream over the shared
//! listener socket.
//!
//! A read takes the next payload off the session queue and copies what
//! fits into the caller's buffer; the rest of that payload is dropped,
//! as datagram semantics demand.  Every delivered payload pushes the
//! idle deadline out by the configured timeout; a read that would pass
//! the deadline without any payload completes with zero bytes instead,
//! end-of-stream, and so does every read after it.  Writes go straight
//! out on the shared socket to the peer and are not modeled here.
//!
//! Time is carried as plain milliseconds; the runtime around the
//! library supplies the clock and the suspension.

use vstd::prelude::*;

use crate::addr::SockAddr;
use crate::listener::spec_pop;
use crate::listener::UdpListener;
use crate::uot::min2;

verus! {

/// Copy the front of a payload: at most `cap` bytes, the caller's
/// buffer size.  What does not fit is dropped by the caller.
pub fn take_front(payload: &Vec<u8>, cap: usize) -> (r: Vec<u8>)
    ensures
        r@ == payload@.take(min2(cap as int, payload@.len() as int)),
{
    let mut n: usize = payload.len();
    if cap < n {
        n = cap;
    }
    let mut r: Vec<u8> = Vec::new();
    let mut i: usize = 0;
    while i < n
        invariant
            i <= n <= payload@.len(),
            r@ == payload@.take(i as int),
        decreases n - i,
    {
        r.push(payload[i]);
        i = i + 1;
        proof {
            assert(r@ =~= payload@.take(i as int));
        }
    }
    r
}

/// A stream accepted from the local listener, bound to one peer.
pub struct UdpStreamLocal {
    pub peer: SockAddr,
    pub local: SockAddr,
    pub deadline: u64,
    pub fin: bool,
}

impl UdpStreamLocal {
    /// A fresh endpoint for `peer`; its first idle deadline starts now.
    pub fn new(local: SockAddr, peer: SockAddr, now: u64, timeout: u64) -> (r: UdpStreamLocal)
        requires
            now + timeout <= u64::MAX,
        ensures
            r.peer == peer,
            r.local == local,
            r.deadline == now + timeout,
            !r.fin,
    {
        UdpStreamLocal { peer, local, deadline: now + timeout, fin: false }
    }

    /// The peer this session belongs to.
    pub fn peer_addr(&self) -> (r: SockAddr)
        ensures
            r == self.peer,
    {
        self.peer
    }

    /// The address of the shared listener socket.
    pub fn local_addr(&self) -> (r: SockAddr)
        ensures
            r == self.local,
    {
        self.local
    }

    /// A payload arrived before the deadline: deliver what fits into a
    /// buffer of `cap` bytes, drop the rest, and push the idle deadline
    /// out to `now + timeout`.
    pub fn on_packet(&mut self, payload: &Vec<u8>, cap: usize, now: u64, timeout: u64) -> (r: Vec<u8>)
        requires
            !old(self).fin,
            now + timeout <= u64::MAX,
        ensures
            r@ == payload@.take(min2(cap as int, payload@.len() as int)),
            final(self).deadline == now + timeout,
            !final(self).fin,
            final(self).peer == old(self).peer,
            final(self).local == old(self).local,
    {
        self.deadline = now + timeout;
        take_front(payload, cap)
    }

    /// One read step against the session engine: take the oldest
    /// payload of this endpoint's session if one is waiting, deliver
    /// what fits into a buffer of `cap` bytes, drop the rest, and push
    /// the idle deadline out to `now + timeout`.  With nothing queued
    /// the endpoint is untouched: the caller keeps waiting, and times
    /// the read out through [`Self::on_idle`].
    pub fn read_step(&mut self, sessions: &mut UdpListener, cap: usize, now: u64, timeout: u64) -> (r: Option<Vec<u8>>)
        requires
            !old(self).fin,
            now + timeout <= u64::MAX,
            old(sessions).wf(),
        ensures
            final(sessions).wf(),
            final(sessions).local == old(sessions).local,
            final(sessions).capacity == old(sessions).capacity,
            final(sessions)@ == spec_pop(old(sessions)@, old(self).peer).1,
            final(self).peer == old(self).peer,
            final(self).local == old(self).local,
            match r {
                Some(v) => ({
                    let popped = spec_pop(old(sessions)@, old(self).peer).0;
                    &&& popped matches Some(p) && v@ == p.take(min2(cap as int, p.len() as int))
                    &&& final(self).deadline == now + timeout
                    &&& !final(self).fin
                }),
                None => ({
                    &&& spec_pop(old(sessions)@, old(self).peer).0 is None
                    &&& *final(self) == *old(self)
                }),
            },
    {
        let peer = self.peer;
        match sessions.pop(peer) {
            Some(payload) => Some(self.on_packet(&payload, cap, now, timeout)),
            None => None,
        }
    }

    /// The clock reached `now` with nothing received: past the deadline
    /// the stream ends, and the pending read completes with zero bytes.
    pub fn on_idle(&mut self, now: u64) -> (eof: bool)
        requires
            !old(self).fin,
        ensures
            eof == (now >= old(self).deadline),
            final(self).fin == eof,
            final(self).deadline == old(self).deadline,
            final(self).peer == old(self).peer,
            final(self).local == old(self).local,
    {
        if now >= self.deadline {
            self.fin = true;
            true
        } else {
            false
        }
    }

    /// The session queue was disconnected: end-of-stream.
    pub fn on_disconnect(&mut self)
        ensures
            final(self).fin,
            final(self).deadline == old(self).deadline,
            final(self).peer == old(self).peer,
            final(self).local == old(self).local,
    {
        self.fin = true;
    }

    /// Whether the stream has ended; every read afterwards completes
    /// with zero bytes.
    pub fn is_terminated(&self) -> (r: bool)
        ensures
            r == self.fin,
    {
        self.fin
    }
}

} // verus!

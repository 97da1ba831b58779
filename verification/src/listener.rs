//! The session engine behind a datagram listener.
//!
//! One shared datagram socket receives traffic from many peers.  Each
//! datagram is routed by source address: onto the bounded queue of the
//! peer's session if one exists, or into a session created on the spot.
//! A local endpoint reads by taking the front of its session's queue, in
//! the order the listener enqueued, and its destruction releases the
//! session so that the peer's next datagram starts a fresh one.
//!
//! The engine is the decision half of the listener: the runtime around
//! the library receives the datagrams, drives [`UdpListener::accept`]
//! with them, and applies back-pressure (awaits, then retries) whenever
//! a queue is full.

use vstd::prelude::*;

use crate::addr::SockAddr;
use crate::kv::distinct_keys;
use crate::kv::lemma_map_of_contains;
use crate::kv::lemma_map_of_dom;
use crate::kv::lemma_map_of_push;
use crate::kv::lemma_map_of_remove;
use crate::kv::lemma_map_of_update;
use crate::kv::lemma_map_of_value;
use crate::kv::map_of;

verus! {

/// What became of one received datagram.
#[derive(Clone, Copy, PartialEq, Eq, Structural, Debug)]
pub enum Routed {
    /// Appended to an existing session's queue.
    Queued,
    /// The existing session's queue is at capacity; nothing changed, and
    /// the caller applies back-pressure and retries.
    Full,
    /// No session existed: one was created holding this first datagram,
    /// and a new endpoint for it is owed to the caller.
    Accepted,
}

/// The sessions as a map from peer address to queue contents.
pub type SessionMap = Map<SockAddr, Seq<Seq<u8>>>;

/// Routing one datagram: the step [`UdpListener::accept`] takes.
pub open spec fn spec_accept(m: SessionMap, capacity: int, peer: SockAddr, datagram: Seq<u8>) -> (Routed, SessionMap) {
    if m.contains_key(peer) {
        if m[peer].len() < capacity {
            (Routed::Queued, m.insert(peer, m[peer].push(datagram)))
        } else {
            (Routed::Full, m)
        }
    } else {
        (Routed::Accepted, m.insert(peer, seq![datagram]))
    }
}

/// Dequeuing one payload: the step [`UdpListener::pop`] takes.
pub open spec fn spec_pop(m: SessionMap, peer: SockAddr) -> (Option<Seq<u8>>, SessionMap) {
    if m.contains_key(peer) && m[peer].len() >= 1 {
        (Some(m[peer][0]), m.insert(peer, m[peer].skip(1)))
    } else {
        (None, m)
    }
}

/// The listener's session state: each entry is one peer's queue of
/// datagram payloads, oldest first.
pub struct UdpListener {
    pub local: SockAddr,
    pub capacity: usize,
    pub sessions: Vec<(SockAddr, Vec<Vec<u8>>)>,
}

impl View for UdpListener {
    type V = SessionMap;

    open spec fn view(&self) -> SessionMap {
        map_of(self.entries())
    }
}

/// A queue of payload buffers as a sequence of byte sequences.
pub open spec fn queue_view(q: Seq<Vec<u8>>) -> Seq<Seq<u8>> {
    q.map_values(|p: Vec<u8>| p@)
}

impl UdpListener {
    /// The session entries with their queues as mathematical sequences.
    pub open spec fn entries(&self) -> Seq<(SockAddr, Seq<Seq<u8>>)> {
        self.sessions@.map_values(|q: (SockAddr, Vec<Vec<u8>>)| (q.0, queue_view(q.1@)))
    }

    /// One session per peer, and no queue beyond capacity.
    pub open spec fn wf(&self) -> bool {
        &&& distinct_keys(self.entries())
        &&& 1 <= self.capacity
        &&& forall|i: int| 0 <= i < self.sessions@.len()
            ==> (#[trigger] self.sessions@[i]).1@.len() <= self.capacity
    }

    /// A listener bound to `local` with no sessions, queueing at most
    /// `capacity` payloads per session.
    pub fn new(local: SockAddr, capacity: usize) -> (r: UdpListener)
        requires
            1 <= capacity,
        ensures
            r.wf(),
            r@ == Map::<SockAddr, Seq<Seq<u8>>>::empty(),
            r.local == local,
            r.capacity == capacity,
    {
        UdpListener { local, capacity, sessions: Vec::new() }
    }

    /// The address the shared socket is bound to.
    pub fn local_addr(&self) -> (r: SockAddr)
        ensures
            r == self.local,
    {
        self.local
    }

    /// How many sessions are live.
    pub fn session_count(&self) -> (r: usize)
        requires
            self.wf(),
        ensures
            r == self@.dom().len(),
    {
        proof {
            lemma_map_of_dom(self.entries());
        }
        self.sessions.len()
    }

    /// The index of the session for `peer`, if one exists.
    fn find(&self, peer: &SockAddr) -> (r: Option<usize>)
        ensures
            match r {
                Some(i) => i < self.sessions@.len() && self.sessions@[i as int].0 == *peer,
                None => forall|j: int| 0 <= j < self.sessions@.len()
                    ==> (#[trigger] self.sessions@[j]).0 != *peer,
            },
    {
        let mut i: usize = 0;
        while i < self.sessions.len()
            invariant
                i <= self.sessions@.len(),
                forall|j: int| 0 <= j < i ==> (#[trigger] self.sessions@[j]).0 != *peer,
            decreases self.sessions@.len() - i,
        {
            let a = self.sessions[i].0;
            if a == *peer {
                return Some(i);
            }
            i = i + 1;
        }
        None
    }

    /// Route one received datagram by its source address: enqueue it on
    /// the peer's session, report a full queue, or create the session
    /// that an endpoint is then handed out for.
    pub fn accept(&mut self, peer: SockAddr, datagram: Vec<u8>) -> (r: Routed)
        requires
            old(self).wf(),
            1 <= datagram@.len(),
        ensures
            final(self).wf(),
            final(self).local == old(self).local,
            final(self).capacity == old(self).capacity,
            r == spec_accept(old(self)@, old(self).capacity as int, peer, datagram@).0,
            final(self)@ == spec_accept(old(self)@, old(self).capacity as int, peer, datagram@).1,
    {
        proof {
            lemma_map_of_contains(self.entries(), peer);
            assert(forall|j: int| 0 <= j < self.sessions@.len()
                ==> (#[trigger] self.entries()[j]).0 == self.sessions@[j].0);
        }
        match self.find(&peer) {
            Some(i) => {
                proof {
                    lemma_map_of_value(self.entries(), i as int);
                }
                let qlen = self.sessions[i].1.len();
                if qlen < self.capacity {
                    let ghost before = self.sessions@;
                    let ghost dgram = datagram@;
                    let mut pair = self.sessions.remove(i);
                    pair.1.push(datagram);
                    let ghost pairg = pair;
                    self.sessions.insert(i, pair);
                    proof {
                        assert(self.sessions@ =~= before.update(i as int, pairg));
                        let deep = queue_view(before[i as int].1@).push(dgram);
                        assert(queue_view(pairg.1@) =~= deep);
                        assert(self.entries() =~= old(self).entries().update(i as int, (peer, deep)));
                        lemma_map_of_update(old(self).entries(), i as int, deep);
                    }
                    Routed::Queued
                } else {
                    Routed::Full
                }
            },
            None => {
                let ghost dgram = datagram@;
                let mut q: Vec<Vec<u8>> = Vec::new();
                q.push(datagram);
                proof {
                    assert(queue_view(q@) =~= seq![dgram]);
                }
                let ghost before = self.entries();
                self.sessions.push((peer, q));
                proof {
                    assert(self.entries() =~= before.push((peer, seq![dgram])));
                    lemma_map_of_push(before, peer, seq![dgram]);
                    assert(forall|x: int| 0 <= x < before.len()
                        ==> (#[trigger] before[x]).0 != peer);
                }
                Routed::Accepted
            },
        }
    }

    /// Take the oldest payload off a peer's session queue: what the
    /// peer's endpoint reads next.  Payloads come out in the order the
    /// listener enqueued them.
    pub fn pop(&mut self, peer: SockAddr) -> (r: Option<Vec<u8>>)
        requires
            old(self).wf(),
        ensures
            final(self).wf(),
            final(self).local == old(self).local,
            final(self).capacity == old(self).capacity,
            final(self)@ == spec_pop(old(self)@, peer).1,
            match r {
                Some(v) => spec_pop(old(self)@, peer).0 == Some(v@),
                None => spec_pop(old(self)@, peer).0 is None,
            },
    {
        proof {
            lemma_map_of_contains(self.entries(), peer);
            assert(forall|j: int| 0 <= j < self.sessions@.len()
                ==> (#[trigger] self.entries()[j]).0 == self.sessions@[j].0);
        }
        match self.find(&peer) {
            Some(i) => {
                proof {
                    lemma_map_of_value(self.entries(), i as int);
                }
                let ghost before = self.sessions@;
                let mut pair = self.sessions.remove(i);
                if pair.1.len() == 0 {
                    self.sessions.insert(i, pair);
                    proof {
                        assert(self.sessions@ =~= before);
                    }
                    None
                } else {
                    let first = pair.1.remove(0);
                    let ghost pairg = pair;
                    self.sessions.insert(i, pair);
                    proof {
                        assert(self.sessions@ =~= before.update(i as int, pairg));
                        let deep = queue_view(before[i as int].1@).skip(1);
                        assert(queue_view(pairg.1@) =~= deep);
                        assert(self.entries() =~= old(self).entries().update(i as int, (peer, deep)));
                        lemma_map_of_update(old(self).entries(), i as int, deep);
                        assert(first@ == old(self)@[peer][0]);
                    }
                    Some(first)
                }
            },
            None => None,
        }
    }

    /// Release a peer's session: what the peer's endpoint does when it
    /// is dropped.  The peer's next datagram then starts a fresh
    /// session.
    pub fn release(&mut self, peer: SockAddr)
        requires
            old(self).wf(),
        ensures
            final(self).wf(),
            final(self).local == old(self).local,
            final(self).capacity == old(self).capacity,
            final(self)@ == old(self)@.remove(peer),
    {
        proof {
            lemma_map_of_contains(self.entries(), peer);
            assert(forall|j: int| 0 <= j < self.sessions@.len()
                ==> (#[trigger] self.entries()[j]).0 == self.sessions@[j].0);
        }
        match self.find(&peer) {
            Some(i) => {
                proof {
                    lemma_map_of_remove(self.entries(), i as int);
                }
                let ghost before = self.entries();
                self.sessions.remove(i);
                proof {
                    assert(self.entries() =~= before.remove(i as int));
                }
            },
            None => {
                proof {
                    assert(self@.remove(peer) =~= self@);
                }
            },
        }
    }
}

/// Routing a run of datagrams, one per entry, oldest first.
pub open spec fn spec_accept_all(m: SessionMap, capacity: int, peers: Seq<SockAddr>, datagrams: Seq<Seq<u8>>) -> SessionMap
    decreases peers.len(),
{
    if peers.len() == 0 {
        m
    } else {
        spec_accept_all(
            spec_accept(m, capacity, peers[0], datagrams[0]).1,
            capacity,
            peers.skip(1),
            datagrams.skip(1),
        )
    }
}

/// A datagram from a peer without a session always opens one holding
/// exactly that datagram.
pub proof fn lemma_accept_new_peer(m: SessionMap, capacity: int, peer: SockAddr, datagram: Seq<u8>)
    requires
        !m.contains_key(peer),
    ensures
        spec_accept(m, capacity, peer, datagram).0 == Routed::Accepted,
        spec_accept(m, capacity, peer, datagram).1 == m.insert(peer, seq![datagram]),
{
}

/// Dropping a local endpoint releases its session, and the peer's next
/// datagram is accepted into a fresh session of exactly that datagram;
/// every other peer's session is untouched by both steps.
pub proof fn lemma_release_then_accept(m: SessionMap, capacity: int, peer: SockAddr, datagram: Seq<u8>)
    ensures
        ({
            let released = m.remove(peer);
            let (r, after) = spec_accept(released, capacity, peer, datagram);
            &&& r == Routed::Accepted
            &&& after.contains_key(peer)
            &&& after[peer] == seq![datagram]
            &&& forall|a: SockAddr| a != peer
                ==> ((#[trigger] after.contains_key(a)) <==> m.contains_key(a))
            &&& forall|a: SockAddr| a != peer && m.contains_key(a)
                ==> #[trigger] after[a] == m[a]
        }),
{
}

/// Back-pressure loses nothing and touches no other session: a full
/// queue leaves the whole state unchanged for the caller to retry, and
/// routing one datagram never changes any other peer's queue.
pub proof fn lemma_accept_isolated(m: SessionMap, capacity: int, peer: SockAddr, datagram: Seq<u8>, other: SockAddr)
    requires
        other != peer,
    ensures
        ({
            let (r, after) = spec_accept(m, capacity, peer, datagram);
            &&& (after.contains_key(other) <==> m.contains_key(other))
            &&& (m.contains_key(other) ==> after[other] == m[other])
            &&& (r == Routed::Full ==> after == m)
        }),
{
}

/// Distinct peers sending one datagram each, into a state that knows
/// none of them: every datagram opens a session, and afterwards there
/// are exactly as many new sessions as peers, each holding exactly its
/// peer's datagram, with all prior sessions untouched.
pub proof fn lemma_accept_distinct_peers(m: SessionMap, capacity: int, peers: Seq<SockAddr>, datagrams: Seq<Seq<u8>>)
    requires
        peers.len() == datagrams.len(),
        forall|i: int, j: int| 0 <= i < j < peers.len() ==> peers[i] != peers[j],
        forall|i: int| 0 <= i < peers.len() ==> !m.contains_key(#[trigger] peers[i]),
    ensures
        ({
            let r = spec_accept_all(m, capacity, peers, datagrams);
            &&& forall|a: SockAddr| #[trigger] r.contains_key(a)
                <==> (m.contains_key(a) || peers.contains(a))
            &&& forall|i: int| 0 <= i < peers.len()
                ==> r[#[trigger] peers[i]] == seq![datagrams[i]]
            &&& forall|a: SockAddr| m.contains_key(a) ==> #[trigger] r[a] == m[a]
            &&& m.dom().finite() ==> r.dom().finite()
                && r.dom().len() == m.dom().len() + peers.len()
        }),
    decreases peers.len(),
{
    let r = spec_accept_all(m, capacity, peers, datagrams);
    if peers.len() == 0 {
        assert(forall|a: SockAddr| #[trigger] peers.contains(a)
            ==> exists|i: int| 0 <= i < peers.len() && peers[i] == a);
    } else {
        let p0 = peers[0];
        let m1 = spec_accept(m, capacity, p0, datagrams[0]).1;
        assert(m1 == m.insert(p0, seq![datagrams[0]]));
        assert(forall|i: int| 0 <= i < peers.skip(1).len()
            ==> #[trigger] peers.skip(1)[i] == peers[i + 1]);
        assert(forall|i: int| 0 <= i < peers.skip(1).len()
            ==> !m1.contains_key(#[trigger] peers.skip(1)[i]));
        lemma_accept_distinct_peers(m1, capacity, peers.skip(1), datagrams.skip(1));
        assert(r == spec_accept_all(m1, capacity, peers.skip(1), datagrams.skip(1)));
        assert(forall|a: SockAddr| #[trigger] peers.contains(a)
            <==> (a == p0 || peers.skip(1).contains(a))) by {
            assert(forall|i: int| 1 <= i < peers.len()
                ==> peers.skip(1)[i - 1] == #[trigger] peers[i]);
        }
        assert(forall|i: int| 0 <= i < peers.len()
            ==> r[#[trigger] peers[i]] == seq![datagrams[i]]) by {
            assert(m1.contains_key(p0) && r[p0] == m1[p0]);
            assert(forall|i: int| 1 <= i < peers.len()
                ==> #[trigger] peers[i] == peers.skip(1)[i - 1]
                    && datagrams[i] == datagrams.skip(1)[i - 1]);
        }
        if m.dom().finite() {
            assert(m1.dom() =~= m.dom().insert(p0));
        }
    }
}

} // verus!

//! The session map: peer address to sender handle.
//!
//! The listener and every local endpoint share one of these; the
//! listener looks a peer up on each datagram and inserts the handle of a
//! newly created session's queue, and an endpoint removes its own entry
//! when it is dropped.  The handle is a plain number; the runtime around
//! the library keeps whatever transmit half it denotes.

use vstd::prelude::*;

use crate::addr::SockAddr;
use crate::kv::distinct_keys;
use crate::kv::lemma_map_of_contains;
use crate::kv::lemma_map_of_dom;
use crate::kv::lemma_map_of_push;
use crate::kv::lemma_map_of_remove;
use crate::kv::lemma_map_of_value;
use crate::kv::map_of;

verus! {

/// A mapping from peer address to queue-sender handle, with at most one
/// entry per peer.
pub struct SockMap {
    pub pairs: Vec<(SockAddr, u64)>,
}

impl View for SockMap {
    type V = Map<SockAddr, u64>;

    open spec fn view(&self) -> Map<SockAddr, u64> {
        map_of(self.pairs@)
    }
}

impl SockMap {
    /// At most one entry per peer address.
    pub open spec fn wf(&self) -> bool {
        distinct_keys(self.pairs@)
    }

    /// An empty map.
    pub fn new() -> (r: SockMap)
        ensures
            r.wf(),
            r@ == Map::<SockAddr, u64>::empty(),
    {
        SockMap { pairs: Vec::new() }
    }

    /// The index of the entry for `addr`, if one exists.
    fn find(&self, addr: &SockAddr) -> (r: Option<usize>)
        ensures
            match r {
                Some(i) => i < self.pairs@.len() && self.pairs@[i as int].0 == *addr,
                None => forall|j: int| 0 <= j < self.pairs@.len()
                    ==> (#[trigger] self.pairs@[j]).0 != *addr,
            },
    {
        let mut i: usize = 0;
        while i < self.pairs.len()
            invariant
                i <= self.pairs@.len(),
                forall|j: int| 0 <= j < i ==> (#[trigger] self.pairs@[j]).0 != *addr,
            decreases self.pairs@.len() - i,
        {
            let (a, _) = self.pairs[i];
            if a == *addr {
                return Some(i);
            }
            i = i + 1;
        }
        None
    }

    /// Look a peer up; the handle comes back as a copy, the way the
    /// runtime clones a queue's transmit half out of the shared map.
    pub fn get(&self, addr: &SockAddr) -> (r: Option<u64>)
        requires
            self.wf(),
        ensures
            r == (if self@.contains_key(*addr) {
                Some(self@[*addr])
            } else {
                None::<u64>
            }),
    {
        proof {
            lemma_map_of_contains(self.pairs@, *addr);
        }
        match self.find(addr) {
            Some(i) => {
                proof {
                    lemma_map_of_value(self.pairs@, i as int);
                }
                let (_, v) = self.pairs[i];
                Some(v)
            },
            None => None,
        }
    }

    /// Bind a peer to a handle, replacing any previous binding.
    pub fn insert(&mut self, addr: SockAddr, tx: u64)
        requires
            old(self).wf(),
        ensures
            final(self).wf(),
            final(self)@ == old(self)@.insert(addr, tx),
    {
        self.remove(&addr);
        proof {
            lemma_map_of_push(self.pairs@, addr, tx);
            lemma_map_of_contains(self.pairs@, addr);
            assert(old(self)@.insert(addr, tx) =~= self@.insert(addr, tx));
        }
        let ghost before = self.pairs@;
        self.pairs.push((addr, tx));
        proof {
            assert(forall|x: int, y: int| 0 <= x < y < self.pairs@.len() - 1
                ==> (#[trigger] self.pairs@[x]).0 != (#[trigger] self.pairs@[y]).0);
            assert(forall|x: int| 0 <= x < self.pairs@.len() - 1
                ==> (#[trigger] self.pairs@[x]).0 != addr);
        }
    }

    /// Drop a peer's binding, if any; an endpoint does this for its own
    /// peer when it goes away.
    pub fn remove(&mut self, addr: &SockAddr)
        requires
            old(self).wf(),
        ensures
            final(self).wf(),
            final(self)@ == old(self)@.remove(*addr),
    {
        proof {
            lemma_map_of_contains(self.pairs@, *addr);
        }
        match self.find(addr) {
            Some(i) => {
                proof {
                    lemma_map_of_remove(self.pairs@, i as int);
                }
                self.pairs.remove(i);
            },
            None => {
                proof {
                    assert(self@.remove(*addr) =~= self@);
                }
            },
        }
    }

    /// How many peers are bound.
    pub fn len(&self) -> (r: usize)
        requires
            self.wf(),
        ensures
            r == self@.dom().len(),
    {
        proof {
            lemma_map_of_dom(self.pairs@);
        }
        self.pairs.len()
    }
}

} // verus!

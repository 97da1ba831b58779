//! A framed byte stream over an in-memory transport.
//!
//! [`MemStream`] is a byte-stream endpoint backed by a buffer, which
//! accepts only a bounded number of bytes per call in each direction, the
//! way a real transport hands data over in arbitrary chunks.  [`UotStream`]
//! drives the frame codec over it: a read yields the payload of exactly one
//! frame, a write puts exactly one length-prefixed frame on the wire,
//! whatever the per-call limits.

use vstd::prelude::*;

use crate::frame::FrameReader;
use crate::frame::FrameWriter;
use crate::frame::State;
use crate::frame::MAX_FRAME_PAYLOAD;
use crate::frame::be16;
use crate::frame::dec_run;
use crate::frame::encode_all;
use crate::frame::frames;
use crate::frame::lemma_encode_all_snoc;
use crate::frame::lemma_run_payload;
use crate::frame::lemma_run_prefix;
use crate::frame::payload_mark;
use crate::frame::spec_encode;

verus! {

/// The smaller of two values.
pub open spec fn min2(a: int, b: int) -> int {
    if a <= b {
        a
    } else {
        b
    }
}

/// The smallest of three values.
pub open spec fn min3(a: int, b: int, c: int) -> int {
    min2(a, min2(b, c))
}

/// A byte-stream endpoint backed by memory.
///
/// Reads consume `data` from `rpos` on, at most `rlimit` bytes per call;
/// writes append to `data`, at most `wlimit` bytes per call.  A read of
/// zero bytes means the data is exhausted (end-of-stream); a write limit
/// of zero models a transport that accepts nothing any more.
pub struct MemStream {
    pub data: Vec<u8>,
    pub rpos: usize,
    pub rlimit: usize,
    pub wlimit: usize,
}

impl MemStream {
    /// The read position never passes the end of the buffer.
    pub open spec fn wf(&self) -> bool {
        self.rpos <= self.data@.len()
    }

    /// The bytes not yet consumed by reads.
    pub open spec fn remaining(&self) -> Seq<u8> {
        self.data@.skip(self.rpos as int)
    }

    /// A stream holding `data`, with the given per-call limits.
    pub fn new(data: Vec<u8>, rlimit: usize, wlimit: usize) -> (r: MemStream)
        ensures
            r.wf(),
            r.data == data,
            r.rpos == 0,
            r.rlimit == rlimit,
            r.wlimit == wlimit,
    {
        MemStream { data, rpos: 0, rlimit, wlimit }
    }

    /// Read up to `max` bytes: the transport delivers at most `rlimit`
    /// per call, and an empty result means end-of-stream (the buffer is
    /// exhausted), provided `max` and `rlimit` are not zero.
    pub fn read(&mut self, max: usize) -> (r: Vec<u8>)
        requires
            old(self).wf(),
        ensures
            final(self).wf(),
            final(self).data == old(self).data,
            final(self).rlimit == old(self).rlimit,
            final(self).wlimit == old(self).wlimit,
            r@.len() == min3(max as int, old(self).rlimit as int, old(self).remaining().len() as int),
            r@ == old(self).remaining().take(r@.len() as int),
            final(self).rpos == old(self).rpos + r@.len(),
    {
        let dlen: usize = self.data.len();
        let left: usize = dlen - self.rpos;
        let mut n: usize = max;
        if self.rlimit < n {
            n = self.rlimit;
        }
        if left < n {
            n = left;
        }
        let mut r: Vec<u8> = Vec::new();
        let mut j: usize = 0;
        while j < n
            invariant
                j <= n,
                self.data@.len() == dlen,
                self.rpos + n <= dlen,
                r@ == self.data@.subrange(self.rpos as int, self.rpos + j),
            decreases n - j,
        {
            r.push(self.data[self.rpos + j]);
            j = j + 1;
            proof {
                assert(r@ =~= self.data@.subrange(self.rpos as int, self.rpos + j));
            }
        }
        proof {
            assert(self.data@.subrange(self.rpos as int, self.rpos + n)
                =~= self.remaining().take(n as int));
        }
        self.rpos = self.rpos + n;
        r
    }

    /// Write the front of `buf`: the transport accepts at most `wlimit`
    /// bytes per call, and zero acceptance models end-of-stream.
    pub fn write(&mut self, buf: &Vec<u8>) -> (n: usize)
        requires
            old(self).wf(),
        ensures
            final(self).wf(),
            final(self).rpos == old(self).rpos,
            final(self).rlimit == old(self).rlimit,
            final(self).wlimit == old(self).wlimit,
            n == min2(buf@.len() as int, old(self).wlimit as int),
            final(self).data@ == old(self).data@ + buf@.take(n as int),
    {
        let mut n: usize = buf.len();
        if self.wlimit < n {
            n = self.wlimit;
        }
        let mut j: usize = 0;
        while j < n
            invariant
                j <= n <= buf@.len(),
                self.rpos == old(self).rpos,
                self.rlimit == old(self).rlimit,
                self.wlimit == old(self).wlimit,
                self.data@ == old(self).data@ + buf@.take(j as int),
            decreases n - j,
        {
            self.data.push(buf[j]);
            j = j + 1;
            proof {
                assert(self.data@ =~= old(self).data@ + buf@.take(j as int));
            }
        }
        n
    }
}

/// A framed stream: the codec over an in-memory byte-stream endpoint.
///
/// Between calls the read half sits at a frame boundary or is terminated:
/// a read runs until a whole frame has arrived or the transport ends.
pub struct UotStream {
    pub io: MemStream,
    pub rd: FrameReader,
    pub wr: FrameWriter,
}

impl UotStream {
    /// The stream invariant.
    pub open spec fn wf(&self) -> bool {
        &&& self.io.wf()
        &&& self.rd.wf()
        &&& self.wr.wf()
        &&& !(self.rd.state matches State::Data(_))
        &&& self.rd.pre@.len() == 0
        &&& self.rd.acc@.len() == 0
    }

    /// Create from an underlying transport.
    pub fn new(io: MemStream) -> (r: UotStream)
        requires
            io.wf(),
        ensures
            r.wf(),
            r.io == io,
            r.rd.state == State::Len,
            r.wr.cursor == 0,
            !r.wr.fin,
    {
        UotStream { io, rd: FrameReader::new(), wr: FrameWriter::new() }
    }

    /// Read one frame: the payload of the next complete frame on the
    /// transport; a shorter result than a whole frame means the
    /// transport ended first, and every later read yields zero bytes.
    pub fn read(&mut self) -> (r: Vec<u8>)
        requires
            old(self).wf(),
            old(self).io.rlimit >= 1,
        ensures
            final(self).wf(),
            final(self).io.data == old(self).io.data,
            final(self).io.rlimit == old(self).io.rlimit,
            final(self).io.wlimit == old(self).io.wlimit,
            final(self).wr == old(self).wr,
            old(self).rd.state matches State::Fin ==> final(self).rd == old(self).rd
                && final(self).io.rpos == old(self).io.rpos && r@.len() == 0,
            old(self).rd.state matches State::Len ==> ({
                let stream = old(self).io.remaining();
                if frames(stream).len() >= 1 {
                    &&& r@ == frames(stream)[0]
                    &&& final(self).rd.state matches State::Len
                    &&& final(self).io.rpos == old(self).io.rpos + 2 + r@.len()
                } else {
                    &&& final(self).rd.state matches State::Fin
                    &&& final(self).io.rpos == old(self).io.data@.len()
                    &&& r@ == (if stream.len() < 2 {
                        Seq::<u8>::empty()
                    } else {
                        stream.skip(2)
                    })
                }
            }),
    {
        match self.rd.state {
            State::Fin => {
                return Vec::new();
            },
            _ => {},
        }
        let ghost rpos0 = self.io.rpos as int;
        let ghost stream = self.io.remaining();
        let ghost data0 = self.io.data@;
        loop
            invariant
                self.io.wf(),
                self.rd.wf(),
                self.wr == old(self).wr,
                self.wr.wf(),
                self.io.data == old(self).io.data,
                self.io.data@ == data0,
                data0 == old(self).io.data@,
                self.io.rlimit == old(self).io.rlimit >= 1,
                self.io.wlimit == old(self).io.wlimit,
                rpos0 <= self.io.rpos <= data0.len(),
                stream == data0.skip(rpos0),
                stream == old(self).io.remaining(),
                rpos0 == old(self).io.rpos,
                old(self).rd.state matches State::Len,
                ({
                    let c = self.io.rpos - rpos0;
                    ||| (self.rd.state matches State::Len
                        && self.rd.acc@.len() == 0
                        && self.rd.pre@ == stream.subrange(0, c)
                        && c < 2)
                    ||| (self.rd.state matches State::Data(rr)
                        && stream.len() >= 2
                        && 1 <= be16(stream[0], stream[1])
                        && 2 <= c
                        && self.rd.pre@.len() == 0
                        && self.rd.acc@ == stream.subrange(2, c)
                        && rr == be16(stream[0], stream[1]) - (c - 2)
                        && 1 <= rr)
                }),
            decreases data0.len() - self.io.rpos,
        {
            let ghost c0 = self.io.rpos - rpos0;
            let need = self.rd.need();
            let chunk = self.io.read(need);
            if chunk.len() == 0 {
                // need and rlimit are both positive, so an empty chunk
                // means the transport is exhausted.
                let r = self.rd.set_eof();
                proof {
                    assert(stream.len() == c0);
                    if c0 >= 2 {
                        assert(stream.len() < 2 + be16(stream[0], stream[1]));
                        assert(stream.subrange(2, c0) =~= stream.skip(2));
                    }
                }
                return r;
            }
            let ghost n = chunk@.len() as int;
            proof {
                assert(chunk@ =~= stream.subrange(c0, c0 + n));
                if c0 < 2 {
                    assert(self.rd.acc@ =~= Seq::<u8>::empty());
                } else {
                    assert(self.rd.pre@ =~= Seq::<u8>::empty());
                }
            }
            let ghost st_b = self.rd.state;
            let ghost pre_b = self.rd.pre@;
            let ghost acc_b = self.rd.acc@;
            let fed = self.rd.feed_chunk(&chunk);
            proof {
                let c1 = c0 + n;
                if c0 < 2 {
                    let pre0 = stream.subrange(0, c0);
                    lemma_run_prefix(pre0, Seq::<u8>::empty(), chunk@);
                    assert(pre0 + chunk@ =~= stream.subrange(0, c1));
                    if c1 >= 2 {
                        assert(stream.subrange(0, 2)[0] == stream[0]
                            && stream.subrange(0, 2)[1] == stream[1]);
                    }
                } else {
                    let acc0 = stream.subrange(2, c0);
                    let rr = (be16(stream[0], stream[1]) - (c0 - 2)) as u16;
                    lemma_run_payload(rr, acc0, chunk@);
                    assert(acc0 + chunk@ =~= stream.subrange(2, c1));
                }
            }
            match fed {
                Some(f) => {
                    proof {
                        let c1 = c0 + n;
                        let l = be16(stream[0], stream[1]);
                        let ran = dec_run(st_b, pre_b, acc_b, chunk@);
                        assert(ran.3[0] == f@);
                        if c0 < 2 {
                            assert(c1 == 2);
                            assert(l == 0);
                            assert(f@ =~= Seq::<u8>::empty());
                        } else {
                            assert(n == l - (c0 - 2));
                            assert(f@ == stream.subrange(2, c0) + chunk@);
                        }
                        assert(c1 == 2 + l);
                        assert(stream.subrange(2, 2 + l) =~= f@);
                        assert(frames(stream)[0] == stream.subrange(2, 2 + l));
                    }
                    return f;
                },
                None => {},
            }
        }
    }

    /// One byte-stream write call for the frame carrying `payload`:
    /// offer the rest of the frame's encoding to the transport and
    /// record what it accepted.  The result counts payload bytes only;
    /// the two prefix bytes are never part of any reported count.  Zero
    /// acceptance by the transport terminates the write half.
    pub fn write(&mut self, payload: &Vec<u8>) -> (n: usize)
        requires
            old(self).wf(),
            1 <= payload@.len() <= MAX_FRAME_PAYLOAD,
            old(self).wr.cursor < 2 + payload@.len(),
        ensures
            final(self).wf(),
            final(self).io.rpos == old(self).io.rpos,
            final(self).io.rlimit == old(self).io.rlimit,
            final(self).io.wlimit == old(self).io.wlimit,
            final(self).rd == old(self).rd,
            old(self).wr.fin ==> final(self).io.data == old(self).io.data
                && final(self).wr == old(self).wr && n == 0,
            !old(self).wr.fin ==> ({
                let cursor = old(self).wr.cursor as int;
                let total = 2 + payload@.len();
                let k = min2(total - cursor, old(self).io.wlimit as int);
                if k == 0 {
                    &&& final(self).wr.fin
                    &&& final(self).wr.cursor == old(self).wr.cursor
                    &&& n == 0
                    &&& final(self).io.data@ == old(self).io.data@
                } else {
                    &&& !final(self).wr.fin
                    &&& final(self).io.data@ == old(self).io.data@
                        + spec_encode(payload@).subrange(cursor, cursor + k)
                    &&& final(self).wr.cursor == (if cursor + k == total {
                        0int
                    } else {
                        cursor + k
                    })
                    &&& n == payload_mark(cursor + k) - payload_mark(cursor)
                }
            }),
    {
        if self.wr.fin {
            return 0;
        }
        let off = self.wr.offer(payload);
        let k = self.io.write(&off);
        proof {
            assert(off@.take(k as int)
                =~= spec_encode(payload@).subrange(self.wr.cursor as int, self.wr.cursor + k));
            if k == 0 {
                assert(old(self).io.data@ + off@.take(0) =~= old(self).io.data@);
            }
        }
        let n = self.wr.commit(payload.len(), k);
        n
    }

    /// Write one whole frame: repeat byte-stream writes until the length
    /// prefix and the payload are fully on the wire.  With a transport
    /// that accepts at least one byte per call this always completes,
    /// and the wire grows by exactly the frame's encoding.
    pub fn write_all(&mut self, payload: &Vec<u8>)
        requires
            old(self).wf(),
            1 <= payload@.len() <= MAX_FRAME_PAYLOAD,
            old(self).wr.cursor == 0,
            !old(self).wr.fin,
            old(self).io.wlimit >= 1,
        ensures
            final(self).wf(),
            final(self).io.data@ == old(self).io.data@ + spec_encode(payload@),
            final(self).io.rpos == old(self).io.rpos,
            final(self).io.rlimit == old(self).io.rlimit,
            final(self).io.wlimit == old(self).io.wlimit,
            final(self).rd == old(self).rd,
            final(self).wr.cursor == 0,
            !final(self).wr.fin,
    {
        let ghost data0 = self.io.data@;
        proof {
            assert(data0 + spec_encode(payload@).take(0) =~= data0);
        }
        loop
            invariant_except_break
                self.wf(),
                1 <= payload@.len() <= MAX_FRAME_PAYLOAD,
                !self.wr.fin,
                self.wr.cursor < 2 + payload@.len(),
                self.io.wlimit == old(self).io.wlimit >= 1,
                self.io.rpos == old(self).io.rpos,
                self.io.rlimit == old(self).io.rlimit,
                self.rd == old(self).rd,
                self.io.data@ == data0 + spec_encode(payload@).take(self.wr.cursor as int),
                data0 == old(self).io.data@,
            ensures
                self.wf(),
                self.io.data@ == data0 + spec_encode(payload@),
                self.io.rpos == old(self).io.rpos,
                self.io.rlimit == old(self).io.rlimit,
                self.io.wlimit == old(self).io.wlimit,
                self.rd == old(self).rd,
                self.wr.cursor == 0,
                !self.wr.fin,
                data0 == old(self).io.data@,
            decreases 2 + payload@.len() - self.wr.cursor,
        {
            let ghost cur0 = self.wr.cursor as int;
            self.write(payload);
            proof {
                let total = 2 + payload@.len();
                let k = min2(total - cur0, self.io.wlimit as int);
                assert(k >= 1);
                assert(data0 + spec_encode(payload@).take(cur0)
                    + spec_encode(payload@).subrange(cur0, cur0 + k)
                    =~= data0 + spec_encode(payload@).take(cur0 + k));
                if cur0 + k == total {
                    assert(spec_encode(payload@).take(cur0 + k) =~= spec_encode(payload@));
                }
            }
            if self.wr.cursor == 0 {
                break;
            }
        }
    }

    /// Write a list of frames in order: the wire grows by exactly the
    /// concatenation of their encodings.
    pub fn write_frames(&mut self, payloads: &Vec<Vec<u8>>)
        requires
            old(self).wf(),
            old(self).wr.cursor == 0,
            !old(self).wr.fin,
            old(self).io.wlimit >= 1,
            forall|i: int| 0 <= i < payloads@.len()
                ==> 1 <= (#[trigger] payloads@[i])@.len() <= MAX_FRAME_PAYLOAD,
        ensures
            final(self).wf(),
            final(self).io.data@ == old(self).io.data@
                + encode_all(payloads@.map_values(|p: Vec<u8>| p@)),
            final(self).io.rpos == old(self).io.rpos,
            final(self).io.rlimit == old(self).io.rlimit,
            final(self).io.wlimit == old(self).io.wlimit,
            final(self).rd == old(self).rd,
            final(self).wr.cursor == 0,
            !final(self).wr.fin,
    {
        let ghost data0 = self.io.data@;
        let ghost dv = payloads@.map_values(|p: Vec<u8>| p@);
        let mut i: usize = 0;
        proof {
            assert(data0 + encode_all(dv.take(0)) =~= data0);
        }
        while i < payloads.len()
            invariant
                self.wf(),
                i <= payloads@.len(),
                dv == payloads@.map_values(|p: Vec<u8>| p@),
                forall|j: int| 0 <= j < payloads@.len()
                    ==> 1 <= (#[trigger] payloads@[j])@.len() <= MAX_FRAME_PAYLOAD,
                self.wr.cursor == 0,
                !self.wr.fin,
                self.io.wlimit == old(self).io.wlimit >= 1,
                self.io.rpos == old(self).io.rpos,
                self.io.rlimit == old(self).io.rlimit,
                self.rd == old(self).rd,
                self.io.data@ == data0 + encode_all(dv.take(i as int)),
                data0 == old(self).io.data@,
            decreases payloads@.len() - i,
        {
            self.write_all(&payloads[i]);
            i = i + 1;
            proof {
                lemma_encode_all_snoc(dv.take(i - 1), dv[i - 1]);
                assert(dv.take(i - 1).push(dv[i - 1]) =~= dv.take(i as int));
                assert(data0 + encode_all(dv.take(i - 1)) + spec_encode(dv[i - 1])
                    =~= data0 + (encode_all(dv.take(i - 1)) + spec_encode(dv[i - 1])));
            }
        }
        proof {
            assert(dv.take(payloads@.len() as int) =~= dv);
        }
    }
}

} // verus!

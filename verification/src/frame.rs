//! Length-prefixed frame codec.
//!
//! Wire format: a 16-bit big-endian length followed by that many payload
//! bytes.  The decoder and encoder are explicit state machines so that any
//! suspension and resumption of the underlying transport retains progress:
//! the decoder buffers at most the two prefix bytes plus the payload of the
//! frame in progress, and the encoder tracks how many bytes of the current
//! frame have been accepted by the transport.

use vstd::prelude::*;

verus! {

/// Largest payload a frame can carry: the length prefix is 16 bits.
pub const MAX_FRAME_PAYLOAD: usize = 65535;

/// The decoder's state: `Len` expects (more of) the length prefix,
/// `Data(r)` expects `r` more payload bytes, and `Fin` is terminated:
/// every further read yields zero bytes.
#[derive(Clone, Copy, PartialEq, Eq, Structural, Debug)]
pub enum State {
    Len,
    Data(u16),
    Fin,
}

impl State {
    /// The initial read state: expecting a length prefix.
    pub fn new() -> (r: Self)
        ensures
            r == State::Len,
    {
        State::Len
    }
}

/// The value of a big-endian 16-bit length prefix.
pub open spec fn be16(hi: u8, lo: u8) -> int {
    hi * 256 + lo
}

/// The encoding of one frame: two big-endian length bytes, then the payload.
pub open spec fn spec_encode(payload: Seq<u8>) -> Seq<u8>
    recommends
        payload.len() <= MAX_FRAME_PAYLOAD,
{
    seq![(payload.len() as int / 256) as u8, (payload.len() as int % 256) as u8] + payload
}

/// Encode one frame into a fresh buffer.
pub fn encode(payload: &Vec<u8>) -> (r: Vec<u8>)
    requires
        payload@.len() <= MAX_FRAME_PAYLOAD,
    ensures
        r@ == spec_encode(payload@),
        r@.len() == payload@.len() + 2,
{
    let len: u16 = payload.len() as u16;
    let mut r: Vec<u8> = Vec::new();
    r.push((len / 256) as u8);
    r.push((len % 256) as u8);
    let mut i: usize = 0;
    while i < payload.len()
        invariant
            i <= payload@.len(),
            payload@.len() <= MAX_FRAME_PAYLOAD,
            r@ == spec_encode(payload@).take(2 + i),
        decreases payload@.len() - i,
    {
        r.push(payload[i]);
        i = i + 1;
        proof {
            assert(r@ =~= spec_encode(payload@).take(2 + i));
        }
    }
    proof {
        assert(r@ =~= spec_encode(payload@));
    }
    r
}

/// Well-formedness of a decoder configuration: `pre` holds the buffered
/// prefix bytes, `acc` the payload bytes of the frame in progress.
pub open spec fn dec_wf(st: State, pre: Seq<u8>, acc: Seq<u8>) -> bool {
    match st {
        State::Len => pre.len() < 2 && acc.len() == 0,
        State::Data(r) => pre.len() == 0 && 1 <= r && acc.len() + r <= MAX_FRAME_PAYLOAD,
        State::Fin => pre.len() == 0 && acc.len() == 0,
    }
}

/// One decoder step: consume the byte `b`; the fourth component is the
/// payload of a frame completed by this byte, if any.
pub open spec fn dec_step(st: State, pre: Seq<u8>, acc: Seq<u8>, b: u8) -> (State, Seq<u8>, Seq<u8>, Option<Seq<u8>>) {
    match st {
        State::Len => {
            if pre.len() == 0 {
                (State::Len, seq![b], acc, None)
            } else if be16(pre[0], b) == 0 {
                (State::Len, Seq::empty(), Seq::empty(), Some(Seq::empty()))
            } else {
                (State::Data(be16(pre[0], b) as u16), Seq::empty(), Seq::empty(), None)
            }
        },
        State::Data(r) => {
            if r == 1 {
                (State::Len, Seq::empty(), Seq::empty(), Some(acc.push(b)))
            } else {
                (State::Data((r - 1) as u16), pre, acc.push(b), None)
            }
        },
        State::Fin => (State::Fin, pre, acc, None),
    }
}

/// The decoder run over a whole input: the fourth component collects the
/// payloads of every frame completed along the way, in order.
pub open spec fn dec_run(st: State, pre: Seq<u8>, acc: Seq<u8>, input: Seq<u8>) -> (State, Seq<u8>, Seq<u8>, Seq<Seq<u8>>)
    decreases input.len(),
{
    if input.len() == 0 {
        (st, pre, acc, Seq::empty())
    } else {
        let stepped = dec_step(st, pre, acc, input[0]);
        let rest = dec_run(stepped.0, stepped.1, stepped.2, input.skip(1));
        let here = match stepped.3 {
            Some(f) => seq![f],
            None => Seq::empty(),
        };
        (rest.0, rest.1, rest.2, here + rest.3)
    }
}

/// Running the decoder over `a + b` is running it over `a`, then over `b`.
///
/// This is what makes the decoder insensitive to how the byte stream is
/// split or coalesced: any chunking of the same bytes produces the same
/// frames.
pub proof fn lemma_run_append(st: State, pre: Seq<u8>, acc: Seq<u8>, a: Seq<u8>, b: Seq<u8>)
    ensures
        ({
            let first = dec_run(st, pre, acc, a);
            let second = dec_run(first.0, first.1, first.2, b);
            dec_run(st, pre, acc, a + b) == (second.0, second.1, second.2, first.3 + second.3)
        }),
    decreases a.len(),
{
    if a.len() == 0 {
        assert(a + b =~= b);
        assert(dec_run(st, pre, acc, a).3 + dec_run(st, pre, acc, a + b).3 =~= dec_run(st, pre, acc, a + b).3);
    } else {
        let stepped = dec_step(st, pre, acc, a[0]);
        assert((a + b).skip(1) =~= a.skip(1) + b);
        lemma_run_append(stepped.0, stepped.1, stepped.2, a.skip(1), b);
        let here = match stepped.3 {
            Some(f) => seq![f],
            None => Seq::<Seq<u8>>::empty(),
        };
        let first = dec_run(st, pre, acc, a);
        let second = dec_run(first.0, first.1, first.2, b);
        assert(here + (dec_run(stepped.0, stepped.1, stepped.2, a.skip(1)).3 + second.3)
            =~= first.3 + second.3);
    }
}

/// A run over a single byte is a single step.
pub proof fn lemma_run_one(st: State, pre: Seq<u8>, acc: Seq<u8>, b: u8)
    ensures
        dec_run(st, pre, acc, seq![b]).0 == dec_step(st, pre, acc, b).0,
        dec_run(st, pre, acc, seq![b]).1 == dec_step(st, pre, acc, b).1,
        dec_run(st, pre, acc, seq![b]).2 == dec_step(st, pre, acc, b).2,
        dec_run(st, pre, acc, seq![b]).3 == match dec_step(st, pre, acc, b).3 {
            Some(f) => seq![f],
            None => Seq::<Seq<u8>>::empty(),
        },
{
    reveal_with_fuel(dec_run, 2);
    assert(seq![b].skip(1) =~= Seq::<u8>::empty());
    let stepped = dec_step(st, pre, acc, b);
    let here = match stepped.3 {
        Some(f) => seq![f],
        None => Seq::<Seq<u8>>::empty(),
    };
    assert(here + Seq::<Seq<u8>>::empty() =~= here);
}

/// The frame decoder: the read half of the codec, independent of any
/// transport.  Bytes are pushed in as they arrive; a completed frame's
/// payload is handed back as soon as its last byte is consumed.
pub struct FrameReader {
    pub state: State,
    pub pre: Vec<u8>,
    pub acc: Vec<u8>,
}

impl FrameReader {
    /// The decoder invariant.
    pub open spec fn wf(&self) -> bool {
        dec_wf(self.state, self.pre@, self.acc@)
    }

    /// A fresh decoder, expecting a length prefix.
    pub fn new() -> (r: FrameReader)
        ensures
            r.wf(),
            r.state == State::Len,
            r.pre@ == Seq::<u8>::empty(),
            r.acc@ == Seq::<u8>::empty(),
    {
        FrameReader { state: State::new(), pre: Vec::new(), acc: Vec::new() }
    }

    /// How many bytes the decoder can consume before the next frame
    /// boundary: the rest of the prefix, or the rest of the payload.
    pub open spec fn spec_need(&self) -> int {
        match self.state {
            State::Len => 2 - self.pre@.len(),
            State::Data(r) => r as int,
            State::Fin => 0,
        }
    }

    /// See [`Self::spec_need`].
    pub fn need(&self) -> (n: usize)
        requires
            self.wf(),
        ensures
            n == self.spec_need(),
    {
        match self.state {
            State::Len => 2 - self.pre.len(),
            State::Data(r) => r as usize,
            State::Fin => 0,
        }
    }

    /// Consume one byte; a frame completed by it is returned.
    pub fn feed_byte(&mut self, b: u8) -> (r: Option<Vec<u8>>)
        requires
            old(self).wf(),
        ensures
            final(self).wf(),
            ({
                let stepped = dec_step(old(self).state, old(self).pre@, old(self).acc@, b);
                &&& final(self).state == stepped.0
                &&& final(self).pre@ == stepped.1
                &&& final(self).acc@ == stepped.2
                &&& match (r, stepped.3) {
                    (Some(v), Some(f)) => v@ == f,
                    (None, None) => true,
                    _ => false,
                }
            }),
    {
        match self.state {
            State::Len => {
                if self.pre.len() == 0 {
                    self.pre.push(b);
                    None
                } else {
                    let hi: u8 = self.pre[0];
                    let l: u16 = (hi as u16) * 256 + (b as u16);
                    self.pre.clear();
                    if l == 0 {
                        Some(Vec::new())
                    } else {
                        self.state = State::Data(l);
                        None
                    }
                }
            },
            State::Data(r) => {
                self.acc.push(b);
                if r == 1 {
                    self.state = State::Len;
                    let mut out: Vec<u8> = Vec::new();
                    core::mem::swap(&mut out, &mut self.acc);
                    Some(out)
                } else {
                    self.state = State::Data(r - 1);
                    None
                }
            },
            State::Fin => None,
        }
    }

    /// The inner stream reported end-of-stream: terminate, handing back
    /// whatever payload bytes of a partial frame were already delivered.
    pub fn set_eof(&mut self) -> (r: Vec<u8>)
        requires
            old(self).wf(),
        ensures
            final(self).wf(),
            final(self).state == State::Fin,
            final(self).pre@ == Seq::<u8>::empty(),
            final(self).acc@ == Seq::<u8>::empty(),
            r@ == old(self).acc@,
    {
        self.state = State::Fin;
        self.pre.clear();
        let mut out: Vec<u8> = Vec::new();
        core::mem::swap(&mut out, &mut self.acc);
        out
    }

    /// Consume a whole chunk of at most [`Self::spec_need`] bytes; at most
    /// one frame can complete, and only on the chunk's last byte.
    pub fn feed_chunk(&mut self, chunk: &Vec<u8>) -> (r: Option<Vec<u8>>)
        requires
            old(self).wf(),
            chunk@.len() <= old(self).spec_need(),
        ensures
            final(self).wf(),
            ({
                let ran = dec_run(old(self).state, old(self).pre@, old(self).acc@, chunk@);
                &&& final(self).state == ran.0
                &&& final(self).pre@ == ran.1
                &&& final(self).acc@ == ran.2
                &&& match r {
                    Some(v) => ran.3 == seq![v@],
                    None => ran.3 == Seq::<Seq<u8>>::empty(),
                }
            }),
    {
        let ghost st0 = self.state;
        let ghost pre0 = self.pre@;
        let ghost acc0 = self.acc@;
        let mut i: usize = 0;
        let mut out: Option<Vec<u8>> = None;
        while i < chunk.len()
            invariant
                self.wf(),
                i <= chunk@.len(),
                self.spec_need() >= chunk@.len() - i,
                ({
                    let ran = dec_run(st0, pre0, acc0, chunk@.take(i as int));
                    &&& self.state == ran.0
                    &&& self.pre@ == ran.1
                    &&& self.acc@ == ran.2
                    &&& match out {
                        Some(v) => ran.3 == seq![v@] && i == chunk@.len(),
                        None => ran.3 == Seq::<Seq<u8>>::empty(),
                    }
                }),
            decreases chunk@.len() - i,
        {
            proof {
                assert(chunk@.take(i + 1) =~= chunk@.take(i as int) + seq![chunk@[i as int]]);
                lemma_run_append(st0, pre0, acc0, chunk@.take(i as int), seq![chunk@[i as int]]);
                let ran = dec_run(st0, pre0, acc0, chunk@.take(i as int));
                lemma_run_one(ran.0, ran.1, ran.2, chunk@[i as int]);
            }
            let ghost ran_prev = dec_run(st0, pre0, acc0, chunk@.take(i as int));
            let fed = self.feed_byte(chunk[i]);
            i = i + 1;
            proof {
                let stepped = dec_step(ran_prev.0, ran_prev.1, ran_prev.2, chunk@[i - 1]);
                let here = match stepped.3 {
                    Some(f) => seq![f],
                    None => Seq::<Seq<u8>>::empty(),
                };
                assert(ran_prev.3 + here =~= here);
            }
            if fed.is_some() {
                out = fed;
                proof {
                    // A frame completes only when the decoder had exactly
                    // one byte left to take, so only on the final byte.
                    assert(i == chunk@.len());
                }
            }
        }
        proof {
            assert(chunk@.take(chunk@.len() as int) =~= chunk@);
        }
        out
    }
}

/// How many payload bytes of the current frame have been reported to the
/// caller when `c` bytes of the frame (prefix plus payload) were accepted
/// by the transport: the two prefix bytes are never counted.
pub open spec fn payload_mark(c: int) -> int {
    if c >= 2 {
        c - 2
    } else {
        0
    }
}

/// The frame encoder: the write half of the codec, independent of any
/// transport.
///
/// `cursor` counts the bytes of the current frame, prefix included, that
/// the transport has accepted; `cursor == 0` is the frame boundary.  When
/// the transport accepts zero bytes (end-of-stream) the writer terminates
/// and every further write reports zero.
pub struct FrameWriter {
    pub cursor: usize,
    pub fin: bool,
}

impl FrameWriter {
    /// The encoder invariant.
    pub open spec fn wf(&self) -> bool {
        self.cursor <= 2 + MAX_FRAME_PAYLOAD
    }

    /// A fresh encoder, at a frame boundary.
    pub fn new() -> (r: FrameWriter)
        ensures
            r.wf(),
            r.cursor == 0,
            !r.fin,
    {
        FrameWriter { cursor: 0, fin: false }
    }

    /// The bytes of the current frame still owed to the transport: the
    /// tail of the frame's encoding, starting at `cursor`.
    ///
    /// Mid-prefix (`cursor < 2`) no payload progress has been reported,
    /// so the caller passes the whole payload; mid-payload it passes the
    /// same logical payload again, as a `write_all` loop does.
    pub fn offer(&self, payload: &Vec<u8>) -> (r: Vec<u8>)
        requires
            self.wf(),
            !self.fin,
            1 <= payload@.len() <= MAX_FRAME_PAYLOAD,
            self.cursor < 2 + payload@.len(),
        ensures
            r@ == spec_encode(payload@).skip(self.cursor as int),
            r@.len() == 2 + payload@.len() - self.cursor,
    {
        let encoded = encode(payload);
        let mut r: Vec<u8> = Vec::new();
        let mut i: usize = self.cursor;
        while i < encoded.len()
            invariant
                self.cursor <= i <= encoded@.len(),
                encoded@ == spec_encode(payload@),
                payload@.len() <= MAX_FRAME_PAYLOAD,
                r@ == spec_encode(payload@).subrange(self.cursor as int, i as int),
            decreases encoded@.len() - i,
        {
            r.push(encoded[i]);
            i = i + 1;
            proof {
                assert(r@ =~= spec_encode(payload@).subrange(self.cursor as int, i as int));
            }
        }
        proof {
            assert(r@ =~= spec_encode(payload@).skip(self.cursor as int));
        }
        r
    }

    /// Record that the transport accepted `accepted` bytes of the current
    /// offer; the result is the number of payload bytes newly reported to
    /// the caller.  Zero acceptance is end-of-stream: the writer
    /// terminates and reports zero.
    pub fn commit(&mut self, payload_len: usize, accepted: usize) -> (reported: usize)
        requires
            old(self).wf(),
            !old(self).fin,
            payload_len <= MAX_FRAME_PAYLOAD,
            old(self).cursor < 2 + payload_len,
            accepted <= 2 + payload_len - old(self).cursor,
        ensures
            final(self).wf(),
            accepted == 0 ==> final(self).fin && final(self).cursor == old(self).cursor && reported == 0,
            accepted >= 1 ==> ({
                &&& !final(self).fin
                &&& final(self).cursor == (if old(self).cursor + accepted == 2 + payload_len {
                    0int
                } else {
                    old(self).cursor + accepted
                })
                &&& reported == payload_mark(old(self).cursor + accepted) - payload_mark(old(self).cursor as int)
            }),
    {
        if accepted == 0 {
            self.fin = true;
            return 0;
        }
        let advanced: usize = self.cursor + accepted;
        let reported: usize = if advanced >= 2 {
            if self.cursor >= 2 {
                accepted
            } else {
                advanced - 2
            }
        } else {
            0
        };
        self.cursor = if advanced == 2 + payload_len {
            0
        } else {
            advanced
        };
        reported
    }
}

/// The payloads of the complete frames at the head of a byte stream, in
/// order, up to the first incomplete frame.
pub open spec fn frames(input: Seq<u8>) -> Seq<Seq<u8>>
    decreases input.len(),
{
    if input.len() < 2 {
        Seq::empty()
    } else {
        let l = be16(input[0], input[1]);
        if input.len() < 2 + l {
            Seq::empty()
        } else {
            seq![input.subrange(2, 2 + l)] + frames(input.skip(2 + l))
        }
    }
}

/// The concatenation of the encodings of a list of payloads: what a
/// writer puts on the wire for them.
pub open spec fn encode_all(payloads: Seq<Seq<u8>>) -> Seq<u8>
    decreases payloads.len(),
{
    if payloads.len() == 0 {
        Seq::empty()
    } else {
        spec_encode(payloads[0]) + encode_all(payloads.skip(1))
    }
}

/// Appending one more payload appends its encoding to the wire bytes.
pub proof fn lemma_encode_all_snoc(payloads: Seq<Seq<u8>>, p: Seq<u8>)
    ensures
        encode_all(payloads.push(p)) == encode_all(payloads) + spec_encode(p),
    decreases payloads.len(),
{
    if payloads.len() == 0 {
        assert(payloads.push(p).skip(1) =~= Seq::<Seq<u8>>::empty());
        assert(payloads.push(p)[0] == p);
        assert(spec_encode(p) + encode_all(Seq::<Seq<u8>>::empty()) =~= spec_encode(p));
        assert(encode_all(payloads) + spec_encode(p) =~= spec_encode(p));
    } else {
        assert(payloads.push(p).skip(1) =~= payloads.skip(1).push(p));
        assert(payloads.push(p)[0] == payloads[0]);
        lemma_encode_all_snoc(payloads.skip(1), p);
        assert(spec_encode(payloads[0]) + (encode_all(payloads.skip(1)) + spec_encode(p))
            =~= (spec_encode(payloads[0]) + encode_all(payloads.skip(1))) + spec_encode(p));
    }
}

/// The length prefix of an encoded frame decodes to the payload's length.
pub proof fn lemma_be16_encode(l: int)
    requires
        0 <= l <= MAX_FRAME_PAYLOAD,
    ensures
        be16((l / 256) as u8, (l % 256) as u8) == l,
{
    assert(l / 256 * 256 + l % 256 == l && 0 <= l / 256 < 256 && 0 <= l % 256 < 256)
        by (nonlinear_arith)
        requires 0 <= l <= 65535,
    ;
}

/// Closed form of a decoder run across prefix bytes: fewer than two in
/// all make the decoder wait; the second byte decodes the length.
pub proof fn lemma_run_prefix(pre: Seq<u8>, acc: Seq<u8>, chunk: Seq<u8>)
    requires
        pre.len() < 2,
        acc.len() == 0,
        1 <= chunk.len() <= 2 - pre.len(),
    ensures
        ({
            let combined = pre + chunk;
            let ran = dec_run(State::Len, pre, acc, chunk);
            if combined.len() < 2 {
                ran == (State::Len, combined, acc, Seq::<Seq<u8>>::empty())
            } else if be16(combined[0], combined[1]) == 0 {
                ran == (State::Len, Seq::<u8>::empty(), Seq::<u8>::empty(), seq![Seq::<u8>::empty()])
            } else {
                ran == (State::Data(be16(combined[0], combined[1]) as u16), Seq::<u8>::empty(), Seq::<u8>::empty(), Seq::<Seq<u8>>::empty())
            }
        }),
{
    reveal_with_fuel(dec_run, 4);
    let combined = pre + chunk;
    if pre.len() == 0 {
        if chunk.len() == 1 {
            assert(combined =~= seq![chunk[0]]);
            lemma_run_one(State::Len, pre, acc, chunk[0]);
            assert(chunk =~= seq![chunk[0]]);
            assert(dec_step(State::Len, pre, acc, chunk[0]).1 =~= seq![chunk[0]]);
        } else {
            assert(chunk.skip(1).skip(1) =~= Seq::<u8>::empty());
            assert(chunk.skip(1)[0] == chunk[1]);
            assert(dec_step(State::Len, pre, acc, chunk[0]).1 =~= seq![chunk[0]]);
            assert(combined[0] == chunk[0] && combined[1] == chunk[1]);
            assert(seq![chunk[0]][0] == chunk[0]);
            if be16(chunk[0], chunk[1]) == 0 {
                assert(dec_run(State::Len, pre, acc, chunk).3 =~= seq![Seq::<u8>::empty()]);
            } else {
                assert(dec_run(State::Len, pre, acc, chunk).3 =~= Seq::<Seq<u8>>::empty());
            }
        }
    } else {
        assert(chunk.len() == 1);
        assert(chunk.skip(1) =~= Seq::<u8>::empty());
        assert(combined[0] == pre[0] && combined[1] == chunk[0]);
        if be16(pre[0], chunk[0]) == 0 {
            assert(dec_run(State::Len, pre, acc, chunk).3 =~= seq![Seq::<u8>::empty()]);
        } else {
            assert(dec_run(State::Len, pre, acc, chunk).3 =~= Seq::<Seq<u8>>::empty());
        }
    }
}

/// Closed form of a decoder run across payload bytes: the chunk is
/// appended to the payload in progress, and the frame completes exactly
/// when the expected count is reached.
pub proof fn lemma_run_payload(r: u16, acc: Seq<u8>, chunk: Seq<u8>)
    requires
        1 <= r,
        acc.len() + r <= MAX_FRAME_PAYLOAD,
        1 <= chunk.len() <= r,
    ensures
        ({
            let ran = dec_run(State::Data(r), Seq::<u8>::empty(), acc, chunk);
            if chunk.len() < r {
                ran == (State::Data((r - chunk.len()) as u16), Seq::<u8>::empty(), acc + chunk, Seq::<Seq<u8>>::empty())
            } else {
                ran == (State::Len, Seq::<u8>::empty(), Seq::<u8>::empty(), seq![acc + chunk])
            }
        }),
    decreases chunk.len(),
{
    reveal_with_fuel(dec_run, 2);
    let pre = Seq::<u8>::empty();
    if r == 1 {
        assert(chunk.len() == 1);
        assert(chunk.skip(1) =~= Seq::<u8>::empty());
        assert(acc.push(chunk[0]) =~= acc + chunk);
        assert(dec_run(State::Data(r), pre, acc, chunk).3 =~= seq![acc.push(chunk[0])]);
    } else {
        let stepped = dec_step(State::Data(r), pre, acc, chunk[0]);
        assert(stepped == (State::Data((r - 1) as u16), pre, acc.push(chunk[0]), None::<Seq<u8>>));
        if chunk.len() == 1 {
            assert(chunk.skip(1) =~= Seq::<u8>::empty());
            assert(acc.push(chunk[0]) =~= acc + chunk);
            assert(dec_run(State::Data(r), pre, acc, chunk).3 =~= Seq::<Seq<u8>>::empty());
        } else {
            lemma_run_payload((r - 1) as u16, acc.push(chunk[0]), chunk.skip(1));
            assert(acc.push(chunk[0]) + chunk.skip(1) =~= acc + chunk);
            let rest = dec_run(stepped.0, stepped.1, stepped.2, chunk.skip(1));
            assert(Seq::<Seq<u8>>::empty() + rest.3 =~= rest.3);
        }
    }
}

/// One whole encoded frame decodes, from the initial state, to exactly
/// its payload, and leaves the decoder back in the initial state.
pub proof fn lemma_decode_frame(payload: Seq<u8>)
    requires
        payload.len() <= MAX_FRAME_PAYLOAD,
    ensures
        dec_run(State::Len, Seq::<u8>::empty(), Seq::<u8>::empty(), spec_encode(payload))
            == (State::Len, Seq::<u8>::empty(), Seq::<u8>::empty(), seq![payload]),
{
    let enc = spec_encode(payload);
    let none = Seq::<u8>::empty();
    lemma_be16_encode(payload.len() as int);
    assert(enc =~= enc.take(2) + enc.skip(2));
    lemma_run_append(State::Len, none, none, enc.take(2), enc.skip(2));
    assert(none + enc.take(2) =~= enc.take(2));
    assert(enc.take(2)[0] == enc[0] && enc.take(2)[1] == enc[1]);
    lemma_run_prefix(none, none, enc.take(2));
    let first = dec_run(State::Len, none, none, enc.take(2));
    if payload.len() == 0 {
        assert(payload =~= Seq::<u8>::empty());
        assert(enc.skip(2) =~= Seq::<u8>::empty());
        assert(first.3 + dec_run(first.0, first.1, first.2, enc.skip(2)).3 =~= first.3);
    } else {
        assert(enc.skip(2) =~= payload);
        lemma_run_payload(payload.len() as u16, none, payload);
        assert(none + payload =~= payload);
        assert(first.3 + dec_run(first.0, first.1, first.2, enc.skip(2)).3 =~= seq![payload]);
    }
}

/// The concatenation of any number of encoded frames decodes, from the
/// initial state, to exactly those payloads in order, and leaves the
/// decoder back in the initial state.  Together with `lemma_run_append`
/// this holds under any chunking of the byte stream.
pub proof fn lemma_decode_stream(payloads: Seq<Seq<u8>>)
    requires
        forall|i: int| 0 <= i < payloads.len() ==> #[trigger] payloads[i].len() <= MAX_FRAME_PAYLOAD,
    ensures
        dec_run(State::Len, Seq::<u8>::empty(), Seq::<u8>::empty(), encode_all(payloads))
            == (State::Len, Seq::<u8>::empty(), Seq::<u8>::empty(), payloads),
    decreases payloads.len(),
{
    let none = Seq::<u8>::empty();
    if payloads.len() == 0 {
        assert(dec_run(State::Len, none, none, encode_all(payloads)).3 =~= payloads);
    } else {
        lemma_run_append(State::Len, none, none, spec_encode(payloads[0]), encode_all(payloads.skip(1)));
        lemma_decode_frame(payloads[0]);
        lemma_decode_stream(payloads.skip(1));
        assert(seq![payloads[0]] + payloads.skip(1) =~= payloads);
    }
}

/// The byte stream assembled from a list of transport chunks.
pub open spec fn concat_bytes(chunks: Seq<Seq<u8>>) -> Seq<u8>
    decreases chunks.len(),
{
    if chunks.len() == 0 {
        Seq::empty()
    } else {
        chunks[0] + concat_bytes(chunks.skip(1))
    }
}

/// A decoder run driven chunk by chunk, as a transport delivers bytes.
pub open spec fn dec_run_chunks(st: State, pre: Seq<u8>, acc: Seq<u8>, chunks: Seq<Seq<u8>>) -> (State, Seq<u8>, Seq<u8>, Seq<Seq<u8>>)
    decreases chunks.len(),
{
    if chunks.len() == 0 {
        (st, pre, acc, Seq::empty())
    } else {
        let first = dec_run(st, pre, acc, chunks[0]);
        let rest = dec_run_chunks(first.0, first.1, first.2, chunks.skip(1));
        (rest.0, rest.1, rest.2, first.3 + rest.3)
    }
}

/// Feeding the decoder chunk by chunk equals feeding it the assembled
/// stream: the decoder is insensitive to how bytes are split or
/// coalesced.
pub proof fn lemma_run_chunked(st: State, pre: Seq<u8>, acc: Seq<u8>, chunks: Seq<Seq<u8>>)
    ensures
        dec_run_chunks(st, pre, acc, chunks) == dec_run(st, pre, acc, concat_bytes(chunks)),
    decreases chunks.len(),
{
    if chunks.len() == 0 {
        assert(dec_run(st, pre, acc, concat_bytes(chunks)).3 =~= dec_run_chunks(st, pre, acc, chunks).3);
    } else {
        let first = dec_run(st, pre, acc, chunks[0]);
        lemma_run_chunked(first.0, first.1, first.2, chunks.skip(1));
        lemma_run_append(st, pre, acc, chunks[0], concat_bytes(chunks.skip(1)));
    }
}

/// Round trip: any chunked splitting of any number of encoded frames
/// decodes to exactly those payloads, in order, and returns the decoder
/// to its initial state.
pub proof fn lemma_round_trip(payloads: Seq<Seq<u8>>, chunks: Seq<Seq<u8>>)
    requires
        forall|i: int| 0 <= i < payloads.len() ==> #[trigger] payloads[i].len() <= MAX_FRAME_PAYLOAD,
        concat_bytes(chunks) == encode_all(payloads),
    ensures
        dec_run_chunks(State::Len, Seq::<u8>::empty(), Seq::<u8>::empty(), chunks)
            == (State::Len, Seq::<u8>::empty(), Seq::<u8>::empty(), payloads),
{
    lemma_run_chunked(State::Len, Seq::<u8>::empty(), Seq::<u8>::empty(), chunks);
    lemma_decode_stream(payloads);
}

/// An encoded frame put in front of a byte stream contributes exactly
/// its payload as the stream's first complete frame.
pub proof fn lemma_frames_encode(payload: Seq<u8>, rest: Seq<u8>)
    requires
        payload.len() <= MAX_FRAME_PAYLOAD,
    ensures
        frames(spec_encode(payload) + rest) == seq![payload] + frames(rest),
{
    let input = spec_encode(payload) + rest;
    lemma_be16_encode(payload.len() as int);
    assert(input[0] == spec_encode(payload)[0] && input[1] == spec_encode(payload)[1]);
    let l = be16(input[0], input[1]);
    assert(l == payload.len());
    assert(input.subrange(2, 2 + l) =~= payload);
    assert(input.skip(2 + l) =~= rest);
}

/// The total of a schedule of per-call transport acceptances.
pub open spec fn sum_of(schedule: Seq<int>) -> int
    decreases schedule.len(),
{
    if schedule.len() == 0 {
        0
    } else {
        schedule[0] + sum_of(schedule.skip(1))
    }
}

/// The bytes that reach the transport when a writer, `cursor` bytes
/// into a frame's encoding, is driven by a schedule of per-call
/// acceptances: each call puts the next `schedule[i]` bytes of the
/// encoding on the wire.
pub open spec fn wire_of(payload: Seq<u8>, cursor: int, schedule: Seq<int>) -> Seq<u8>
    decreases schedule.len(),
{
    if schedule.len() == 0 {
        Seq::empty()
    } else {
        spec_encode(payload).subrange(cursor, cursor + schedule[0])
            + wire_of(payload, cursor + schedule[0], schedule.skip(1))
    }
}

/// Whatever the schedule of per-call acceptances, the bytes that reach
/// the transport are one contiguous piece of the frame's encoding; a
/// schedule that adds up to the whole frame puts exactly the frame's
/// encoding on the wire.
pub proof fn lemma_write_schedule(payload: Seq<u8>, cursor: int, schedule: Seq<int>)
    requires
        0 <= cursor,
        forall|i: int| 0 <= i < schedule.len() ==> #[trigger] schedule[i] >= 0,
        cursor + sum_of(schedule) <= 2 + payload.len(),
    ensures
        wire_of(payload, cursor, schedule)
            == spec_encode(payload).subrange(cursor, cursor + sum_of(schedule)),
    decreases schedule.len(),
{
    if schedule.len() == 0 {
        assert(wire_of(payload, cursor, schedule)
            =~= spec_encode(payload).subrange(cursor, cursor));
    } else {
        assert(forall|i: int| 0 <= i < schedule.skip(1).len()
            ==> #[trigger] schedule.skip(1)[i] == schedule[i + 1]);
        assert(sum_of(schedule.skip(1)) >= 0) by {
            lemma_sum_of_nonneg(schedule.skip(1));
        }
        lemma_write_schedule(payload, cursor + schedule[0], schedule.skip(1));
        assert(spec_encode(payload).subrange(cursor, cursor + schedule[0])
            + spec_encode(payload).subrange(cursor + schedule[0], cursor + sum_of(schedule))
            =~= spec_encode(payload).subrange(cursor, cursor + sum_of(schedule)));
    }
}

/// A schedule of non-negative acceptances has a non-negative total.
pub proof fn lemma_sum_of_nonneg(schedule: Seq<int>)
    requires
        forall|i: int| 0 <= i < schedule.len() ==> #[trigger] schedule[i] >= 0,
    ensures
        sum_of(schedule) >= 0,
    decreases schedule.len(),
{
    if schedule.len() > 0 {
        assert(forall|i: int| 0 <= i < schedule.skip(1).len()
            ==> #[trigger] schedule.skip(1)[i] == schedule[i + 1]);
        lemma_sum_of_nonneg(schedule.skip(1));
    }
}

/// The wire bytes a writer produces for a list of payloads parse back to
/// exactly those payloads.
pub proof fn lemma_frames_all(payloads: Seq<Seq<u8>>)
    requires
        forall|i: int| 0 <= i < payloads.len() ==> #[trigger] payloads[i].len() <= MAX_FRAME_PAYLOAD,
    ensures
        frames(encode_all(payloads)) == payloads,
    decreases payloads.len(),
{
    if payloads.len() == 0 {
        assert(frames(encode_all(payloads)) =~= payloads);
    } else {
        lemma_frames_encode(payloads[0], encode_all(payloads.skip(1)));
        lemma_frames_all(payloads.skip(1));
        assert(seq![payloads[0]] + payloads.skip(1) =~= payloads);
    }
}

} // verus!

//! Transmit side: a resumable state machine that emits one frame at a
//! time into caller-supplied output chunks of any size.
//!
//! The whole frame a payload produces on the wire is the specification
//! sequence [`wire`].  The machine keeps track of how many wire bytes it
//! has emitted so far ([`Tx::emitted`]); each call of [`Tx::run_tx`]
//! writes exactly the next bytes of that sequence, however small the
//! output buffer is.  That makes the encoded stream independent of how
//! the caller sizes its buffers.

use vstd::prelude::*;

use crate::crc::HdlcCrcT;
use crate::crc::crc_field_size_spec;
use crate::crc::crc_le_bytes;
use crate::crc::crc_value;
use crate::crc::crc_of;
use crate::crc::get_crc_field_size;
use crate::frame::HDLC_ESCAPE_BIT;
use crate::frame::HDLC_ESCAPE_CHAR;
use crate::frame::HDLC_FLAG_SEQUENCE;
use crate::frame::ResultT;
use crate::frame::frame_body;
use crate::frame::is_special;
use crate::frame::lemma_stuff_append;
use crate::frame::lemma_stuff_push;
use crate::frame::lemma_stuff_split;
use crate::frame::stuff;
use crate::frame::stuff_byte;
use crate::frame::wire;

verus! {

/// Callback capability invoked once a frame has fully left the
/// transmitter (or has been flushed by `close`), with the payload bytes
/// that were consumed.
pub trait TxProcessor {
    fn on_frame_send(&mut self, data: &[u8]);
}

/// Encode states of the transmitter.
#[derive(Clone, Copy)]
pub enum TxState {
    SendStart,
    SendData,
    SendCrc,
    SendEnd,
}

/// Order used to show that the driving loop makes progress even on the
/// one transition that emits no byte.
pub open spec fn tx_rank(s: TxState) -> int {
    match s {
        TxState::SendStart => 3,
        TxState::SendData => 2,
        TxState::SendCrc => 1,
        TxState::SendEnd => 0,
    }
}

/// Transmitter state machine.  One payload may be in flight at a time;
/// `put` arms it and `run_tx` drains it across as many calls as needed.
pub struct Tx {
    pub crc_type: HdlcCrcT,
    pub payload: Vec<u8>,
    /// Payload bytes whose wire form has been fully emitted.
    pub pos: usize,
    /// Checksum over the whole payload, computed when the frame starts.
    pub crc: u32,
    /// Checksum-field bytes whose wire form has been fully emitted.
    pub crc_pos: usize,
    /// True when the escape half of a stuffed pair has been emitted but
    /// the value half has not.
    pub escape: bool,
    pub send_in_progress: bool,
    pub state: TxState,
    /// Every payload slice reported to the Frame Sent callback so far:
    /// the whole payload when a frame completes, the consumed prefix
    /// when `close` flushes one mid-flight.
    pub reported: Ghost<Seq<Seq<u8>>>,
}

impl Tx {
    /// The body of the in-flight frame: payload plus checksum field.
    pub open spec fn body_view(self) -> Seq<u8> {
        frame_body(self.crc_type, self.payload@)
    }

    /// Everything the in-flight frame puts on the wire.
    pub open spec fn wire_view(self) -> Seq<u8> {
        wire(self.crc_type, self.payload@)
    }

    /// Body bytes whose wire form has been fully emitted.
    pub open spec fn units(self) -> int {
        match self.state {
            TxState::SendStart => 0,
            TxState::SendData => self.pos as int,
            TxState::SendCrc => self.payload@.len() + self.crc_pos,
            TxState::SendEnd => self.body_view().len() as int,
        }
    }

    /// How many bytes of `wire_view` have been emitted so far.
    pub open spec fn emitted(self) -> int {
        if !self.send_in_progress {
            0
        } else {
            match self.state {
                TxState::SendStart => 0,
                _ => 1 + stuff(self.body_view().take(self.units())).len() + (if self.escape {
                    1int
                } else {
                    0int
                }),
            }
        }
    }

    /// Well-formedness of the machine between calls.
    pub open spec fn wf(self) -> bool {
        let n = self.payload@.len() as int;
        let size = crc_field_size_spec(self.crc_type) as int;
        let crcb = crc_le_bytes(self.crc_type, crc_value(self.crc_type, self.payload@));
        &&& (!self.send_in_progress ==> self.state == TxState::SendStart)
        &&& (self.send_in_progress ==> {
            &&& n > 0
            &&& match self.state {
                TxState::SendStart => self.pos == 0 && self.crc_pos == 0 && !self.escape,
                TxState::SendData => {
                    &&& self.pos < n
                    &&& self.crc_pos == 0
                    &&& self.crc == crc_value(self.crc_type, self.payload@)
                    &&& (self.escape ==> is_special(self.payload@[self.pos as int]))
                },
                TxState::SendCrc => {
                    &&& self.pos == n
                    &&& self.crc == crc_value(self.crc_type, self.payload@)
                    &&& self.crc_pos <= size
                    &&& (self.escape ==> self.crc_pos < size && is_special(
                        crcb[self.crc_pos as int],
                    ))
                },
                TxState::SendEnd => self.pos == n && self.crc_pos == size && !self.escape,
            }
        })
    }

    pub fn new(crc_type: HdlcCrcT) -> (r: Tx)
        ensures
            r.wf(),
            !r.send_in_progress,
            r.crc_type == crc_type,
            r.reported@ == Seq::<Seq<u8>>::empty(),
    {
        Tx {
            crc_type,
            payload: Vec::new(),
            pos: 0,
            crc: 0,
            crc_pos: 0,
            escape: false,
            send_in_progress: false,
            state: TxState::SendStart,
            reported: Ghost(Seq::empty()),
        }
    }

    /// Abandon any in-flight frame and return to idle.
    pub fn reset(&mut self)
        ensures
            final(self).wf(),
            !final(self).send_in_progress,
            final(self).crc_type == old(self).crc_type,
            final(self).reported@ == old(self).reported@,
    {
        self.escape = false;
        self.send_in_progress = false;
        self.state = TxState::SendStart;
        self.pos = 0;
        self.crc_pos = 0;
    }

    /// If a frame is mid-flight, report what has been consumed of its
    /// payload so far to the Frame Sent callback (best-effort flush);
    /// the machine itself is left exactly as it was.
    pub fn close<P: TxProcessor>(&mut self, p: &mut P)
        requires
            old(self).wf(),
        ensures
            final(self).wf(),
            !old(self).send_in_progress ==> *final(self) == *old(self),
            old(self).send_in_progress ==> final(self).reported@ == old(self).reported@ + seq![
                old(self).payload@.take(old(self).pos as int),
            ],
            *final(self) == (Tx { reported: final(self).reported, ..*old(self) }),
    {
        if self.send_in_progress {
            let sent = vstd::slice::slice_subrange(self.payload.as_slice(), 0, self.pos);
            p.on_frame_send(sent);
            self.reported = Ghost(self.reported@.push(self.payload@.take(self.pos as int)));
            proof {
                assert(self.reported@ =~= old(self).reported@ + seq![
                    old(self).payload@.take(old(self).pos as int),
                ]);
            }
        }
    }

    /// Submit a payload for transmission.  Fails with `Busy` while a
    /// frame is in flight, leaving the machine untouched; an empty
    /// payload is a successful no-op.
    pub fn put(&mut self, data: &[u8]) -> (r: ResultT)
        requires
            old(self).wf(),
        ensures
            final(self).wf(),
            final(self).crc_type == old(self).crc_type,
            old(self).send_in_progress ==> r == ResultT::Busy && *final(self) == *old(self),
            !old(self).send_in_progress && data@.len() == 0 ==> r == ResultT::Success
                && *final(self) == *old(self),
            !old(self).send_in_progress && data@.len() > 0 ==> {
                &&& r == ResultT::Success
                &&& final(self).send_in_progress
                &&& final(self).payload@ == data@
                &&& final(self).emitted() == 0
                &&& final(self).reported@ == old(self).reported@
            },
    {
        if self.send_in_progress {
            return ResultT::Busy;
        }
        if data.len() == 0 {
            return ResultT::Success;
        }
        self.payload = vstd::slice::slice_to_vec(data);
        self.pos = 0;
        self.crc_pos = 0;
        self.escape = false;
        self.send_in_progress = true;
        ResultT::Success
    }

    /// Write one byte into the output chunk if there is room left.
    fn send_tx_internal(out: &mut Vec<u8>, written: usize, b: u8) -> (sent: usize)
        requires
            written <= old(out)@.len(),
        ensures
            final(out)@.len() == old(out)@.len(),
            written < old(out)@.len() ==> sent == 1 && final(out)@ == old(out)@.update(
                written as int,
                b,
            ),
            written == old(out)@.len() ==> sent == 0 && final(out)@ == old(out)@,
    {
        if written < out.len() {
            out.set(written, b);
            1
        } else {
            0
        }
    }

    /// The wire byte(s) that stand at the emission point for body byte `u`.
    proof fn lemma_wire_next(t: HdlcCrcT, p: Seq<u8>, u: int)
        requires
            0 <= u < frame_body(t, p).len(),
        ensures
            ({
                let w = wire(t, p);
                let body = frame_body(t, p);
                let e: int = 1 + stuff(body.take(u)).len() as int;
                &&& e + stuff_byte(body[u]).len() <= w.len() - 1
                &&& stuff(body.take(u + 1)).len() == stuff(body.take(u)).len() + stuff_byte(
                    body[u],
                ).len()
                &&& (!is_special(body[u]) ==> w[e] == body[u])
                &&& (is_special(body[u]) ==> w[e] == HDLC_ESCAPE_CHAR && w[e + 1] == (body[u]
                    ^ HDLC_ESCAPE_BIT))
            }),
    {
        let w = wire(t, p);
        let body = frame_body(t, p);
        let e: int = 1 + stuff(body.take(u)).len() as int;
        lemma_stuff_split(body, u);
        assert(body.take(u + 1) =~= body.take(u).push(body[u]));
        lemma_stuff_push(body.take(u), body[u]);
        assert(w == seq![HDLC_FLAG_SEQUENCE] + (stuff(body.take(u)) + stuff_byte(body[u]) + stuff(
            body.skip(u + 1),
        )) + seq![HDLC_FLAG_SEQUENCE]);
        assert(w[e] == stuff_byte(body[u])[0]);
        if is_special(body[u]) {
            assert(w[e + 1] == stuff_byte(body[u])[1]);
        }
    }

    /// The stuffed form of any body prefix is no longer than the whole
    /// stuffed body.
    proof fn lemma_stuff_prefix_len(s: Seq<u8>, u: int)
        requires
            0 <= u <= s.len(),
        ensures
            stuff(s) == stuff(s.take(u)) + stuff(s.skip(u)),
            stuff(s.take(u)).len() <= stuff(s).len(),
    {
        assert(s =~= s.take(u) + s.skip(u));
        lemma_stuff_append(s.take(u), s.skip(u));
    }

    /// While a frame is in flight, the emission point lies strictly
    /// inside the frame's wire form.
    pub proof fn lemma_emitted_bound(self)
        requires
            self.wf(),
            self.send_in_progress,
        ensures
            0 <= self.emitted() < self.wire_view().len(),
            self.wire_view().len() == 2 + stuff(self.body_view()).len(),
    {
        let body = self.body_view();
        let u = self.units();
        match self.state {
            TxState::SendStart => {
            }
            _ => {
                Self::lemma_stuff_prefix_len(body, u);
                if self.escape {
                    Self::lemma_wire_next(self.crc_type, self.payload@, u);
                }
            }
        }
    }

    /// Start a frame: compute the whole-payload checksum up front and
    /// emit the leading flag byte.
    fn send_start(&mut self, out: &mut Vec<u8>, written: usize) -> (w2: usize)
        requires
            old(self).wf(),
            old(self).send_in_progress,
            old(self).state == TxState::SendStart,
            written < old(out)@.len(),
        ensures
            final(self).wf(),
            final(self).send_in_progress,
            final(self).crc_type == old(self).crc_type,
            final(self).payload@ == old(self).payload@,
            final(self).reported@ == old(self).reported@,
            final(out)@.len() == old(out)@.len(),
            written < w2 <= old(out)@.len(),
            forall|j: int|
                0 <= j < old(out)@.len() && !(written <= j < w2) ==> final(out)@[j] == old(
                    out,
                )@[j],
            final(out)@.subrange(written as int, w2 as int) == old(self).wire_view().subrange(
                old(self).emitted(),
                old(self).emitted() + (w2 - written),
            ),
            final(self).emitted() == old(self).emitted() + (w2 - written),
    {
        let ghost w = self.wire_view();
        proof {
            self.lemma_emitted_bound();
            assert(out@.len() == out.len());
        }
        let c = crc_of(self.crc_type, self.payload.as_slice());
        self.crc = c;
        let _sent = Self::send_tx_internal(out, written, HDLC_FLAG_SEQUENCE);
        self.state = TxState::SendData;
        self.escape = false;
        proof {
            assert(self.body_view().take(0) =~= Seq::<u8>::empty());
            assert(w[0] == HDLC_FLAG_SEQUENCE);
            assert(out@.subrange(written as int, written + 1) =~= w.subrange(0, 1));
        }
        written + 1
    }

    /// Emit payload bytes: a maximal run of ordinary bytes as one chunk,
    /// or one half of an escape pair for a reserved byte.
    fn send_data(&mut self, out: &mut Vec<u8>, written: usize) -> (w2: usize)
        requires
            old(self).wf(),
            old(self).send_in_progress,
            old(self).state == TxState::SendData,
            written < old(out)@.len(),
        ensures
            final(self).wf(),
            final(self).send_in_progress,
            final(self).crc_type == old(self).crc_type,
            final(self).payload@ == old(self).payload@,
            final(self).reported@ == old(self).reported@,
            final(out)@.len() == old(out)@.len(),
            written < w2 <= old(out)@.len(),
            forall|j: int|
                0 <= j < old(out)@.len() && !(written <= j < w2) ==> final(out)@[j] == old(
                    out,
                )@[j],
            final(out)@.subrange(written as int, w2 as int) == old(self).wire_view().subrange(
                old(self).emitted(),
                old(self).emitted() + (w2 - written),
            ),
            final(self).emitted() == old(self).emitted() + (w2 - written),
    {
        let ghost w = self.wire_view();
        let ghost e0 = self.emitted();
        let ghost out1 = out@;
        proof {
            self.lemma_emitted_bound();
            assert(out@.len() == out.len());
            assert(out@.subrange(written as int, written as int) =~= w.subrange(e0, e0));
        }
        let n = self.payload.len();
        let b = self.payload[self.pos];
        let mut w2 = written;
        if b != HDLC_FLAG_SEQUENCE && b != HDLC_ESCAPE_CHAR {
            while w2 < out.len() && self.pos < n && self.payload[self.pos] != HDLC_FLAG_SEQUENCE
                && self.payload[self.pos] != HDLC_ESCAPE_CHAR
                invariant
                    0 <= e0,
                    e0 == old(self).emitted(),
                    w == old(self).wire_view(),
                    out1 == old(out)@,
                    self.send_in_progress,
                    self.state == TxState::SendData,
                    !self.escape,
                    self.crc_type == old(self).crc_type,
                    self.payload@ == old(self).payload@,
                    self.reported@ == old(self).reported@,
                    self.crc == old(self).crc,
                    self.crc_pos == old(self).crc_pos,
                    n == self.payload@.len(),
                    self.pos <= n,
                    written <= w2 <= out@.len(),
                    w2 == written ==> self.pos == old(self).pos,
                    out@.len() == out1.len(),
                    forall|j: int|
                        0 <= j < out1.len() && !(written <= j < w2) ==> out@[j] == out1[j],
                    e0 + (w2 - written) <= w.len(),
                    out@.subrange(written as int, w2 as int) == w.subrange(e0, e0 + (w2 - written)),
                    self.emitted() == e0 + (w2 - written),
                    w == self.wire_view(),
                decreases n - self.pos,
            {
                let bb = self.payload[self.pos];
                let ghost out_pre = out@;
                proof {
                    Self::lemma_wire_next(self.crc_type, self.payload@, self.pos as int);
                    assert(self.body_view()[self.pos as int] == self.payload@[self.pos as int]);
                }
                let _sent = Self::send_tx_internal(out, w2, bb);
                self.pos = self.pos + 1;
                w2 = w2 + 1;
                proof {
                    assert forall|k: int| 0 <= k < w2 - written implies #[trigger] out@[written
                        + k] == w[e0 + k] by {
                        if k < w2 - 1 - written {
                            assert(out@[written + k] == out_pre[written + k]);
                            assert(out_pre.subrange(written as int, w2 - 1)[k] == w.subrange(
                                e0,
                                e0 + (w2 - 1 - written),
                            )[k]);
                        } else {
                            assert(out@[written + k] == bb);
                        }
                    }
                    assert(out@.subrange(written as int, w2 as int) =~= w.subrange(
                        e0,
                        e0 + (w2 - written),
                    ));
                }
            }
            if self.pos == n {
                self.state = TxState::SendCrc;
            }
        } else {
            if !self.escape {
                proof {
                    Self::lemma_wire_next(self.crc_type, self.payload@, self.pos as int);
                    assert(self.body_view()[self.pos as int] == self.payload@[self.pos as int]);
                }
                let _sent = Self::send_tx_internal(out, written, HDLC_ESCAPE_CHAR);
                self.escape = true;
                w2 = written + 1;
                proof {
                    assert(out@.subrange(written as int, w2 as int) =~= w.subrange(e0, e0 + 1));
                }
            } else {
                proof {
                    Self::lemma_wire_next(self.crc_type, self.payload@, self.pos as int);
                    assert(self.body_view()[self.pos as int] == self.payload@[self.pos as int]);
                }
                let _sent = Self::send_tx_internal(out, written, b ^ HDLC_ESCAPE_BIT);
                self.escape = false;
                self.pos = self.pos + 1;
                w2 = written + 1;
                if self.pos == n {
                    self.state = TxState::SendCrc;
                }
                proof {
                    assert(out@.subrange(written as int, w2 as int) =~= w.subrange(e0, e0 + 1));
                }
            }
        }
        w2
    }

    /// Emit the checksum field, least-significant byte first, stuffed
    /// like payload bytes; once it is out, move on to the frame end.
    fn send_crc(&mut self, out: &mut Vec<u8>, written: usize) -> (w2: usize)
        requires
            old(self).wf(),
            old(self).send_in_progress,
            old(self).state == TxState::SendCrc,
            written < old(out)@.len(),
        ensures
            final(self).wf(),
            final(self).send_in_progress,
            final(self).crc_type == old(self).crc_type,
            final(self).payload@ == old(self).payload@,
            final(self).reported@ == old(self).reported@,
            final(out)@.len() == old(out)@.len(),
            written <= w2 <= old(out)@.len(),
            forall|j: int|
                0 <= j < old(out)@.len() && !(written <= j < w2) ==> final(out)@[j] == old(
                    out,
                )@[j],
            final(out)@.subrange(written as int, w2 as int) == old(self).wire_view().subrange(
                old(self).emitted(),
                old(self).emitted() + (w2 - written),
            ),
            final(self).emitted() == old(self).emitted() + (w2 - written),
            w2 == written ==> final(self).state == TxState::SendEnd,
    {
        let ghost w = self.wire_view();
        let ghost e0 = self.emitted();
        let ghost crcb = crc_le_bytes(self.crc_type, crc_value(self.crc_type, self.payload@));
        proof {
            self.lemma_emitted_bound();
            assert(out@.len() == out.len());
        }
        let size = get_crc_field_size(self.crc_type);
        if self.crc_pos == size {
            self.state = TxState::SendEnd;
            proof {
                assert(crcb.len() == crc_field_size_spec(self.crc_type));
                assert(self.units() == self.payload@.len() + self.crc_pos);
                assert(out@.subrange(written as int, written as int) =~= w.subrange(e0, e0));
            }
            return written;
        }
        let shift: u32 = 8 * (self.crc_pos as u32);
        let bv: u8 = ((self.crc >> shift) & 0xFF) as u8;
        let ghost u = self.payload@.len() + self.crc_pos;
        proof {
            assert(crcb[self.crc_pos as int] == bv);
            assert(self.body_view()[u] == crcb[self.crc_pos as int]);
            Self::lemma_wire_next(self.crc_type, self.payload@, u);
        }
        let w2: usize;
        if bv != HDLC_ESCAPE_CHAR && bv != HDLC_FLAG_SEQUENCE {
            let _sent = Self::send_tx_internal(out, written, bv);
            self.crc_pos = self.crc_pos + 1;
            w2 = written + 1;
            proof {
                assert(out@.subrange(written as int, w2 as int) =~= w.subrange(e0, e0 + 1));
            }
        } else {
            if !self.escape {
                let _sent = Self::send_tx_internal(out, written, HDLC_ESCAPE_CHAR);
                self.escape = true;
                w2 = written + 1;
            } else {
                let _sent = Self::send_tx_internal(out, written, bv ^ HDLC_ESCAPE_BIT);
                self.escape = false;
                self.crc_pos = self.crc_pos + 1;
                w2 = written + 1;
            }
            proof {
                assert(out@.subrange(written as int, w2 as int) =~= w.subrange(e0, e0 + 1));
            }
        }
        w2
    }

    /// Emit the trailing flag byte, return to idle and report the frame
    /// to the Frame Sent callback.
    fn send_end<P: TxProcessor>(&mut self, out: &mut Vec<u8>, written: usize, p: &mut P) -> (w2:
        usize)
        requires
            old(self).wf(),
            old(self).send_in_progress,
            old(self).state == TxState::SendEnd,
            written < old(out)@.len(),
        ensures
            final(self).wf(),
            !final(self).send_in_progress,
            final(self).state == TxState::SendStart,
            final(self).crc_type == old(self).crc_type,
            final(self).payload@ == old(self).payload@,
            final(self).reported@ == old(self).reported@ + seq![old(self).payload@],
            final(out)@.len() == old(out)@.len(),
            w2 == written + 1,
            forall|j: int|
                0 <= j < old(out)@.len() && !(written <= j < w2) ==> final(out)@[j] == old(
                    out,
                )@[j],
            final(out)@.subrange(written as int, w2 as int) == old(self).wire_view().subrange(
                old(self).emitted(),
                old(self).emitted() + 1,
            ),
            old(self).emitted() + 1 == old(self).wire_view().len(),
    {
        let ghost w = self.wire_view();
        let ghost e0 = self.emitted();
        proof {
            self.lemma_emitted_bound();
            assert(out@.len() == out.len());
            assert(self.body_view().take(self.body_view().len() as int) =~= self.body_view());
            assert(w[w.len() - 1] == HDLC_FLAG_SEQUENCE);
        }
        let _sent = Self::send_tx_internal(out, written, HDLC_FLAG_SEQUENCE);
        self.state = TxState::SendStart;
        self.send_in_progress = false;
        self.escape = false;
        p.on_frame_send(self.payload.as_slice());
        self.reported = Ghost(self.reported@.push(self.payload@));
        proof {
            assert(out@.subrange(written as int, written + 1) =~= w.subrange(e0, e0 + 1));
            assert(self.reported@ =~= old(self).reported@ + seq![old(self).payload@]);
        }
        written + 1
    }

    /// Drain the in-flight frame into `out`, overwriting it from index 0.
    ///
    /// Exactly the next wire bytes of the frame are written: as many as
    /// fit, until the frame is complete.  Because the bytes depend only
    /// on how far emission has progressed, draining into many small
    /// buffers reproduces byte for byte the stream a single large buffer
    /// would receive.
    pub fn run_tx<P: TxProcessor>(&mut self, out: &mut Vec<u8>, p: &mut P) -> (written: usize)
        requires
            old(self).wf(),
        ensures
            final(self).wf(),
            final(out)@.len() == old(out)@.len(),
            written <= old(out)@.len(),
            final(self).crc_type == old(self).crc_type,
            !old(self).send_in_progress ==> written == 0 && *final(self) == *old(self)
                && final(out)@ == old(out)@,
            old(self).send_in_progress ==> ({
                let w = old(self).wire_view();
                let e0 = old(self).emitted();
                &&& e0 + written <= w.len()
                &&& written == (if old(out)@.len() <= w.len() - e0 {
                    old(out)@.len() as int
                } else {
                    w.len() - e0
                })
                &&& final(out)@ == w.subrange(e0, e0 + written) + old(out)@.skip(written as int)
                &&& (e0 + written < w.len() ==> final(self).send_in_progress
                    && final(self).payload@ == old(self).payload@
                    && final(self).emitted() == e0 + written
                    && final(self).reported@ == old(self).reported@)
                &&& (e0 + written == w.len() ==> !final(self).send_in_progress
                    && final(self).reported@ == old(self).reported@ + seq![old(self).payload@])
            }),
    {
        if !self.send_in_progress {
            proof {
                assert(out@ =~= out@);
            }
            return 0;
        }
        let ghost w = self.wire_view();
        let ghost e0 = self.emitted();
        let ghost out0 = out@;
        let mut written: usize = 0;
        proof {
            self.lemma_emitted_bound();
            assert(out@ =~= w.subrange(e0, e0) + out0.skip(0));
        }
        while self.send_in_progress && written < out.len()
            invariant
                self.wf(),
                0 <= e0 <= w.len(),
                e0 == old(self).emitted(),
                w == old(self).wire_view(),
                out0 == old(out)@,
                out@.len() == out0.len(),
                written <= out0.len(),
                e0 + written <= w.len(),
                self.send_in_progress ==> {
                    &&& self.crc_type == old(self).crc_type
                    &&& self.payload@ == old(self).payload@
                    &&& self.wire_view() == w
                    &&& self.emitted() == e0 + written
                    &&& self.reported@ == old(self).reported@
                },
                !self.send_in_progress ==> e0 + written == w.len() && self.state
                    == TxState::SendStart && self.crc_type == old(self).crc_type
                    && self.reported@ == old(self).reported@ + seq![old(self).payload@],
                out@ == w.subrange(e0, e0 + written) + out0.skip(written as int),
            decreases out0.len() - written, tx_rank(self.state),
        {
            let prev = written;
            let ghost out_pre = out@;
            match self.state {
                TxState::SendStart => {
                    written = self.send_start(out, prev);
                }
                TxState::SendData => {
                    written = self.send_data(out, prev);
                }
                TxState::SendCrc => {
                    written = self.send_crc(out, prev);
                }
                TxState::SendEnd => {
                    written = self.send_end(out, prev, p);
                }
            }
            proof {
                if self.send_in_progress {
                    self.lemma_emitted_bound();
                    assert(e0 + written < w.len());
                } else {
                    assert(e0 + written == w.len());
                }
                assert forall|j: int| 0 <= j < out@.len() implies out@[j] == (w.subrange(
                    e0,
                    e0 + written,
                ) + out0.skip(written as int))[j] by {
                    if j < prev {
                        assert(out@[j] == out_pre[j]);
                        assert(out_pre[j] == (w.subrange(e0, e0 + prev) + out0.skip(
                            prev as int,
                        ))[j]);
                        assert(out@[j] == w[e0 + j]);
                    } else if j < written {
                        assert(out@.subrange(prev as int, written as int)[j - prev] == w.subrange(
                            e0 + prev,
                            e0 + written,
                        )[j - prev]);
                        assert(out@[j] == w[e0 + j]);
                    } else {
                        assert(out@[j] == out_pre[j]);
                        assert(out_pre[j] == (w.subrange(e0, e0 + prev) + out0.skip(
                            prev as int,
                        ))[j]);
                        assert(out_pre[j] == out0.skip(prev as int)[j - prev]);
                        assert(out@[j] == out0[j]);
                    }
                }
                assert(out@ =~= w.subrange(e0, e0 + written) + out0.skip(written as int));
            }
        }
        proof {
            if self.send_in_progress {
                self.lemma_emitted_bound();
            }
        }
        written
    }
}

/// Total of a schedule of output-buffer sizes.
pub open spec fn total_of(sizes: Seq<int>) -> int
    decreases sizes.len(),
{
    if sizes.len() == 0 {
        0
    } else {
        sizes[0] + total_of(sizes.skip(1))
    }
}

proof fn lemma_total_of_nonneg(sizes: Seq<int>)
    requires
        forall|i: int| 0 <= i < sizes.len() ==> sizes[i] >= 0,
    ensures
        total_of(sizes) >= 0,
    decreases sizes.len(),
{
    if sizes.len() > 0 {
        assert forall|i: int| 0 <= i < sizes.skip(1).len() implies sizes.skip(1)[i] >= 0 by {
            assert(sizes.skip(1)[i] == sizes[i + 1]);
        }
        lemma_total_of_nonneg(sizes.skip(1));
    }
}

/// The bytes a sequence of draining calls takes out of `w`, starting
/// at emission point `e`: each call writes the smaller of its buffer
/// size and what remains — exactly what the contract of [`Tx::run_tx`]
/// says one call does.
pub open spec fn drain_chunks(w: Seq<u8>, e: int, sizes: Seq<int>) -> Seq<u8>
    decreases sizes.len(),
{
    if sizes.len() == 0 {
        Seq::empty()
    } else {
        let k = if sizes[0] <= w.len() - e {
            sizes[0]
        } else {
            w.len() - e
        };
        w.subrange(e, e + k) + drain_chunks(w, e + k, sizes.skip(1))
    }
}

/// Partial-output invariance over whole schedules: draining through
/// any sequence of buffer sizes whose total covers what remains of the
/// wire form reproduces the remaining stream byte for byte — so every
/// schedule, however the buffers are sized, yields the same bytes.
pub proof fn lemma_drain_chunks_complete(w: Seq<u8>, e: int, sizes: Seq<int>)
    requires
        0 <= e <= w.len(),
        forall|i: int| 0 <= i < sizes.len() ==> sizes[i] >= 0,
        total_of(sizes) >= w.len() - e,
    ensures
        drain_chunks(w, e, sizes) == w.skip(e),
    decreases sizes.len(),
{
    if sizes.len() == 0 {
        assert(w.skip(e) =~= Seq::<u8>::empty());
    } else {
        let k = if sizes[0] <= w.len() - e {
            sizes[0]
        } else {
            w.len() - e
        };
        assert forall|i: int| 0 <= i < sizes.skip(1).len() implies sizes.skip(1)[i] >= 0 by {
            assert(sizes.skip(1)[i] == sizes[i + 1]);
        }
        lemma_total_of_nonneg(sizes.skip(1));
        lemma_drain_chunks_complete(w, e + k, sizes.skip(1));
        assert(w.subrange(e, e + k) + w.skip(e + k) =~= w.skip(e));
    }
}

/// Partial-output invariance: two successive drains take out
/// consecutive stretches of the frame's wire form, and those stretches
/// concatenate to the single stretch one larger drain would take out.
/// Together with the contract of [`Tx::run_tx`] — which says each call
/// writes exactly `wire` from the current emission point on, however
/// large the buffer — the encoded stream is byte for byte the same for
/// every choice of output buffer sizes.
pub proof fn lemma_partial_output_concat(t: HdlcCrcT, p: Seq<u8>, k1: int, k2: int, k3: int)
    requires
        0 <= k1 <= k2 <= k3 <= wire(t, p).len(),
    ensures
        wire(t, p).subrange(k1, k2) + wire(t, p).subrange(k2, k3) == wire(t, p).subrange(k1, k3),
{
    assert(wire(t, p).subrange(k1, k2) + wire(t, p).subrange(k2, k3) =~= wire(t, p).subrange(
        k1,
        k3,
    ));
}

} // verus!

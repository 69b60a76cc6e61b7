//! Receive side: a resumable state machine that scans a fragmented byte
//! stream, undoes the byte stuffing, verifies the checksum and hands
//! each completed payload to a Frame Sink callback.
//!
//! What one call of [`Rx::run_rx`] does is captured by the
//! specification fold [`rx_run`]: it walks the consumed bytes one at a
//! time, and stops ("halts") as soon as a closing flag byte has been
//! handled — after a delivered frame, a dropped frame, or an empty
//! frame.  The caller feeds the remaining bytes back in on its next
//! call, so chunk boundaries can never change what is decoded.

use vstd::prelude::*;

use crate::crc::HdlcCrcT;
use crate::crc::crc_field_size_spec;
use crate::crc::crc_value;
use crate::crc::crc_of;
use crate::crc::get_crc_field_size;
use crate::crc::le_word;
use crate::crc::crc_le_bytes;
use crate::crc::lemma_crc_le_roundtrip;
use crate::crc::lemma_crc_value_bound;
use crate::frame::HDLC_ESCAPE_BIT;
use crate::frame::HDLC_ESCAPE_CHAR;
use crate::frame::HDLC_FILL_BYTE;
use crate::frame::HDLC_FLAG_SEQUENCE;
use crate::frame::ResultT;
use crate::frame::frame_body;
use crate::frame::is_special;
use crate::frame::stuff;
use crate::frame::wire;

verus! {

/// Callback capability invoked once per successfully verified frame,
/// with the payload bytes (checksum field excluded).  The slice aliases
/// the receive ring buffer and is only valid for the duration of the
/// call.
pub trait RxProcessor {
    fn on_frame_read(&mut self, data: &[u8]);
}

/// Decode states of the receiver that persist between calls.  The
/// frame-end work consumes no input and always finishes within the call
/// that saw the closing flag, so it never persists.
#[derive(Clone, Copy)]
pub enum RxState {
    ReadStart,
    ReadData,
}

/// Abstract state of the receiver: scanning for a frame, or inside one
/// with the unstuffed bytes gathered so far and the escape-pending flag.
pub enum RxView {
    Scan,
    Frame { acc: Seq<u8>, esc: bool },
}

/// Outcome of feeding bytes to the receiver: how many were consumed,
/// the state left behind, at most one delivered payload, the status,
/// and whether the run stopped at a frame boundary.
pub struct RxRun {
    pub consumed: int,
    pub st: RxView,
    pub emit: Option<Seq<u8>>,
    pub err: ResultT,
    pub halted: bool,
}

/// What happens when the closing flag of a frame arrives and `acc`
/// holds the unstuffed bytes gathered for it.
///
/// An empty gathering is idle framing (back-to-back flags), not a
/// frame: scanning resumes inside the frame with nothing reported.  A
/// gathering beyond the slot capacity is dropped as `DataTooLarge`; one
/// shorter than the checksum field, or one whose checksum field does
/// not match the checksum of the rest, is dropped as `WrongCrc`;
/// otherwise the payload before the checksum field is delivered.
pub open spec fn rx_end(t: HdlcCrcT, cap: int, acc: Seq<u8>) -> RxRun {
    let size = crc_field_size_spec(t) as int;
    if acc.len() == 0 {
        RxRun {
            consumed: 1,
            st: RxView::Frame { acc: Seq::empty(), esc: false },
            emit: None,
            err: ResultT::Success,
            halted: true,
        }
    } else if acc.len() > cap {
        RxRun {
            consumed: 1,
            st: RxView::Scan,
            emit: None,
            err: ResultT::DataTooLarge,
            halted: true,
        }
    } else if acc.len() < size {
        RxRun { consumed: 1, st: RxView::Scan, emit: None, err: ResultT::WrongCrc, halted: true }
    } else if le_word(acc.skip(acc.len() - size), size as nat) != crc_value(
        t,
        acc.take(acc.len() - size),
    ) {
        RxRun { consumed: 1, st: RxView::Scan, emit: None, err: ResultT::WrongCrc, halted: true }
    } else {
        RxRun {
            consumed: 1,
            st: RxView::Scan,
            emit: Some(acc.take(acc.len() - size)),
            err: ResultT::Success,
            halted: true,
        }
    }
}

/// One call's worth of receiving: fold over the input bytes, stopping
/// at the first frame boundary (or when the input runs out).
pub open spec fn rx_run(t: HdlcCrcT, cap: int, st: RxView, input: Seq<u8>) -> RxRun
    decreases input.len(),
{
    if input.len() == 0 {
        RxRun { consumed: 0, st, emit: None, err: ResultT::Success, halted: false }
    } else {
        let b = input[0];
        match st {
            RxView::Scan => {
                let st2 = if b == HDLC_FLAG_SEQUENCE {
                    RxView::Frame { acc: Seq::empty(), esc: false }
                } else {
                    RxView::Scan
                };
                let r = rx_run(t, cap, st2, input.skip(1));
                RxRun { consumed: 1 + r.consumed, st: r.st, emit: r.emit, err: r.err, halted: r.halted }
            }
            RxView::Frame { acc, esc } => {
                if b == HDLC_FLAG_SEQUENCE {
                    rx_end(t, cap, acc)
                } else if b == HDLC_ESCAPE_CHAR {
                    let r = rx_run(t, cap, RxView::Frame { acc, esc: true }, input.skip(1));
                    RxRun {
                        consumed: 1 + r.consumed,
                        st: r.st,
                        emit: r.emit,
                        err: r.err,
                        halted: r.halted,
                    }
                } else {
                    let v = if esc {
                        b ^ HDLC_ESCAPE_BIT
                    } else {
                        b
                    };
                    let r = rx_run(
                        t,
                        cap,
                        RxView::Frame { acc: acc.push(v), esc: false },
                        input.skip(1),
                    );
                    RxRun {
                        consumed: 1 + r.consumed,
                        st: r.st,
                        emit: r.emit,
                        err: r.err,
                        halted: r.halted,
                    }
                }
            }
        }
    }
}

/// Receiver state machine.  Frames are reassembled into fixed-size
/// slots of a ring buffer; a completed slot is handed to the Frame Sink
/// and then reused once the ring wraps around.
pub struct Rx {
    /// Ring buffer the frames are reassembled into.
    pub rx_buf: Vec<u8>,
    pub crc_type: HdlcCrcT,
    /// Capacity of one frame slot: MTU plus checksum field size.
    pub phys_mtu: usize,
    pub state: RxState,
    /// Bytes stored into the current slot; never exceeds the capacity.
    pub cursor: usize,
    /// True once bytes of the current frame had to be dropped because
    /// the slot is full; the frame is rejected at its end.
    pub overflown: bool,
    /// True when an escape byte has been seen and the next byte must be
    /// XORed with the escape bit.
    pub escape: bool,
    /// Start of the current slot inside the ring buffer.
    pub slot_start: usize,
    /// The unstuffed bytes of the frame being gathered, including any
    /// that the slot had no room for.
    pub acc: Ghost<Seq<u8>>,
    /// Every payload delivered to the Frame Sink so far.
    pub frames: Ghost<Seq<Seq<u8>>>,
}

impl Rx {
    /// Abstract state of the receiver.
    pub open spec fn view_st(self) -> RxView {
        match self.state {
            RxState::ReadStart => RxView::Scan,
            RxState::ReadData => RxView::Frame { acc: self.acc@, esc: self.escape },
        }
    }

    /// Well-formedness between calls: the slot fits in the ring, and
    /// inside a frame the slot holds exactly the gathered bytes that
    /// fit.
    pub open spec fn wf(self) -> bool {
        &&& self.slot_start + self.phys_mtu <= self.rx_buf@.len()
        &&& match self.state {
            RxState::ReadStart => true,
            RxState::ReadData => {
                &&& (self.overflown <==> self.acc@.len() > self.phys_mtu)
                &&& (!self.overflown ==> self.cursor == self.acc@.len())
                &&& (self.overflown ==> self.cursor == self.phys_mtu)
                &&& self.cursor <= self.phys_mtu
                &&& self.rx_buf@.subrange(
                    self.slot_start as int,
                    self.slot_start + self.cursor,
                ) == self.acc@.take(self.cursor as int)
            },
        }
    }

    /// Build a receiver over a caller-supplied ring buffer.  An MTU of
    /// zero means the whole buffer is one slot; otherwise each slot
    /// holds MTU payload bytes plus the checksum field.
    pub fn new(buf: Vec<u8>, crc_type: HdlcCrcT, mtu: usize) -> (r: Rx)
        requires
            mtu > 0 ==> mtu + crc_field_size_spec(crc_type) <= buf@.len(),
        ensures
            r.wf(),
            r.view_st() == RxView::Scan,
            r.frames@ == Seq::<Seq<u8>>::empty(),
            r.crc_type == crc_type,
            r.rx_buf@ == buf@,
            mtu == 0 ==> r.phys_mtu == buf@.len(),
            mtu > 0 ==> r.phys_mtu == mtu + crc_field_size_spec(crc_type),
    {
        let cap = buf.len();
        let size = get_crc_field_size(crc_type);
        let phys: usize = if mtu == 0 {
            cap
        } else {
            mtu + size
        };
        Rx {
            rx_buf: buf,
            crc_type,
            phys_mtu: phys,
            state: RxState::ReadStart,
            cursor: 0,
            overflown: false,
            escape: false,
            slot_start: 0,
            acc: Ghost(Seq::empty()),
            frames: Ghost(Seq::empty()),
        }
    }

    /// Drop any partially gathered frame and scan for the next flag.
    /// The buffer, its contents and the delivery history are kept.
    pub fn reset(&mut self)
        requires
            old(self).wf(),
        ensures
            final(self).wf(),
            final(self).view_st() == RxView::Scan,
            final(self).crc_type == old(self).crc_type,
            final(self).phys_mtu == old(self).phys_mtu,
            final(self).rx_buf@ == old(self).rx_buf@,
            final(self).frames@ == old(self).frames@,
    {
        self.state = RxState::ReadStart;
        self.escape = false;
    }

    /// Frame-end work, entered when the closing flag of a frame has
    /// just been consumed.  Decides between idle framing, a dropped
    /// frame and a delivery, exactly as [`rx_end`] says; consumes no
    /// input itself.
    fn read_end<P: RxProcessor>(&mut self, p: &mut P) -> (e: ResultT)
        requires
            old(self).wf(),
            old(self).state == RxState::ReadData,
        ensures
            final(self).wf(),
            final(self).crc_type == old(self).crc_type,
            final(self).phys_mtu == old(self).phys_mtu,
            final(self).rx_buf@.len() == old(self).rx_buf@.len(),
            ({
                let r = rx_end(old(self).crc_type, old(self).phys_mtu as int, old(self).acc@);
                &&& final(self).view_st() == r.st
                &&& e == r.err
                &&& final(self).frames@ == old(self).frames@ + (match r.emit {
                    Option::Some(f) => seq![f],
                    Option::None => Seq::<Seq<u8>>::empty(),
                })
            }),
    {
        proof {
            assert(self.frames@ =~= self.frames@ + Seq::<Seq<u8>>::empty());
        }
        if self.cursor == 0 && !self.overflown {
            // Two adjacent flags: no frame was gathered at all.  Treat
            // it as idle framing and keep scanning frame data.
            self.escape = false;
            proof {
                assert(self.acc@ =~= Seq::<u8>::empty());
            }
            return ResultT::Success;
        }
        if self.overflown {
            self.state = RxState::ReadStart;
            return ResultT::DataTooLarge;
        }
        let size = get_crc_field_size(self.crc_type);
        if self.cursor < size {
            self.state = RxState::ReadStart;
            return ResultT::WrongCrc;
        }
        let plen = self.cursor - size;
        let bl0 = self.rx_buf.len();
        proof {
            assert(self.slot_start + self.cursor <= bl0);
            assert forall|k: int| 0 <= k < self.cursor implies self.rx_buf@[self.slot_start
                + k] == self.acc@[k] by {
                assert(self.rx_buf@.subrange(
                    self.slot_start as int,
                    self.slot_start + self.cursor,
                )[k] == self.acc@.take(self.cursor as int)[k]);
            }
            assert(self.rx_buf@.subrange(self.slot_start as int, self.slot_start + plen)
                =~= self.acc@.take(plen as int));
        }
        let calc = crc_of(
            self.crc_type,
            vstd::slice::slice_subrange(
                self.rx_buf.as_slice(),
                self.slot_start,
                self.slot_start + plen,
            ),
        );
        let mut rd: u32 = 0;
        let mut j: usize = 0;
        proof {
            assert(crc_field_size_spec(self.crc_type) <= 4);
        }
        while j < size
            invariant
                *self == *old(self),
                self.wf(),
                self.state == RxState::ReadData,
                !self.overflown,
                size == crc_field_size_spec(self.crc_type),
                size <= 4,
                size <= self.cursor,
                plen == self.cursor - size,
                j <= size,
                rd == le_word(self.acc@.skip(plen as int), j as nat),
            decreases size - j,
        {
            let bl1 = self.rx_buf.len();
            proof {
                assert(self.slot_start + self.cursor <= bl1);
            }
            let b = self.rx_buf[self.slot_start + plen + j];
            proof {
                assert(self.rx_buf@.subrange(
                    self.slot_start as int,
                    self.slot_start + self.cursor,
                )[plen + j] == self.acc@.take(self.cursor as int)[plen + j]);
                assert(self.acc@.skip(plen as int)[j as int] == self.acc@[plen + j]);
            }
            rd = rd | ((b as u32) << (8 * (j as u32)));
            j = j + 1;
        }
        if calc != rd {
            self.state = RxState::ReadStart;
            return ResultT::WrongCrc;
        }
        let frame = vstd::slice::slice_subrange(
            self.rx_buf.as_slice(),
            self.slot_start,
            self.slot_start + plen,
        );
        p.on_frame_read(frame);
        self.frames = Ghost(self.frames@.push(self.acc@.take(plen as int)));
        self.state = RxState::ReadStart;
        let bl = self.rx_buf.len();
        self.slot_start = self.slot_start + self.phys_mtu;
        if bl - self.phys_mtu < self.slot_start {
            self.slot_start = 0;
        }
        proof {
            assert(self.frames@ =~= old(self).frames@ + seq![
                old(self).acc@.take(plen as int),
            ]);
        }
        ResultT::Success
    }

    /// Consume a run of raw bytes.  Scans for frames, unstuffs their
    /// bytes into the current slot and verifies completed frames,
    /// behaving exactly as [`rx_run`] over the consumed prefix: the
    /// call stops early only right after a frame boundary, and the
    /// first non-success status is surfaced through `error` with no
    /// further input touched.
    pub fn run_rx<P: RxProcessor>(&mut self, data: &[u8], error: &mut ResultT, p: &mut P) -> (consumed: usize)
        requires
            old(self).wf(),
        ensures
            final(self).wf(),
            final(self).crc_type == old(self).crc_type,
            final(self).phys_mtu == old(self).phys_mtu,
            final(self).rx_buf@.len() == old(self).rx_buf@.len(),
            ({
                let r = rx_run(
                    old(self).crc_type,
                    old(self).phys_mtu as int,
                    old(self).view_st(),
                    data@,
                );
                &&& consumed == r.consumed
                &&& final(self).view_st() == r.st
                &&& *final(error) == r.err
                &&& final(self).frames@ == old(self).frames@ + (match r.emit {
                    Option::Some(f) => seq![f],
                    Option::None => Seq::<Seq<u8>>::empty(),
                })
            }),
    {
        *error = ResultT::Success;
        let ghost t = self.crc_type;
        let ghost cap = self.phys_mtu as int;
        let ghost r = rx_run(t, cap, self.view_st(), data@);
        let len = data.len();
        let mut i: usize = 0;
        proof {
            assert(data@.skip(0) =~= data@);
        }
        while i < len
            invariant
                self.wf(),
                len == data@.len(),
                i <= len,
                t == old(self).crc_type,
                cap == old(self).phys_mtu as int,
                r == rx_run(t, cap, old(self).view_st(), data@),
                self.crc_type == old(self).crc_type,
                self.phys_mtu == old(self).phys_mtu,
                self.rx_buf@.len() == old(self).rx_buf@.len(),
                self.frames@ == old(self).frames@,
                *error == ResultT::Success,
                ({
                    let rest = rx_run(t, cap, self.view_st(), data@.skip(i as int));
                    &&& r.consumed == i + rest.consumed
                    &&& r.st == rest.st
                    &&& r.emit == rest.emit
                    &&& r.err == rest.err
                    &&& r.halted == rest.halted
                }),
            decreases len - i,
        {
            let b = *vstd::slice::slice_index_get(data, i);
            proof {
                assert(data@.skip(i as int)[0] == data@[i as int]);
                assert(data@.skip(i as int).skip(1) =~= data@.skip(i + 1));
            }
            match self.state {
                RxState::ReadStart => {
                    if b == HDLC_FLAG_SEQUENCE {
                        self.state = RxState::ReadData;
                        self.escape = false;
                        self.cursor = 0;
                        self.overflown = false;
                        self.acc = Ghost(Seq::empty());
                        proof {
                            assert(self.rx_buf@.subrange(
                                self.slot_start as int,
                                self.slot_start as int,
                            ) =~= self.acc@.take(0));
                        }
                    }
                    i = i + 1;
                }
                RxState::ReadData => {
                    if b == HDLC_FLAG_SEQUENCE {
                        i = i + 1;
                        let e = self.read_end(p);
                        *error = e;
                        return i;
                    } else if b == HDLC_ESCAPE_CHAR {
                        self.escape = true;
                        i = i + 1;
                    } else {
                        let v = if self.escape {
                            b ^ HDLC_ESCAPE_BIT
                        } else {
                            b
                        };
                        let ghost buf_pre = self.rx_buf@;
                        let ghost acc_pre = self.acc@;
                        let ghost cur_pre = self.cursor as int;
                        proof {
                            assert forall|k: int| 0 <= k < cur_pre implies buf_pre[self.slot_start
                                + k] == acc_pre[k] by {
                                assert(buf_pre.subrange(
                                    self.slot_start as int,
                                    self.slot_start + cur_pre,
                                )[k] == acc_pre.take(cur_pre)[k]);
                            }
                        }
                        let bln = self.rx_buf.len();
                        proof {
                            assert(self.slot_start + self.phys_mtu <= bln);
                        }
                        if self.cursor < self.phys_mtu {
                            let idx = self.slot_start + self.cursor;
                            self.rx_buf.set(idx, v);
                            self.cursor = self.cursor + 1;
                        } else {
                            self.overflown = true;
                        }
                        self.escape = false;
                        self.acc = Ghost(self.acc@.push(v));
                        proof {
                            assert(self.rx_buf@.subrange(
                                self.slot_start as int,
                                self.slot_start + self.cursor,
                            ) =~= self.acc@.take(self.cursor as int));
                        }
                        i = i + 1;
                    }
                }
            }
        }
        proof {
            assert(data@.skip(len as int) =~= Seq::<u8>::empty());
            assert(self.frames@ =~= old(self).frames@ + Seq::<Seq<u8>>::empty());
        }
        i
    }

    /// Closing the receive side is a reset.
    pub fn close(&mut self)
        requires
            old(self).wf(),
        ensures
            final(self).wf(),
            final(self).view_st() == RxView::Scan,
            final(self).crc_type == old(self).crc_type,
            final(self).phys_mtu == old(self).phys_mtu,
            final(self).rx_buf@ == old(self).rx_buf@,
            final(self).frames@ == old(self).frames@,
    {
        self.reset();
    }
}

/// The frames delivered by one emission, as a sequence.
pub open spec fn emit_seq(e: Option<Seq<u8>>) -> Seq<Seq<u8>> {
    match e {
        Option::Some(f) => seq![f],
        Option::None => Seq::empty(),
    }
}

/// Bounds of one receiving run: it can stop early only at a frame
/// boundary, and consuming nothing means the input was empty.
pub proof fn lemma_rx_run_props(t: HdlcCrcT, cap: int, st: RxView, input: Seq<u8>)
    ensures
        ({
            let r = rx_run(t, cap, st, input);
            &&& 0 <= r.consumed <= input.len()
            &&& (!r.halted ==> r.consumed == input.len() && r.emit is None && r.err
                == ResultT::Success)
            &&& (input.len() > 0 ==> r.consumed >= 1)
        }),
    decreases input.len(),
{
    if input.len() > 0 {
        let b = input[0];
        match st {
            RxView::Scan => {
                let st2 = if b == HDLC_FLAG_SEQUENCE {
                    RxView::Frame { acc: Seq::empty(), esc: false }
                } else {
                    RxView::Scan
                };
                lemma_rx_run_props(t, cap, st2, input.skip(1));
            }
            RxView::Frame { acc, esc } => {
                if b == HDLC_FLAG_SEQUENCE {
                } else if b == HDLC_ESCAPE_CHAR {
                    lemma_rx_run_props(t, cap, RxView::Frame { acc, esc: true }, input.skip(1));
                } else {
                    let v = if esc {
                        b ^ HDLC_ESCAPE_BIT
                    } else {
                        b
                    };
                    lemma_rx_run_props(
                        t,
                        cap,
                        RxView::Frame { acc: acc.push(v), esc: false },
                        input.skip(1),
                    );
                }
            }
        }
    }
}

/// Idle filler tolerance: a scanning receiver consumes any stream of
/// FILL bytes whole, stays scanning, reports no error and delivers no
/// frame.
pub proof fn lemma_fill_bytes_ignored(t: HdlcCrcT, cap: int, input: Seq<u8>)
    requires
        forall|k: int| 0 <= k < input.len() ==> input[k] == HDLC_FILL_BYTE,
    ensures
        ({
            let r = rx_run(t, cap, RxView::Scan, input);
            &&& r.consumed == input.len()
            &&& r.st == RxView::Scan
            &&& r.emit is None
            &&& r.err == ResultT::Success
            &&& !r.halted
        }),
    decreases input.len(),
{
    if input.len() > 0 {
        assert(input[0] == HDLC_FILL_BYTE);
        assert forall|k: int| 0 <= k < input.skip(1).len() implies input.skip(1)[k]
            == HDLC_FILL_BYTE by {
            assert(input.skip(1)[k] == input[k + 1]);
        }
        lemma_fill_bytes_ignored(t, cap, input.skip(1));
    }
}

/// Extending the input cannot change what happens up to a halt: a run
/// that halted within `a` is unchanged by appending `b`, and a run that
/// drained `a` without halting continues into `b` from where it left
/// off.
pub proof fn lemma_rx_run_extend(t: HdlcCrcT, cap: int, st: RxView, a: Seq<u8>, b: Seq<u8>)
    ensures
        ({
            let ra = rx_run(t, cap, st, a);
            let rab = rx_run(t, cap, st, a + b);
            &&& (ra.halted ==> rab.consumed == ra.consumed && rab.st == ra.st && rab.emit
                == ra.emit && rab.err == ra.err && rab.halted)
            &&& (!ra.halted ==> ({
                let rb = rx_run(t, cap, ra.st, b);
                rab.consumed == a.len() + rb.consumed && rab.st == rb.st && rab.emit == rb.emit
                    && rab.err == rb.err && rab.halted == rb.halted
            }))
        }),
    decreases a.len(),
{
    if a.len() == 0 {
        assert(a + b =~= b);
    } else {
        assert((a + b)[0] == a[0]);
        assert((a + b).skip(1) =~= a.skip(1) + b);
        let c = a[0];
        match st {
            RxView::Scan => {
                let st2 = if c == HDLC_FLAG_SEQUENCE {
                    RxView::Frame { acc: Seq::empty(), esc: false }
                } else {
                    RxView::Scan
                };
                lemma_rx_run_extend(t, cap, st2, a.skip(1), b);
            }
            RxView::Frame { acc, esc } => {
                if c == HDLC_FLAG_SEQUENCE {
                } else if c == HDLC_ESCAPE_CHAR {
                    lemma_rx_run_extend(t, cap, RxView::Frame { acc, esc: true }, a.skip(1), b);
                } else {
                    let v = if esc {
                        c ^ HDLC_ESCAPE_BIT
                    } else {
                        c
                    };
                    lemma_rx_run_extend(
                        t,
                        cap,
                        RxView::Frame { acc: acc.push(v), esc: false },
                        a.skip(1),
                        b,
                    );
                }
            }
        }
    }
}

/// State and delivered frames after a whole stream has been pumped
/// through the receiver, calling [`rx_run`] again on the leftover of
/// each halt — exactly what a caller of `run_rx` does with the bytes a
/// call did not consume.
pub struct RxFeed {
    pub st: RxView,
    pub frames: Seq<Seq<u8>>,
}

pub open spec fn rx_feed(t: HdlcCrcT, cap: int, st: RxView, input: Seq<u8>) -> RxFeed
    decreases input.len(),
    via rx_feed_decreases
{
    if input.len() == 0 {
        RxFeed { st, frames: Seq::empty() }
    } else {
        let r = rx_run(t, cap, st, input);
        let rest = rx_feed(t, cap, r.st, input.skip(r.consumed));
        RxFeed { st: rest.st, frames: emit_seq(r.emit) + rest.frames }
    }
}

#[via_fn]
proof fn rx_feed_decreases(t: HdlcCrcT, cap: int, st: RxView, input: Seq<u8>) {
    if input.len() > 0 {
        lemma_rx_run_props(t, cap, st, input);
    }
}

/// Fragmentation invariance: feeding a stream in two chunks leaves the
/// receiver in the same state and delivers the same frames, in the same
/// order, as feeding it whole.
pub proof fn lemma_fragmentation_invariance(
    t: HdlcCrcT,
    cap: int,
    st: RxView,
    a: Seq<u8>,
    b: Seq<u8>,
)
    ensures
        ({
            let fa = rx_feed(t, cap, st, a);
            let fb = rx_feed(t, cap, fa.st, b);
            let fab = rx_feed(t, cap, st, a + b);
            &&& fab.st == fb.st
            &&& fab.frames == fa.frames + fb.frames
        }),
    decreases a.len(),
{
    let fa = rx_feed(t, cap, st, a);
    let fb = rx_feed(t, cap, fa.st, b);
    let fab = rx_feed(t, cap, st, a + b);
    if a.len() == 0 {
        assert(a + b =~= b);
        assert(fa.frames + fb.frames =~= fb.frames);
    } else {
        let ra = rx_run(t, cap, st, a);
        lemma_rx_run_props(t, cap, st, a);
        lemma_rx_run_extend(t, cap, st, a, b);
        if ra.halted {
            assert((a + b).skip(ra.consumed) =~= a.skip(ra.consumed) + b);
            lemma_fragmentation_invariance(t, cap, ra.st, a.skip(ra.consumed), b);
            let f1 = rx_feed(t, cap, ra.st, a.skip(ra.consumed));
            assert(emit_seq(ra.emit) + (f1.frames + fb.frames) =~= (emit_seq(ra.emit) + f1.frames)
                + fb.frames);
        } else {
            assert(a.skip(a.len() as int) =~= Seq::<u8>::empty());
            if b.len() == 0 {
                assert(a + b =~= a);
                assert(fa.frames + fb.frames =~= fa.frames);
            } else {
                let rb = rx_run(t, cap, ra.st, b);
                lemma_rx_run_props(t, cap, ra.st, b);
                assert((a + b).skip(a.len() + rb.consumed) =~= b.skip(rb.consumed));
                assert(fa.frames + fb.frames =~= fb.frames);
            }
        }
    }
}

/// Inside a frame, the stuffed form of any byte sequence is consumed
/// transparently: the receiver gathers exactly those bytes and neither
/// halts nor delivers while doing so.
pub proof fn lemma_stuffed_transparent(
    t: HdlcCrcT,
    cap: int,
    acc: Seq<u8>,
    s: Seq<u8>,
    rest: Seq<u8>,
)
    ensures
        ({
            let r2 = rx_run(t, cap, RxView::Frame { acc: acc + s, esc: false }, rest);
            let r = rx_run(t, cap, RxView::Frame { acc, esc: false }, stuff(s) + rest);
            &&& r.consumed == stuff(s).len() + r2.consumed
            &&& r.st == r2.st
            &&& r.emit == r2.emit
            &&& r.err == r2.err
            &&& r.halted == r2.halted
        }),
    decreases s.len(),
{
    // `direct` runs over the stuffed bytes; `gathered` starts past them.
    let direct = rx_run(t, cap, RxView::Frame { acc, esc: false }, stuff(s) + rest);
    let gathered = rx_run(t, cap, RxView::Frame { acc: acc + s, esc: false }, rest);
    if s.len() == 0 {
        assert(stuff(s) + rest =~= rest);
        assert(acc + s =~= acc);
        assert(direct.consumed == stuff(s).len() + gathered.consumed);
    } else {
        let c = s[0];
        let s1 = s.skip(1);
        if !is_special(c) {
            assert(stuff(s) + rest =~= seq![c] + (stuff(s1) + rest));
            assert((seq![c] + (stuff(s1) + rest))[0] == c);
            assert((seq![c] + (stuff(s1) + rest)).skip(1) =~= stuff(s1) + rest);
            lemma_stuffed_transparent(t, cap, acc.push(c), s1, rest);
            assert(acc.push(c) + s1 =~= acc + s);
            assert((stuff(s) + rest)[0] == c);
            assert(c != HDLC_FLAG_SEQUENCE && c != HDLC_ESCAPE_CHAR);
            assert((stuff(s) + rest).skip(1) == stuff(s1) + rest);
            assert(stuff(s).len() == 1 + stuff(s1).len());
            assert(direct.consumed == 1 + rx_run(
                t,
                cap,
                RxView::Frame { acc: acc.push(c), esc: false },
                stuff(s1) + rest,
            ).consumed);
            assert(rx_run(
                t,
                cap,
                RxView::Frame { acc: acc.push(c), esc: false },
                stuff(s1) + rest,
            ).consumed == stuff(s1).len() + rx_run(
                t,
                cap,
                RxView::Frame { acc: acc.push(c) + s1, esc: false },
                rest,
            ).consumed);
            assert(RxView::Frame { acc: acc.push(c) + s1, esc: false } == (RxView::Frame {
                acc: acc + s,
                esc: false,
            }));
            assert(rx_run(t, cap, RxView::Frame { acc: acc.push(c) + s1, esc: false }, rest)
                == rx_run(t, cap, RxView::Frame { acc: acc + s, esc: false }, rest));
            assert(direct.consumed == 1 + (stuff(s1).len() + gathered.consumed));
            assert(direct.consumed == stuff(s).len() + gathered.consumed);
        } else {
            let x = c ^ HDLC_ESCAPE_BIT;
            assert((c == 0x7Eu8 || c == 0x7Du8) ==> (c ^ 0x20u8) != 0x7Eu8 && (c ^ 0x20u8)
                != 0x7Du8 && ((c ^ 0x20u8) ^ 0x20u8) == c) by (bit_vector);
            assert(stuff(s) + rest =~= seq![HDLC_ESCAPE_CHAR] + (seq![x] + (stuff(s1) + rest)));
            assert((seq![HDLC_ESCAPE_CHAR] + (seq![x] + (stuff(s1) + rest)))[0]
                == HDLC_ESCAPE_CHAR);
            assert((seq![HDLC_ESCAPE_CHAR] + (seq![x] + (stuff(s1) + rest))).skip(1) =~= seq![x]
                + (stuff(s1) + rest));
            assert((seq![x] + (stuff(s1) + rest))[0] == x);
            assert((seq![x] + (stuff(s1) + rest)).skip(1) =~= stuff(s1) + rest);
            lemma_stuffed_transparent(t, cap, acc.push(c), s1, rest);
            assert(acc.push(c) + s1 =~= acc + s);
            assert(x ^ HDLC_ESCAPE_BIT == c);
            assert(x != HDLC_FLAG_SEQUENCE && x != HDLC_ESCAPE_CHAR);
            let mid = rx_run(t, cap, RxView::Frame { acc, esc: true }, seq![x] + (stuff(s1)
                + rest));
            assert(direct.consumed == 1 + mid.consumed && direct.st == mid.st && direct.emit == mid.emit
                && direct.err == mid.err && direct.halted == mid.halted);
            let aft = rx_run(t, cap, RxView::Frame { acc: acc.push(c), esc: false }, stuff(s1)
                + rest);
            assert(mid.consumed == 1 + aft.consumed && mid.st == aft.st && mid.emit == aft.emit
                && mid.err == aft.err && mid.halted == aft.halted);
            assert(rx_run(t, cap, RxView::Frame { acc: acc.push(c) + s1, esc: false }, rest)
                == rx_run(t, cap, RxView::Frame { acc: acc + s, esc: false }, rest));
            assert(aft.consumed == stuff(s1).len() + gathered.consumed);
            assert(stuff(s).len() == 2 + stuff(s1).len());
            assert(direct.consumed == stuff(s).len() + gathered.consumed);
        }
    }
}

/// Round trip: the full wire form of a payload, fed to a scanning
/// receiver with room for it, is consumed whole and delivers exactly
/// that payload, with no error, leaving the receiver scanning again.
/// The frame-end check accepts a body built by the transmitter's
/// rules and delivers exactly its payload.
proof fn lemma_body_end_delivers(t: HdlcCrcT, cap: int, p: Seq<u8>)
    requires
        0 < p.len(),
        p.len() + crc_field_size_spec(t) <= cap,
    ensures
        ({
            let r = rx_end(t, cap, frame_body(t, p));
            &&& r.st == RxView::Scan
            &&& r.emit == Some(p)
            &&& r.err == ResultT::Success
            &&& r.halted
            &&& r.consumed == 1
        }),
{
    let body = frame_body(t, p);
    let size = crc_field_size_spec(t) as int;
    assert(body.len() == p.len() + size);
    assert(body.take(body.len() - size) =~= p);
    assert(body.skip(body.len() - size) =~= crc_le_bytes(t, crc_value(t, p)));
    lemma_crc_value_bound(t, p);
    lemma_crc_le_roundtrip(t, crc_value(t, p));
}

/// A scanning receiver consumes the wire form of a frame from its
/// opening flag on; a receiver already sitting right after a flag —
/// where back-to-back flags leave it — consumes the opening flag as an
/// empty frame end first.  This lemma covers the data phase and the
/// delivery that both share.
proof fn lemma_body_phase_delivers(t: HdlcCrcT, cap: int, p: Seq<u8>)
    requires
        0 < p.len(),
        p.len() + crc_field_size_spec(t) <= cap,
    ensures
        ({
            let r = rx_run(
                t,
                cap,
                RxView::Frame { acc: Seq::empty(), esc: false },
                stuff(frame_body(t, p)) + seq![HDLC_FLAG_SEQUENCE],
            );
            &&& r.consumed == stuff(frame_body(t, p)).len() + 1
            &&& r.st == RxView::Scan
            &&& r.emit == Some(p)
            &&& r.err == ResultT::Success
            &&& r.halted
        }),
{
    let body = frame_body(t, p);
    lemma_stuffed_transparent(t, cap, Seq::empty(), body, seq![HDLC_FLAG_SEQUENCE]);
    assert(Seq::<u8>::empty() + body =~= body);
    assert(seq![HDLC_FLAG_SEQUENCE][0] == HDLC_FLAG_SEQUENCE);
    lemma_body_end_delivers(t, cap, p);
}

pub proof fn lemma_round_trip(t: HdlcCrcT, cap: int, p: Seq<u8>)
    requires
        0 < p.len(),
        p.len() + crc_field_size_spec(t) <= cap,
    ensures
        ({
            let r = rx_run(t, cap, RxView::Scan, wire(t, p));
            &&& r.consumed == wire(t, p).len()
            &&& r.st == RxView::Scan
            &&& r.emit == Some(p)
            &&& r.err == ResultT::Success
            &&& r.halted
        }),
{
    let body = frame_body(t, p);
    let w = wire(t, p);
    assert(w[0] == HDLC_FLAG_SEQUENCE);
    assert(w.skip(1) =~= stuff(body) + seq![HDLC_FLAG_SEQUENCE]);
    lemma_body_phase_delivers(t, cap, p);
    assert(w.len() == 2 + stuff(body).len());
}

/// Back-to-back flags are harmless: a receiver left right after a
/// closing flag (the state an empty FLAG-FLAG span leaves behind)
/// still decodes the next frame whole, delivering exactly its payload.
pub proof fn lemma_round_trip_after_idle_flags(t: HdlcCrcT, cap: int, p: Seq<u8>)
    requires
        0 < p.len(),
        p.len() + crc_field_size_spec(t) <= cap,
    ensures
        rx_feed(t, cap, RxView::Frame { acc: Seq::empty(), esc: false }, wire(t, p)).frames
            == seq![p],
        rx_feed(t, cap, RxView::Frame { acc: Seq::empty(), esc: false }, wire(t, p)).st
            == RxView::Scan,
{
    reveal_with_fuel(rx_feed, 4);
    let body = frame_body(t, p);
    let w = wire(t, p);
    let idle = RxView::Frame { acc: Seq::empty(), esc: false };
    // The opening flag is taken as an empty frame end: one byte
    // consumed, nothing delivered, the state unchanged.
    assert(w[0] == HDLC_FLAG_SEQUENCE);
    let r1 = rx_run(t, cap, idle, w);
    assert(r1.consumed == 1 && r1.st == idle && r1.emit is None && r1.err == ResultT::Success);
    // The pump then feeds the rest: the stuffed body and its closing
    // flag, which deliver the payload.
    assert(w.skip(1) =~= stuff(body) + seq![HDLC_FLAG_SEQUENCE]);
    lemma_body_phase_delivers(t, cap, p);
    let r2 = rx_run(t, cap, idle, w.skip(1));
    assert(w.skip(1).skip(r2.consumed) =~= Seq::<u8>::empty());
    assert(emit_seq(r1.emit) + (emit_seq(r2.emit) + Seq::<Seq<u8>>::empty()) =~= seq![p]);
}

/// Round trip through the caller's pump loop: driving the whole wire
/// form of a payload through the receiver — re-invoking it on whatever
/// a call leaves unconsumed — delivers exactly that payload and leaves
/// the receiver scanning.
pub proof fn lemma_round_trip_feed(t: HdlcCrcT, cap: int, p: Seq<u8>)
    requires
        0 < p.len(),
        p.len() + crc_field_size_spec(t) <= cap,
    ensures
        rx_feed(t, cap, RxView::Scan, wire(t, p)).frames == seq![p],
        rx_feed(t, cap, RxView::Scan, wire(t, p)).st == RxView::Scan,
{
    reveal_with_fuel(rx_feed, 3);
    let w = wire(t, p);
    lemma_round_trip(t, cap, p);
    let r = rx_run(t, cap, RxView::Scan, w);
    assert(w.skip(r.consumed) =~= Seq::<u8>::empty());
    assert(emit_seq(r.emit) + Seq::<Seq<u8>>::empty() =~= seq![p]);
}

/// A run of FILL bytes in front of any stream changes nothing: the
/// pump delivers the same frames and ends in the same state.  Together
/// with [`lemma_fragmentation_invariance`] and [`lemma_round_trip_feed`]
/// this peels any interleaving of idle filler and valid frames.
pub proof fn lemma_fill_prefix_ignored(t: HdlcCrcT, cap: int, f: Seq<u8>, rest: Seq<u8>)
    requires
        forall|k: int| 0 <= k < f.len() ==> f[k] == HDLC_FILL_BYTE,
    ensures
        rx_feed(t, cap, RxView::Scan, f + rest).frames == rx_feed(t, cap, RxView::Scan, rest).frames,
        rx_feed(t, cap, RxView::Scan, f + rest).st == rx_feed(t, cap, RxView::Scan, rest).st,
{
    reveal_with_fuel(rx_feed, 3);
    lemma_fill_bytes_ignored(t, cap, f);
    lemma_fragmentation_invariance(t, cap, RxView::Scan, f, rest);
    if f.len() > 0 {
        let r = rx_run(t, cap, RxView::Scan, f);
        assert(f.skip(r.consumed) =~= Seq::<u8>::empty());
    }
    assert(Seq::<Seq<u8>>::empty() + rx_feed(t, cap, RxView::Scan, rest).frames =~= rx_feed(
        t,
        cap,
        RxView::Scan,
        rest,
    ).frames);
}

/// Corruption is detected: replacing any one byte of a frame body's
/// checksum field with a different value makes the frame-end check
/// drop the frame with `WrongCrc` instead of delivering it.
pub proof fn lemma_checksum_flip_detected(t: HdlcCrcT, cap: int, p: Seq<u8>, j: int, v: u8)
    requires
        t != HdlcCrcT::HdlcCrcOff,
        p.len() + crc_field_size_spec(t) <= cap,
        0 <= j < crc_field_size_spec(t),
        v != crc_le_bytes(t, crc_value(t, p))[j],
    ensures
        ({
            let bad = frame_body(t, p).update(p.len() + j, v);
            let r = rx_end(t, cap, bad);
            &&& r.err == ResultT::WrongCrc
            &&& r.emit is None
            &&& r.st == RxView::Scan
        }),
{
    reveal_with_fuel(le_word, 5);
    let n = p.len() as int;
    let size = crc_field_size_spec(t) as int;
    let crcb = crc_le_bytes(t, crc_value(t, p));
    let bad = frame_body(t, p).update(n + j, v);
    let u = crcb.update(j, v);
    assert(bad.take(n) =~= p);
    assert(bad.skip(n) =~= u);
    lemma_crc_value_bound(t, p);
    lemma_crc_le_roundtrip(t, crc_value(t, p));
    match t {
        HdlcCrcT::HdlcCrcOff => {
        }
        HdlcCrcT::HdlcCrc8 => {
            let b0 = crcb[0];
            assert(le_word(u, 1) == 0u32 | ((v as u32) << 0));
            assert(le_word(crcb, 1) == 0u32 | ((b0 as u32) << 0));
            assert(v != b0 ==> (0u32 | ((v as u32) << 0)) != (0u32 | ((b0 as u32) << 0)))
                by (bit_vector);
        }
        HdlcCrcT::HdlcCrc16 => {
            let b0 = crcb[0];
            let b1 = crcb[1];
            let c0 = u[0];
            let c1 = u[1];
            assert(le_word(u, 2) == (0u32 | ((c0 as u32) << 0)) | ((c1 as u32) << 8));
            assert(le_word(crcb, 2) == (0u32 | ((b0 as u32) << 0)) | ((b1 as u32) << 8));
            assert((((0u32 | ((c0 as u32) << 0)) | ((c1 as u32) << 8)) == ((0u32 | ((b0 as u32)
                << 0)) | ((b1 as u32) << 8))) ==> (c0 == b0 && c1 == b1)) by (bit_vector);
        }
        HdlcCrcT::HdlcCrc32 => {
            let b0 = crcb[0];
            let b1 = crcb[1];
            let b2 = crcb[2];
            let b3 = crcb[3];
            let c0 = u[0];
            let c1 = u[1];
            let c2 = u[2];
            let c3 = u[3];
            assert(le_word(u, 4) == (((0u32 | ((c0 as u32) << 0)) | ((c1 as u32) << 8)) | ((c2
                as u32) << 16)) | ((c3 as u32) << 24));
            assert(le_word(crcb, 4) == (((0u32 | ((b0 as u32) << 0)) | ((b1 as u32) << 8)) | ((b2
                as u32) << 16)) | ((b3 as u32) << 24));
            assert(((((0u32 | ((c0 as u32) << 0)) | ((c1 as u32) << 8)) | ((c2 as u32) << 16)) | (
            (c3 as u32) << 24) == (((0u32 | ((b0 as u32) << 0)) | ((b1 as u32) << 8)) | ((b2
                as u32) << 16)) | ((b3 as u32) << 24)) ==> (c0 == b0 && c1 == b1 && c2 == b2 && c3
                == b3)) by (bit_vector);
        }
    }
}

} // verus!

//! Low-level HDLC-style framing.
//!
//! The crate turns arbitrary payloads into self-delimited, checksummed,
//! byte-stuffed frames, and recovers payloads from a possibly fragmented
//! incoming byte stream.  Both directions are resumable state machines
//! that accept input and output in chunks of any size.

use vstd::prelude::*;

pub mod crc;
pub mod frame;
pub mod rx;
pub mod tx;

use crate::crc::HdlcCrcT;
use crate::crc::crc_field_size_spec;
use crate::frame::ResultFlagsT;
use crate::frame::ResultT;
use crate::rx::Rx;
use crate::rx::RxView;
use crate::tx::Tx;
use crate::tx::TxProcessor;

verus! {

/// Full codec: one receiver and one transmitter sharing a checksum
/// mode.
pub struct Hdlc {
    pub rx: Rx,
    pub tx: Tx,
}

/// Construction parameters of a codec: the receive ring buffer, the
/// checksum mode of the link, and the MTU (0 meaning "one slot as large
/// as the whole buffer").
pub struct HdlcInitT {
    pub buf: Vec<u8>,
    pub crc_type: HdlcCrcT,
    pub mtu: usize,
}

impl Hdlc {
    pub fn new(init: HdlcInitT) -> (r: Hdlc)
        requires
            init.mtu > 0 ==> init.mtu + crc_field_size_spec(init.crc_type) <= init.buf@.len(),
        ensures
            r.rx.wf(),
            r.tx.wf(),
            r.rx.view_st() == RxView::Scan,
            r.rx.frames@ == Seq::<Seq<u8>>::empty(),
            r.tx.reported@ == Seq::<Seq<u8>>::empty(),
            !r.tx.send_in_progress,
            r.rx.crc_type == init.crc_type,
            r.tx.crc_type == init.crc_type,
            r.rx.rx_buf@ == init.buf@,
            init.mtu == 0 ==> r.rx.phys_mtu == init.buf@.len(),
            init.mtu > 0 ==> r.rx.phys_mtu == init.mtu + crc_field_size_spec(init.crc_type),
    {
        let HdlcInitT { buf, crc_type, mtu } = init;
        Hdlc { rx: Rx::new(buf, crc_type, mtu), tx: Tx::new(crc_type) }
    }

    /// Reset the receive side, the transmit side, or both.
    pub fn reset(&mut self, flags: ResultFlagsT)
        requires
            old(self).rx.wf(),
            old(self).tx.wf(),
        ensures
            final(self).rx.wf(),
            final(self).tx.wf(),
            flags != ResultFlagsT::ResetTxOnly ==> final(self).rx.view_st() == RxView::Scan
                && final(self).rx.frames@ == old(self).rx.frames@
                && final(self).rx.crc_type == old(self).rx.crc_type
                && final(self).rx.phys_mtu == old(self).rx.phys_mtu
                && final(self).rx.rx_buf@ == old(self).rx.rx_buf@,
            flags == ResultFlagsT::ResetTxOnly ==> final(self).rx == old(self).rx,
            flags != ResultFlagsT::HwlcLowLevelResetRxOnly ==> !final(self).tx.send_in_progress
                && final(self).tx.crc_type == old(self).tx.crc_type
                && final(self).tx.reported@ == old(self).tx.reported@,
            flags == ResultFlagsT::HwlcLowLevelResetRxOnly ==> final(self).tx == old(self).tx,
    {
        if !(flags == ResultFlagsT::ResetTxOnly) {
            self.rx.reset();
        }
        if !(flags == ResultFlagsT::HwlcLowLevelResetRxOnly) {
            self.tx.reset();
        }
    }

    /// Reset receive state; if a transmit was mid-flight, report what
    /// was sent so far to the Frame Sent callback (best-effort flush).
    pub fn close<P: TxProcessor>(&mut self, p: &mut P)
        requires
            old(self).rx.wf(),
            old(self).tx.wf(),
        ensures
            final(self).rx.wf(),
            final(self).tx.wf(),
            final(self).rx.view_st() == RxView::Scan,
            final(self).rx.frames@ == old(self).rx.frames@,
            final(self).rx.crc_type == old(self).rx.crc_type,
            final(self).rx.phys_mtu == old(self).rx.phys_mtu,
            final(self).rx.rx_buf@ == old(self).rx.rx_buf@,
            !old(self).tx.send_in_progress ==> final(self).tx == old(self).tx,
            old(self).tx.send_in_progress ==> final(self).tx.reported@ == old(self).tx.reported@
                + seq![old(self).tx.payload@.take(old(self).tx.pos as int)],
            final(self).tx == (Tx { reported: final(self).tx.reported, ..old(self).tx }),
    {
        self.rx.close();
        self.tx.close(p);
    }

    /// Submit a payload for transmission; `Busy` while one is in
    /// flight, a no-op success when the payload is empty.
    pub fn put(&mut self, data: &[u8]) -> (r: ResultT)
        requires
            old(self).tx.wf(),
        ensures
            final(self).rx == old(self).rx,
            final(self).tx.wf(),
            final(self).tx.crc_type == old(self).tx.crc_type,
            old(self).tx.send_in_progress ==> r == ResultT::Busy && *final(self) == *old(self),
            !old(self).tx.send_in_progress && data@.len() == 0 ==> r == ResultT::Success
                && *final(self) == *old(self),
            !old(self).tx.send_in_progress && data@.len() > 0 ==> {
                &&& r == ResultT::Success
                &&& final(self).tx.send_in_progress
                &&& final(self).tx.payload@ == data@
                &&& final(self).tx.emitted() == 0
                &&& final(self).tx.reported@ == old(self).tx.reported@
            },
    {
        self.tx.put(data)
    }
}

pub fn add(a: i32, b: i32) -> (r: i32)
    requires
        i32::MIN <= a + b <= i32::MAX,
    ensures
        r == a + b,
{
    a + b
}

pub fn sub(a: i32, b: i32) -> (r: i32)
    requires
        i32::MIN <= a - b <= i32::MAX,
    ensures
        r == a - b,
{
    a - b
}

} // verus!

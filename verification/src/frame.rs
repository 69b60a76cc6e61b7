//! Wire-level framing rules shared by the transmitter and the receiver.
//!
//! A frame travels as `FLAG body FLAG`, where the body is the payload
//! followed by the checksum field, byte-stuffed so that no FLAG byte ever
//! appears inside it: a reserved byte is replaced by ESCAPE followed by
//! the byte XORed with the escape bit.

use vstd::prelude::*;

use crate::crc::HdlcCrcT;
use crate::crc::crc_field_size_spec;
use crate::crc::crc_le_bytes;
use crate::crc::crc_value;

verus! {

/// Byte that fills the gap between frames on an idle line.
pub const HDLC_FILL_BYTE: u8 = 0xFF;

/// Stuffing marker: the next byte is XORed with the escape bit.
pub const HDLC_ESCAPE_CHAR: u8 = 0x7D;

/// XOR mask applied to an escaped byte.
pub const HDLC_ESCAPE_BIT: u8 = 0x20;

/// Frame delimiter; never appears literally inside a stuffed body.
pub const HDLC_FLAG_SEQUENCE: u8 = 0x7E;

/// Which sides of the codec a reset applies to.
#[derive(Clone, Copy, PartialEq, Eq, Structural)]
pub enum ResultFlagsT {
    ResetBoth,
    ResetTxOnly,
    HwlcLowLevelResetRxOnly,
}

/// Status surfaced by the codec's entry points.
#[derive(Clone, Copy, PartialEq, Eq, Structural, Debug)]
pub enum ResultT {
    Success,
    InvalidData,
    Error,
    Busy,
    DataTooLarge,
    WrongCrc,
}

/// A byte that must be escaped inside a frame body.
pub open spec fn is_special(b: u8) -> bool {
    b == HDLC_FLAG_SEQUENCE || b == HDLC_ESCAPE_CHAR
}

/// The wire form of one body byte: itself, or an escape pair.
pub open spec fn stuff_byte(b: u8) -> Seq<u8> {
    if is_special(b) {
        seq![HDLC_ESCAPE_CHAR, b ^ HDLC_ESCAPE_BIT]
    } else {
        seq![b]
    }
}

/// The wire form of a whole body: each byte stuffed in turn.
pub open spec fn stuff(s: Seq<u8>) -> Seq<u8>
    decreases s.len(),
{
    if s.len() == 0 {
        Seq::empty()
    } else {
        stuff_byte(s[0]) + stuff(s.skip(1))
    }
}

/// The body of a frame: the payload followed by its checksum field,
/// least-significant byte first.
pub open spec fn frame_body(t: HdlcCrcT, p: Seq<u8>) -> Seq<u8> {
    p + crc_le_bytes(t, crc_value(t, p))
}

/// Everything a frame puts on the wire: delimiter, stuffed body, delimiter.
pub open spec fn wire(t: HdlcCrcT, p: Seq<u8>) -> Seq<u8> {
    seq![HDLC_FLAG_SEQUENCE] + stuff(frame_body(t, p)) + seq![HDLC_FLAG_SEQUENCE]
}

/// Stuffing distributes over concatenation.
pub proof fn lemma_stuff_append(a: Seq<u8>, b: Seq<u8>)
    ensures
        stuff(a + b) == stuff(a) + stuff(b),
    decreases a.len(),
{
    if a.len() == 0 {
        assert(a + b =~= b);
        assert(stuff(a) + stuff(b) =~= stuff(b));
    } else {
        assert((a + b).skip(1) =~= a.skip(1) + b);
        lemma_stuff_append(a.skip(1), b);
        assert(stuff(a + b) =~= stuff(a) + stuff(b));
    }
}

/// Stuffing one more byte extends the stuffed prefix.
pub proof fn lemma_stuff_push(s: Seq<u8>, b: u8)
    ensures
        stuff(s.push(b)) == stuff(s) + stuff_byte(b),
{
    reveal_with_fuel(stuff, 3);
    assert(s.push(b) =~= s + seq![b]);
    lemma_stuff_append(s, seq![b]);
    assert(seq![b].skip(1) =~= Seq::<u8>::empty());
    assert(stuff(seq![b]) =~= stuff_byte(b));
    assert(stuff(s.push(b)) =~= stuff(s) + stuff_byte(b));
}

/// A body splits, at any position, into a stuffed prefix, the wire form
/// of the byte at that position, and a stuffed suffix.
pub proof fn lemma_stuff_split(s: Seq<u8>, i: int)
    requires
        0 <= i < s.len(),
    ensures
        stuff(s) == stuff(s.take(i)) + stuff_byte(s[i]) + stuff(s.skip(i + 1)),
{
    reveal_with_fuel(stuff, 3);
    assert(s =~= s.take(i) + (seq![s[i]] + s.skip(i + 1)));
    assert(seq![s[i]].skip(1) =~= Seq::<u8>::empty());
    lemma_stuff_append(s.take(i), seq![s[i]] + s.skip(i + 1));
    lemma_stuff_append(seq![s[i]], s.skip(i + 1));
    assert(stuff(seq![s[i]]) =~= stuff_byte(s[i]));
    assert(stuff(s) =~= stuff(s.take(i)) + stuff_byte(s[i]) + stuff(s.skip(i + 1)));
}

} // verus!

//! Checksum support for the framing layer.
//!
//! Three classic CRC widths are offered next to a mode with no checksum
//! field at all.  Each width is defined by a bit-level specification
//! function, and the executable computation is proved to match it.

use vstd::prelude::*;

verus! {

/// Checksum mode of a link.  Both ends of a link must be configured with
/// the same mode: it fixes the checksum algorithm and the width of the
/// trailing checksum field of every frame.
#[derive(Clone, Copy, PartialEq, Eq, Structural, Debug)]
pub enum HdlcCrcT {
    HdlcCrcOff,
    HdlcCrc8,
    HdlcCrc16,
    HdlcCrc32,
}

/// Width in bytes of the checksum field a mode appends to a frame.
pub open spec fn crc_field_size_spec(t: HdlcCrcT) -> nat {
    match t {
        HdlcCrcT::HdlcCrcOff => 0,
        HdlcCrcT::HdlcCrc8 => 1,
        HdlcCrcT::HdlcCrc16 => 2,
        HdlcCrcT::HdlcCrc32 => 4,
    }
}

pub fn get_crc_field_size(t: HdlcCrcT) -> (r: usize)
    ensures
        r == crc_field_size_spec(t),
{
    match t {
        HdlcCrcT::HdlcCrcOff => 0,
        HdlcCrcT::HdlcCrc8 => 1,
        HdlcCrcT::HdlcCrc16 => 2,
        HdlcCrcT::HdlcCrc32 => 4,
    }
}

// CRC-8, polynomial 0x07, initial value 0, most-significant bit first.

pub open spec fn crc8_bit(c: u8) -> u8 {
    if c & 0x80 != 0 {
        (c << 1) ^ 0x07
    } else {
        c << 1
    }
}

pub open spec fn crc8_bits(c: u8, k: nat) -> u8
    decreases k,
{
    if k == 0 {
        c
    } else {
        crc8_bit(crc8_bits(c, (k - 1) as nat))
    }
}

pub open spec fn crc8_byte(c: u8, b: u8) -> u8 {
    crc8_bits(c ^ b, 8)
}

pub open spec fn crc8_seq(s: Seq<u8>) -> u8
    decreases s.len(),
{
    if s.len() == 0 {
        0
    } else {
        crc8_byte(crc8_seq(s.drop_last()), s.last())
    }
}

// CRC-16/CCITT-FALSE, polynomial 0x1021, initial value 0xFFFF,
// most-significant bit first.

pub open spec fn crc16_bit(c: u16) -> u16 {
    if c & 0x8000 != 0 {
        (c << 1) ^ 0x1021
    } else {
        c << 1
    }
}

pub open spec fn crc16_bits(c: u16, k: nat) -> u16
    decreases k,
{
    if k == 0 {
        c
    } else {
        crc16_bit(crc16_bits(c, (k - 1) as nat))
    }
}

pub open spec fn crc16_byte(c: u16, b: u8) -> u16 {
    crc16_bits(c ^ ((b as u16) << 8), 8)
}

pub open spec fn crc16_seq(s: Seq<u8>) -> u16
    decreases s.len(),
{
    if s.len() == 0 {
        0xFFFF
    } else {
        crc16_byte(crc16_seq(s.drop_last()), s.last())
    }
}

// CRC-32, reflected polynomial 0xEDB88320, initial value 0xFFFFFFFF,
// output complemented.

pub open spec fn crc32_bit(c: u32) -> u32 {
    if c & 1 != 0 {
        (c >> 1) ^ 0xEDB88320
    } else {
        c >> 1
    }
}

pub open spec fn crc32_bits(c: u32, k: nat) -> u32
    decreases k,
{
    if k == 0 {
        c
    } else {
        crc32_bit(crc32_bits(c, (k - 1) as nat))
    }
}

pub open spec fn crc32_byte(c: u32, b: u8) -> u32 {
    crc32_bits(c ^ (b as u32), 8)
}

pub open spec fn crc32_seq(s: Seq<u8>) -> u32
    decreases s.len(),
{
    if s.len() == 0 {
        0xFFFFFFFF
    } else {
        crc32_byte(crc32_seq(s.drop_last()), s.last())
    }
}

/// The checksum a mode computes over a byte sequence, widened to `u32`.
pub open spec fn crc_value(t: HdlcCrcT, s: Seq<u8>) -> u32 {
    match t {
        HdlcCrcT::HdlcCrcOff => 0,
        HdlcCrcT::HdlcCrc8 => crc8_seq(s) as u32,
        HdlcCrcT::HdlcCrc16 => crc16_seq(s) as u32,
        HdlcCrcT::HdlcCrc32 => crc32_seq(s) ^ 0xFFFFFFFF,
    }
}

/// Every checksum value fits in its own field width.
pub proof fn lemma_crc_value_bound(t: HdlcCrcT, s: Seq<u8>)
    ensures
        t == HdlcCrcT::HdlcCrcOff ==> crc_value(t, s) == 0,
        t == HdlcCrcT::HdlcCrc8 ==> crc_value(t, s) < 0x100,
        t == HdlcCrcT::HdlcCrc16 ==> crc_value(t, s) < 0x10000,
{
}

/// The checksum field on the wire: the checksum value laid out
/// least-significant byte first.
pub open spec fn crc_le_bytes(t: HdlcCrcT, v: u32) -> Seq<u8> {
    Seq::new(crc_field_size_spec(t), |j: int| ((v >> (8 * j) as u32) & 0xFF) as u8)
}

/// A little-endian word read back from the first `n` bytes of `s`.
pub open spec fn le_word(s: Seq<u8>, n: nat) -> u32
    decreases n,
{
    if n == 0 {
        0
    } else {
        le_word(s, (n - 1) as nat) | ((s[n - 1] as u32) << (8 * (n - 1)) as u32)
    }
}

/// Reading the checksum field back gives the value it was built from.
pub proof fn lemma_crc_le_roundtrip(t: HdlcCrcT, v: u32)
    requires
        t == HdlcCrcT::HdlcCrcOff ==> v == 0,
        t == HdlcCrcT::HdlcCrc8 ==> v < 0x100,
        t == HdlcCrcT::HdlcCrc16 ==> v < 0x10000,
    ensures
        le_word(crc_le_bytes(t, v), crc_field_size_spec(t)) == v,
{
    reveal_with_fuel(le_word, 5);
    let s = crc_le_bytes(t, v);
    match t {
        HdlcCrcT::HdlcCrcOff => {
        }
        HdlcCrcT::HdlcCrc8 => {
            assert(le_word(s, 1) == 0u32 | ((((v >> 0) & 0xFF) as u8 as u32) << 0));
            assert(v < 0x100 ==> (0u32 | ((((v >> 0) & 0xFF) as u8 as u32) << 0)) == v)
                by (bit_vector);
        }
        HdlcCrcT::HdlcCrc16 => {
            assert(le_word(s, 2) == (0u32 | ((((v >> 0) & 0xFF) as u8 as u32) << 0)) | ((((v >> 8)
                & 0xFF) as u8 as u32) << 8));
            assert(v < 0x10000 ==> ((0u32 | ((((v >> 0) & 0xFF) as u8 as u32) << 0)) | ((((v >> 8)
                & 0xFF) as u8 as u32) << 8)) == v) by (bit_vector);
        }
        HdlcCrcT::HdlcCrc32 => {
            assert(le_word(s, 4) == (((0u32 | ((((v >> 0) & 0xFF) as u8 as u32) << 0)) | ((((v
                >> 8) & 0xFF) as u8 as u32) << 8)) | ((((v >> 16) & 0xFF) as u8 as u32) << 16)) | (
            (((v >> 24) & 0xFF) as u8 as u32) << 24));
            assert(((((0u32 | ((((v >> 0) & 0xFF) as u8 as u32) << 0)) | ((((v >> 8) & 0xFF) as u8
                as u32) << 8)) | ((((v >> 16) & 0xFF) as u8 as u32) << 16)) | ((((v >> 24) & 0xFF)
                as u8 as u32) << 24)) == v) by (bit_vector);
        }
    }
}

fn crc8_update(c: u8, b: u8) -> (r: u8)
    ensures
        r == crc8_byte(c, b),
{
    let mut x: u8 = c ^ b;
    let mut k: usize = 0;
    while k < 8
        invariant
            k <= 8,
            x == crc8_bits(c ^ b, k as nat),
        decreases 8 - k,
    {
        x = if x & 0x80 != 0 {
            (x << 1) ^ 0x07
        } else {
            x << 1
        };
        k = k + 1;
    }
    x
}

fn crc16_update(c: u16, b: u8) -> (r: u16)
    ensures
        r == crc16_byte(c, b),
{
    let mut x: u16 = c ^ ((b as u16) << 8);
    let mut k: usize = 0;
    while k < 8
        invariant
            k <= 8,
            x == crc16_bits(c ^ ((b as u16) << 8), k as nat),
        decreases 8 - k,
    {
        x = if x & 0x8000 != 0 {
            (x << 1) ^ 0x1021
        } else {
            x << 1
        };
        k = k + 1;
    }
    x
}

fn crc32_update(c: u32, b: u8) -> (r: u32)
    ensures
        r == crc32_byte(c, b),
{
    let mut x: u32 = c ^ (b as u32);
    let mut k: usize = 0;
    while k < 8
        invariant
            k <= 8,
            x == crc32_bits(c ^ (b as u32), k as nat),
        decreases 8 - k,
    {
        x = if x & 1 != 0 {
            (x >> 1) ^ 0xEDB88320
        } else {
            x >> 1
        };
        k = k + 1;
    }
    x
}

/// Compute the checksum of a mode over a byte slice.
pub fn crc_of(t: HdlcCrcT, s: &[u8]) -> (r: u32)
    ensures
        r == crc_value(t, s@),
{
    match t {
        HdlcCrcT::HdlcCrcOff => 0,
        HdlcCrcT::HdlcCrc8 => {
            let mut c: u8 = 0;
            let mut i: usize = 0;
            while i < s.len()
                invariant
                    i <= s@.len(),
                    c == crc8_seq(s@.take(i as int)),
                decreases s@.len() - i,
            {
                let b = *vstd::slice::slice_index_get(s, i);
                c = crc8_update(c, b);
                proof {
                    assert(s@.take(i + 1).drop_last() =~= s@.take(i as int));
                    assert(s@.take(i + 1).last() == s@[i as int]);
                }
                i = i + 1;
            }
            proof {
                assert(s@.take(s@.len() as int) =~= s@);
            }
            c as u32
        }
        HdlcCrcT::HdlcCrc16 => {
            let mut c: u16 = 0xFFFF;
            let mut i: usize = 0;
            while i < s.len()
                invariant
                    i <= s@.len(),
                    c == crc16_seq(s@.take(i as int)),
                decreases s@.len() - i,
            {
                let b = *vstd::slice::slice_index_get(s, i);
                c = crc16_update(c, b);
                proof {
                    assert(s@.take(i + 1).drop_last() =~= s@.take(i as int));
                    assert(s@.take(i + 1).last() == s@[i as int]);
                }
                i = i + 1;
            }
            proof {
                assert(s@.take(s@.len() as int) =~= s@);
            }
            c as u32
        }
        HdlcCrcT::HdlcCrc32 => {
            let mut c: u32 = 0xFFFFFFFF;
            let mut i: usize = 0;
            while i < s.len()
                invariant
                    i <= s@.len(),
                    c == crc32_seq(s@.take(i as int)),
                decreases s@.len() - i,
            {
                let b = *vstd::slice::slice_index_get(s, i);
                c = crc32_update(c, b);
                proof {
                    assert(s@.take(i + 1).drop_last() =~= s@.take(i as int));
                    assert(s@.take(i + 1).last() == s@[i as int]);
                }
                i = i + 1;
            }
            proof {
                assert(s@.take(s@.len() as int) =~= s@);
            }
            c ^ 0xFFFFFFFF
        }
    }
}

} // verus!

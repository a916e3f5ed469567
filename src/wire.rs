//! Little-endian integers and length-coded binary integers as they appear on
//! the wire, read from and written to byte buffers.

use vstd::prelude::*;
use crate::error::CdcError;

verus! {

/// Two bytes at `i`, least significant first.
pub open spec fn u16_le(b: Seq<u8>, i: int) -> u16 {
    (b[i] as u16) | ((b[i + 1] as u16) << 8u16)
}

/// Three bytes at `i`, least significant first.
pub open spec fn u24_le(b: Seq<u8>, i: int) -> u32 {
    (b[i] as u32) | ((b[i + 1] as u32) << 8u32) | ((b[i + 2] as u32) << 16u32)
}

/// Four bytes at `i`, least significant first.
pub open spec fn u32_le(b: Seq<u8>, i: int) -> u32 {
    (b[i] as u32) | ((b[i + 1] as u32) << 8u32) | ((b[i + 2] as u32) << 16u32) | ((b[i + 3] as u32)
        << 24u32)
}

/// Six bytes at `i`, least significant first.
pub open spec fn u48_le(b: Seq<u8>, i: int) -> u64 {
    (u32_le(b, i) as u64) | ((u16_le(b, i + 4) as u64) << 32u64)
}

/// Eight bytes at `i`, least significant first.
pub open spec fn u64_le(b: Seq<u8>, i: int) -> u64 {
    (u32_le(b, i) as u64) | ((u32_le(b, i + 4) as u64) << 32u64)
}

/// The two bytes of `x`, least significant first.
pub open spec fn u16_bytes(x: u16) -> Seq<u8> {
    seq![x as u8, (x >> 8u16) as u8]
}

/// The three low bytes of `x`, least significant first.
pub open spec fn u24_bytes(x: u32) -> Seq<u8> {
    seq![x as u8, (x >> 8u32) as u8, (x >> 16u32) as u8]
}

/// The four bytes of `x`, least significant first.
pub open spec fn u32_bytes(x: u32) -> Seq<u8> {
    seq![x as u8, (x >> 8u32) as u8, (x >> 16u32) as u8, (x >> 24u32) as u8]
}

/// Reading back two written bytes gives the value.
pub proof fn lemma_u16_round_trip(x: u16)
    ensures
        u16_le(u16_bytes(x), 0) == x,
{
    let b0 = x as u8;
    let b1 = (x >> 8u16) as u8;
    assert(((b0 as u16) | ((b1 as u16) << 8u16)) == x) by (bit_vector)
        requires
            b0 == x as u8,
            b1 == (x >> 8u16) as u8,
    ;
}

/// Reading back four written bytes gives the value.
pub proof fn lemma_u32_round_trip(x: u32)
    ensures
        u32_le(u32_bytes(x), 0) == x,
{
    let b0 = x as u8;
    let b1 = (x >> 8u32) as u8;
    let b2 = (x >> 16u32) as u8;
    let b3 = (x >> 24u32) as u8;
    assert(((b0 as u32) | ((b1 as u32) << 8u32) | ((b2 as u32) << 16u32) | ((b3 as u32) << 24u32))
        == x) by (bit_vector)
        requires
            b0 == x as u8,
            b1 == (x >> 8u32) as u8,
            b2 == (x >> 16u32) as u8,
            b3 == (x >> 24u32) as u8,
    ;
}

pub fn read_u16_le(b: &[u8], i: usize) -> (r: u16)
    requires
        i + 2 <= b@.len(),
    ensures
        r == u16_le(b@, i as int),
{
    (b[i] as u16) | ((b[i + 1] as u16) << 8u16)
}

pub fn read_u24_le(b: &[u8], i: usize) -> (r: u32)
    requires
        i + 3 <= b@.len(),
    ensures
        r == u24_le(b@, i as int),
{
    (b[i] as u32) | ((b[i + 1] as u32) << 8u32) | ((b[i + 2] as u32) << 16u32)
}

pub fn read_u32_le(b: &[u8], i: usize) -> (r: u32)
    requires
        i + 4 <= b@.len(),
    ensures
        r == u32_le(b@, i as int),
{
    (b[i] as u32) | ((b[i + 1] as u32) << 8u32) | ((b[i + 2] as u32) << 16u32) | ((b[i + 3] as u32)
        << 24u32)
}

pub fn read_u48_le(b: &[u8], i: usize) -> (r: u64)
    requires
        i + 6 <= b@.len(),
    ensures
        r == u48_le(b@, i as int),
{
    let _n = b.len();
    let lo = read_u32_le(b, i);
    let hi = read_u16_le(b, i + 4);
    (lo as u64) | ((hi as u64) << 32u64)
}

pub fn read_u64_le(b: &[u8], i: usize) -> (r: u64)
    requires
        i + 8 <= b@.len(),
    ensures
        r == u64_le(b@, i as int),
{
    let _n = b.len();
    let lo = read_u32_le(b, i);
    let hi = read_u32_le(b, i + 4);
    (lo as u64) | ((hi as u64) << 32u64)
}

pub fn push_u16_le(buf: &mut Vec<u8>, x: u16)
    ensures
        final(buf)@ == old(buf)@ + u16_bytes(x),
{
    buf.push(x as u8);
    buf.push((x >> 8u16) as u8);
    assert(final(buf)@ =~= old(buf)@ + u16_bytes(x));
}

pub fn push_u24_le(buf: &mut Vec<u8>, x: u32)
    ensures
        final(buf)@ == old(buf)@ + u24_bytes(x),
{
    buf.push(x as u8);
    buf.push((x >> 8u32) as u8);
    buf.push((x >> 16u32) as u8);
    assert(final(buf)@ =~= old(buf)@ + u24_bytes(x));
}

pub fn push_u32_le(buf: &mut Vec<u8>, x: u32)
    ensures
        final(buf)@ == old(buf)@ + u32_bytes(x),
{
    buf.push(x as u8);
    buf.push((x >> 8u32) as u8);
    buf.push((x >> 16u32) as u8);
    buf.push((x >> 24u32) as u8);
    assert(final(buf)@ =~= old(buf)@ + u32_bytes(x));
}

/// Appends every byte of `src`.
pub fn push_all(buf: &mut Vec<u8>, src: &[u8])
    ensures
        final(buf)@ == old(buf)@ + src@,
{
    let mut i: usize = 0;
    while i < src.len()
        invariant
            i <= src@.len(),
            buf@ == old(buf)@ + src@.subrange(0, i as int),
        decreases src@.len() - i,
    {
        buf.push(src[i]);
        i = i + 1;
        assert(buf@ =~= old(buf)@ + src@.subrange(0, i as int));
    }
    assert(src@.subrange(0, src@.len() as int) =~= src@);
}

/// The length-coded binary integer at `i`: its value and the position after
/// it, or `None` when the lead byte is `0xFF` or the bytes run out.
/// A lead byte `0xFB` (SQL NULL) reads as zero.
pub open spec fn lcb_spec(b: Seq<u8>, i: int) -> Option<(u64, int)> {
    if i < 0 || i >= b.len() {
        None
    } else {
        let lead = b[i];
        if lead <= 0xFA {
            Some((lead as u64, i + 1))
        } else if lead == 0xFB {
            Some((0, i + 1))
        } else if lead == 0xFC {
            if i + 3 <= b.len() {
                Some((u16_le(b, i + 1) as u64, i + 3))
            } else {
                None
            }
        } else if lead == 0xFD {
            if i + 4 <= b.len() {
                Some((u24_le(b, i + 1) as u64, i + 4))
            } else {
                None
            }
        } else if lead == 0xFE {
            if i + 9 <= b.len() {
                Some((u64_le(b, i + 1), i + 9))
            } else {
                None
            }
        } else {
            None
        }
    }
}

/// Reads a length-coded binary integer at `i`.
pub fn read_lcb(b: &[u8], i: usize) -> (r: Result<(u64, usize), CdcError>)
    ensures
        match lcb_spec(b@, i as int) {
            Some((v, n)) => r == Ok::<(u64, usize), CdcError>((v, n as usize)),
            None => r is Err && r->Err_0 is BinlogParseError,
        },
{
    if i >= b.len() {
        return Err(CdcError::BinlogParseError("length-coded integer past the end".to_owned()));
    }
    let lead = b[i];
    if lead <= 0xFA {
        Ok((lead as u64, i + 1))
    } else if lead == 0xFB {
        Ok((0, i + 1))
    } else if lead == 0xFC {
        if b.len() - i >= 3 {
            Ok((read_u16_le(b, i + 1) as u64, i + 3))
        } else {
            Err(CdcError::BinlogParseError("truncated length-coded integer".to_owned()))
        }
    } else if lead == 0xFD {
        if b.len() - i >= 4 {
            Ok((read_u24_le(b, i + 1) as u64, i + 4))
        } else {
            Err(CdcError::BinlogParseError("truncated length-coded integer".to_owned()))
        }
    } else if lead == 0xFE {
        if b.len() - i >= 9 {
            Ok((read_u64_le(b, i + 1), i + 9))
        } else {
            Err(CdcError::BinlogParseError("truncated length-coded integer".to_owned()))
        }
    } else {
        Err(CdcError::BinlogParseError("invalid length-coded integer".to_owned()))
    }
}

} // verus!

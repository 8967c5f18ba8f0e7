//! Big-endian integer fields and byte-range copies over a message buffer.
//!
//! Every multi-byte field of the wire format is big-endian; these helpers
//! read and write such fields and state exactly which bytes they touch.

use vstd::prelude::*;

verus! {

/// The 16-bit big-endian value held by `buf[pos]` and `buf[pos + 1]`.
pub open spec fn be16_at(buf: Seq<u8>, pos: int) -> u16 {
    (buf[pos] * 256 + buf[pos + 1]) as u16
}

/// The 32-bit big-endian value held by `buf[pos]` through `buf[pos + 3]`.
pub open spec fn be32_at(buf: Seq<u8>, pos: int) -> u32 {
    (buf[pos] * 0x1000000 + buf[pos + 1] * 0x10000 + buf[pos + 2] * 256
        + buf[pos + 3]) as u32
}

/// The two bytes of `x` in big-endian order.
pub open spec fn u16_be(x: u16) -> Seq<u8> {
    seq![(x / 256) as u8, (x % 256) as u8]
}

/// Reading back the two bytes written for `x` yields `x` again.
pub proof fn lemma_be16_roundtrip(buf: Seq<u8>, pos: int, x: u16)
    requires
        0 <= pos,
        pos + 2 <= buf.len(),
        buf[pos] == u16_be(x)[0],
        buf[pos + 1] == u16_be(x)[1],
    ensures
        be16_at(buf, pos) == x,
{
    assert(x / 256 * 256 + x % 256 == x) by (nonlinear_arith);
    assert(x / 256 < 256) by (nonlinear_arith)
        requires x <= 0xffff,
    ;
}

/// Reads the 16-bit big-endian field at `pos`.
pub fn read_u16(buffer: &Vec<u8>, pos: usize) -> (r: u16)
    requires
        pos + 2 <= buffer@.len(),
    ensures
        r == be16_at(buffer@, pos as int),
{
    // Learn the length bound, so the index arithmetic cannot overflow.
    let n: usize = buffer.len();
    proof {
        assert(pos + 2 <= n);
    }
    (buffer[pos] as u16) * 256 + (buffer[pos + 1] as u16)
}

/// Reads the 32-bit big-endian field at `pos`.
pub fn read_u32(buffer: &Vec<u8>, pos: usize) -> (r: u32)
    requires
        pos + 4 <= buffer@.len(),
    ensures
        r == be32_at(buffer@, pos as int),
{
    // Learn the length bound, so the index arithmetic cannot overflow.
    let n: usize = buffer.len();
    proof {
        assert(pos + 4 <= n);
    }
    (buffer[pos] as u32) * 0x1000000 + (buffer[pos + 1] as u32) * 0x10000
        + (buffer[pos + 2] as u32) * 256 + (buffer[pos + 3] as u32)
}

/// Appends the two big-endian bytes of `x` to `out`.
pub fn write_u16(out: &mut Vec<u8>, x: u16)
    ensures
        final(out)@ == old(out)@ + u16_be(x),
{
    out.push((x / 256) as u8);
    out.push((x % 256) as u8);
    proof {
        assert(out@ =~= old(out)@ + u16_be(x));
    }
}

/// Copies `buffer[start .. start + len]` into a fresh vector.
pub fn read_bytes(buffer: &Vec<u8>, start: usize, len: usize) -> (r: Vec<u8>)
    requires
        start + len <= buffer@.len(),
    ensures
        r@ == buffer@.subrange(start as int, start as int + len as int),
{
    let n: usize = buffer.len();
    let mut out: Vec<u8> = Vec::new();
    let mut i: usize = 0;
    while i < len
        invariant
            i <= len,
            start + len <= buffer@.len(),
            n == buffer@.len(),
            out@ == buffer@.subrange(start as int, start as int + i as int),
        decreases len - i,
    {
        out.push(buffer[start + i]);
        i = i + 1;
        proof {
            assert(out@ =~= buffer@.subrange(start as int, start as int + i as int));
        }
    }
    out
}

} // verus!

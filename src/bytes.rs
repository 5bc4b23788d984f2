//! Big-endian integers in byte sequences.
use vstd::prelude::*;

verus! {

/// A 16-bit value in big-endian byte order.
pub open spec fn be16(x: u16) -> Seq<u8> {
    seq![(x / 256) as u8, (x % 256) as u8]
}

/// A 32-bit value in big-endian byte order.
pub open spec fn be32(x: u32) -> Seq<u8> {
    seq![
        (x / 0x100_0000) as u8,
        ((x / 0x1_0000) % 256) as u8,
        ((x / 256) % 256) as u8,
        (x % 256) as u8,
    ]
}

/// The big-endian 16-bit value at offset `i`.
pub open spec fn u16_at(buf: Seq<u8>, i: int) -> u16 {
    (buf[i] * 256 + buf[i + 1]) as u16
}

/// The big-endian 32-bit value at offset `i`.
pub open spec fn u32_at(buf: Seq<u8>, i: int) -> u32 {
    (buf[i] * 0x100_0000 + buf[i + 1] * 0x1_0000 + buf[i + 2] * 256 + buf[i + 3]) as u32
}

/// Appends the bytes of `b` to `out`.
pub fn append_bytes(out: &mut Vec<u8>, b: &[u8])
    ensures
        final(out)@ == old(out)@ + b@,
{
    let mut i: usize = 0;
    while i < b.len()
        invariant
            i <= b@.len(),
            out@ == old(out)@ + b@.subrange(0, i as int),
        decreases b.len() - i,
    {
        out.push(b[i]);
        i += 1;
        assert(out@ =~= old(out)@ + b@.subrange(0, i as int));
    }
    assert(b@.subrange(0, i as int) =~= b@);
}

/// Appends `x` in big-endian byte order.
pub fn push_be16(out: &mut Vec<u8>, x: u16)
    ensures
        final(out)@ == old(out)@ + be16(x),
{
    out.push((x / 256) as u8);
    out.push((x % 256) as u8);
    assert(out@ =~= old(out)@ + be16(x));
}

/// Appends `x` in big-endian byte order.
pub fn push_be32(out: &mut Vec<u8>, x: u32)
    ensures
        final(out)@ == old(out)@ + be32(x),
{
    out.push((x / 0x100_0000) as u8);
    out.push(((x / 0x1_0000) % 256) as u8);
    out.push(((x / 256) % 256) as u8);
    out.push((x % 256) as u8);
    assert(out@ =~= old(out)@ + be32(x));
}

/// The big-endian 16-bit value at offset `i` of `buf`.
pub fn read_u16(buf: &[u8], i: usize) -> (r: u16)
    requires
        i + 2 <= buf@.len(),
    ensures
        r == u16_at(buf@, i as int),
{
    (buf[i] as u16) * 256 + buf[i + 1] as u16
}

/// The big-endian 32-bit value at offset `i` of `buf`.
pub fn read_u32(buf: &[u8], i: usize) -> (r: u32)
    requires
        i + 4 <= buf@.len(),
    ensures
        r == u32_at(buf@, i as int),
{
    (buf[i] as u32) * 0x100_0000 + (buf[i + 1] as u32) * 0x1_0000 + (buf[i + 2] as u32) * 256
        + buf[i + 3] as u32
}

pub proof fn lemma_be16_round_trip(x: u16)
    ensures
        u16_at(be16(x), 0) == x,
{
    assert((x / 256) * 256 + x % 256 == x) by (nonlinear_arith);
}

pub proof fn lemma_be32_round_trip(x: u32)
    ensures
        u32_at(be32(x), 0) == x,
{
    let a = x / 0x100_0000;
    let b = (x / 0x1_0000) % 256;
    let c = (x / 256) % 256;
    let d = x % 256;
    assert(a * 0x100_0000 + b * 0x1_0000 + c * 256 + d == x) by (nonlinear_arith)
        requires
            a == x / 0x100_0000,
            b == (x / 0x1_0000) % 256,
            c == (x / 256) % 256,
            d == x % 256,
    ;
}

/// The 16-bit value at `p` of a buffer that holds `be16(x)` there is `x`.
pub proof fn lemma_u16_at_be16(buf: Seq<u8>, p: int, x: u16)
    requires
        0 <= p,
        p + 2 <= buf.len(),
        buf.subrange(p, p + 2) == be16(x),
    ensures
        u16_at(buf, p) == x,
{
    lemma_be16_round_trip(x);
    assert(buf[p] == buf.subrange(p, p + 2)[0]);
    assert(buf[p + 1] == buf.subrange(p, p + 2)[1]);
}

/// The 32-bit value at `p` of a buffer that holds `be32(x)` there is `x`.
pub proof fn lemma_u32_at_be32(buf: Seq<u8>, p: int, x: u32)
    requires
        0 <= p,
        p + 4 <= buf.len(),
        buf.subrange(p, p + 4) == be32(x),
    ensures
        u32_at(buf, p) == x,
{
    lemma_be32_round_trip(x);
    assert(buf[p] == buf.subrange(p, p + 4)[0]);
    assert(buf[p + 1] == buf.subrange(p, p + 4)[1]);
    assert(buf[p + 2] == buf.subrange(p, p + 4)[2]);
    assert(buf[p + 3] == buf.subrange(p, p + 4)[3]);
}

} // verus!

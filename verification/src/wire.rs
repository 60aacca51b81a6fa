//! Big-endian integer framing used by the peer-wire protocol and the UDP
//! tracker packets, together with the buffer helpers the codec needs.
use vstd::prelude::*;

verus! {

/// The two big-endian bytes of a 16-bit value, most significant first.
pub open spec fn spec_be16(x: u16) -> Seq<u8> {
    seq![((x >> 8) & 0xff) as u8, (x & 0xff) as u8]
}

/// The four big-endian bytes of a 32-bit value, most significant first.
pub open spec fn spec_be32(x: u32) -> Seq<u8> {
    seq![
        ((x >> 24) & 0xff) as u8,
        ((x >> 16) & 0xff) as u8,
        ((x >> 8) & 0xff) as u8,
        (x & 0xff) as u8,
    ]
}

/// The eight big-endian bytes of a 64-bit value, most significant first.
pub open spec fn spec_be64(x: u64) -> Seq<u8> {
    seq![
        ((x >> 56) & 0xff) as u8,
        ((x >> 48) & 0xff) as u8,
        ((x >> 40) & 0xff) as u8,
        ((x >> 32) & 0xff) as u8,
        ((x >> 24) & 0xff) as u8,
        ((x >> 16) & 0xff) as u8,
        ((x >> 8) & 0xff) as u8,
        (x & 0xff) as u8,
    ]
}

/// The 16-bit value read big-endian from two bytes.
pub open spec fn spec_be16_val(b0: u8, b1: u8) -> u16 {
    (((b0 as u16) << 8) | (b1 as u16)) as u16
}

/// The 32-bit value read big-endian from four bytes.
pub open spec fn spec_be32_val(b0: u8, b1: u8, b2: u8, b3: u8) -> u32 {
    (((b0 as u32) << 24) | ((b1 as u32) << 16) | ((b2 as u32) << 8) | (b3 as u32)) as u32
}

/// The 64-bit value read big-endian from eight bytes.
pub open spec fn spec_be64_val(
    b0: u8,
    b1: u8,
    b2: u8,
    b3: u8,
    b4: u8,
    b5: u8,
    b6: u8,
    b7: u8,
) -> u64 {
    (((b0 as u64) << 56) | ((b1 as u64) << 48) | ((b2 as u64) << 40) | ((b3 as u64) << 32) | ((
    b4 as u64) << 24) | ((b5 as u64) << 16) | ((b6 as u64) << 8) | (b7 as u64)) as u64
}

/// Appends the big-endian bytes of `x` to `buf`.
pub fn push_be16(buf: &mut Vec<u8>, x: u16)
    ensures
        final(buf)@ == old(buf)@ + spec_be16(x),
{
    buf.push(((x >> 8) & 0xff) as u8);
    buf.push((x & 0xff) as u8);
    assert(buf@ =~= old(buf)@ + spec_be16(x));
}

/// Appends the big-endian bytes of `x` to `buf`.
pub fn push_be32(buf: &mut Vec<u8>, x: u32)
    ensures
        final(buf)@ == old(buf)@ + spec_be32(x),
{
    buf.push(((x >> 24) & 0xff) as u8);
    buf.push(((x >> 16) & 0xff) as u8);
    buf.push(((x >> 8) & 0xff) as u8);
    buf.push((x & 0xff) as u8);
    assert(buf@ =~= old(buf)@ + spec_be32(x));
}

/// Appends the big-endian bytes of `x` to `buf`.
pub fn push_be64(buf: &mut Vec<u8>, x: u64)
    ensures
        final(buf)@ == old(buf)@ + spec_be64(x),
{
    buf.push(((x >> 56) & 0xff) as u8);
    buf.push(((x >> 48) & 0xff) as u8);
    buf.push(((x >> 40) & 0xff) as u8);
    buf.push(((x >> 32) & 0xff) as u8);
    buf.push(((x >> 24) & 0xff) as u8);
    buf.push(((x >> 16) & 0xff) as u8);
    buf.push(((x >> 8) & 0xff) as u8);
    buf.push((x & 0xff) as u8);
    assert(buf@ =~= old(buf)@ + spec_be64(x));
}

/// Reads the 16-bit big-endian value at offset `off`.
pub fn read_be16(buf: &Vec<u8>, off: usize) -> (r: u16)
    requires
        off + 2 <= buf@.len(),
    ensures
        r == spec_be16_val(buf@[off as int], buf@[off + 1]),
{
    let _len: usize = buf.len();
    ((buf[off] as u16) << 8) | (buf[off + 1] as u16)
}

/// Reads the 32-bit big-endian value at offset `off`.
pub fn read_be32(buf: &Vec<u8>, off: usize) -> (r: u32)
    requires
        off + 4 <= buf@.len(),
    ensures
        r == spec_be32_val(buf@[off as int], buf@[off + 1], buf@[off + 2], buf@[off + 3]),
{
    let _len: usize = buf.len();
    ((buf[off] as u32) << 24) | ((buf[off + 1] as u32) << 16) | ((buf[off + 2] as u32) << 8) | (
    buf[off + 3] as u32)
}

/// Reads the 64-bit big-endian value at offset `off`.
pub fn read_be64(buf: &Vec<u8>, off: usize) -> (r: u64)
    requires
        off + 8 <= buf@.len(),
    ensures
        r == spec_be64_val(
            buf@[off as int],
            buf@[off + 1],
            buf@[off + 2],
            buf@[off + 3],
            buf@[off + 4],
            buf@[off + 5],
            buf@[off + 6],
            buf@[off + 7],
        ),
{
    let _len: usize = buf.len();
    ((buf[off] as u64) << 56) | ((buf[off + 1] as u64) << 48) | ((buf[off + 2] as u64) << 40) | ((
    buf[off + 3] as u64) << 32) | ((buf[off + 4] as u64) << 24) | ((buf[off + 5] as u64) << 16) | ((
    buf[off + 6] as u64) << 8) | (buf[off + 7] as u64)
}

/// Reading the big-endian bytes of a 16-bit value back gives the value.
pub proof fn lemma_be16_roundtrip(x: u16)
    ensures
        spec_be16_val(((x >> 8) & 0xff) as u8, (x & 0xff) as u8) == x,
{
    assert((((((x >> 8) & 0xff) as u8 as u16) << 8) | ((x & 0xff) as u8 as u16)) as u16 == x)
        by (bit_vector);
}

/// Reading the big-endian bytes of a 32-bit value back gives the value.
pub proof fn lemma_be32_roundtrip(x: u32)
    ensures
        spec_be32_val(
            ((x >> 24) & 0xff) as u8,
            ((x >> 16) & 0xff) as u8,
            ((x >> 8) & 0xff) as u8,
            (x & 0xff) as u8,
        ) == x,
{
    assert((((((x >> 24) & 0xff) as u8 as u32) << 24) | ((((x >> 16) & 0xff) as u8 as u32) << 16)
        | ((((x >> 8) & 0xff) as u8 as u32) << 8) | ((x & 0xff) as u8 as u32)) as u32 == x)
        by (bit_vector);
}

/// Writing the 32-bit value read from four bytes reproduces those bytes.
pub proof fn lemma_be32_bytes(b0: u8, b1: u8, b2: u8, b3: u8)
    ensures
        spec_be32(spec_be32_val(b0, b1, b2, b3)) =~= seq![b0, b1, b2, b3],
{
    let v = spec_be32_val(b0, b1, b2, b3);
    assert({
        let v2 = (((b0 as u32) << 24) | ((b1 as u32) << 16) | ((b2 as u32) << 8) | (
        b3 as u32)) as u32;
        ((v2 >> 24) & 0xff) as u8 == b0 && ((v2 >> 16) & 0xff) as u8 == b1 && ((v2 >> 8) & 0xff)
            as u8 == b2 && (v2 & 0xff) as u8 == b3
    }) by (bit_vector);
}

/// Writing the 16-bit value read from two bytes reproduces those bytes.
pub proof fn lemma_be16_bytes(b0: u8, b1: u8)
    ensures
        spec_be16(spec_be16_val(b0, b1)) =~= seq![b0, b1],
{
    assert({
        let v2 = (((b0 as u16) << 8) | (b1 as u16)) as u16;
        ((v2 >> 8) & 0xff) as u8 == b0 && (v2 & 0xff) as u8 == b1
    }) by (bit_vector);
}

/// Removes the first `n` bytes of `buf`, keeping the rest in order.
pub fn drop_prefix(buf: &mut Vec<u8>, n: usize)
    requires
        n <= old(buf)@.len(),
    ensures
        final(buf)@ == old(buf)@.skip(n as int),
{
    let len: usize = buf.len();
    let mut rest: Vec<u8> = Vec::new();
    let mut i: usize = n;
    while i < len
        invariant
            n <= i <= len,
            len == buf@.len(),
            buf@ == old(buf)@,
            rest@ =~= buf@.subrange(n as int, i as int),
        decreases len - i,
    {
        let b = buf[i];
        rest.push(b);
        i = i + 1;
    }
    assert(rest@ =~= old(buf)@.skip(n as int));
    *buf = rest;
}

/// Copies the byte range `[from, to)` of `buf` into a fresh vector.
pub fn slice_range(buf: &Vec<u8>, from: usize, to: usize) -> (r: Vec<u8>)
    requires
        from <= to <= buf@.len(),
    ensures
        r@ == buf@.subrange(from as int, to as int),
{
    let mut out: Vec<u8> = Vec::new();
    let mut i: usize = from;
    while i < to
        invariant
            from <= i <= to <= buf@.len(),
            out@ =~= buf@.subrange(from as int, i as int),
        decreases to - i,
    {
        let b = buf[i];
        out.push(b);
        i = i + 1;
    }
    assert(out@ =~= buf@.subrange(from as int, to as int));
    out
}

} // verus!

//! Big-endian integer encodings and byte-buffer helpers used on the DNS wire.
use vstd::prelude::*;

verus! {

/// The two bytes of `v`, most significant first.
pub open spec fn be16(v: u16) -> Seq<u8> {
    seq![(v / 256) as u8, (v % 256) as u8]
}

/// The four bytes of `v`, most significant first.
pub open spec fn be32(v: u32) -> Seq<u8> {
    seq![
        (v / 0x100_0000) as u8,
        ((v / 0x1_0000) % 256) as u8,
        ((v / 256) % 256) as u8,
        (v % 256) as u8,
    ]
}

/// The integer that two big-endian bytes stand for.
pub open spec fn from_be16(b: Seq<u8>) -> u16
    recommends
        b.len() == 2,
{
    (b[0] * 256 + b[1]) as u16
}

/// The integer that four big-endian bytes stand for.
pub open spec fn from_be32(b: Seq<u8>) -> u32
    recommends
        b.len() == 4,
{
    (b[0] * 0x100_0000 + b[1] * 0x1_0000 + b[2] * 256 + b[3]) as u32
}

/// Decoding the encoding of a 16-bit value gives the value back, and the
/// other way round.
pub proof fn lemma_be16_roundtrip(v: u16, b: Seq<u8>)
    requires
        b.len() == 2,
    ensures
        from_be16(be16(v)) == v,
        be16(from_be16(b)) == b,
{
    assert(be16(from_be16(b)) =~= b);
}

/// Decoding the encoding of a 32-bit value gives the value back, and the
/// other way round.
pub proof fn lemma_be32_roundtrip(v: u32, b: Seq<u8>)
    requires
        b.len() == 4,
    ensures
        from_be32(be32(v)) == v,
        be32(from_be32(b)) == b,
{
    let x: int = b[0] * 0x100_0000 + b[1] * 0x1_0000 + b[2] * 256 + b[3];
    assert(x / 0x100_0000 == b[0]) by (nonlinear_arith)
        requires
            x == b[0] * 0x100_0000 + b[1] * 0x1_0000 + b[2] * 256 + b[3],
            0 <= b[0] < 256,
            0 <= b[1] < 256,
            0 <= b[2] < 256,
            0 <= b[3] < 256,
    ;
    assert((x / 0x1_0000) % 256 == b[1]) by (nonlinear_arith)
        requires
            x == b[0] * 0x100_0000 + b[1] * 0x1_0000 + b[2] * 256 + b[3],
            0 <= b[0] < 256,
            0 <= b[1] < 256,
            0 <= b[2] < 256,
            0 <= b[3] < 256,
    ;
    assert((x / 256) % 256 == b[2]) by (nonlinear_arith)
        requires
            x == b[0] * 0x100_0000 + b[1] * 0x1_0000 + b[2] * 256 + b[3],
            0 <= b[0] < 256,
            0 <= b[1] < 256,
            0 <= b[2] < 256,
            0 <= b[3] < 256,
    ;
    assert(be32(from_be32(b)) =~= b);
    let y: int = v as int;
    assert(y == (y / 0x100_0000) * 0x100_0000 + ((y / 0x1_0000) % 256) * 0x1_0000 + ((y / 256)
        % 256) * 256 + y % 256) by (nonlinear_arith)
        requires
            0 <= y < 0x1_0000_0000,
    ;
}

/// Encodes `v` as two big-endian bytes.
pub fn u16_to_be(v: u16) -> (res: [u8; 2])
    ensures
        res@ == be16(v),
{
    let hi: u8 = (v / 256) as u8;
    let lo: u8 = (v % 256) as u8;
    let res: [u8; 2] = [hi, lo];
    assert(res@ =~= be16(v));
    res
}

/// Encodes `v` as four big-endian bytes.
pub fn u32_to_be(v: u32) -> (res: [u8; 4])
    ensures
        res@ == be32(v),
{
    let b0: u8 = (v / 0x100_0000) as u8;
    let b1: u8 = ((v / 0x1_0000) % 256) as u8;
    let b2: u8 = ((v / 256) % 256) as u8;
    let b3: u8 = (v % 256) as u8;
    let res: [u8; 4] = [b0, b1, b2, b3];
    assert(res@ =~= be32(v));
    res
}

/// Reads the big-endian 16-bit value that starts at `at`.
pub fn read_be16(buf: &[u8], at: usize) -> (res: u16)
    requires
        at + 2 <= buf@.len(),
    ensures
        res == from_be16(buf@.subrange(at as int, at + 2)),
{
    let hi: u16 = buf[at] as u16;
    let lo: u16 = buf[at + 1] as u16;
    hi * 256 + lo
}

/// Reads the big-endian 32-bit value that starts at `at`.
pub fn read_be32(buf: &[u8], at: usize) -> (res: u32)
    requires
        at + 4 <= buf@.len(),
    ensures
        res == from_be32(buf@.subrange(at as int, at + 4)),
{
    let b0: u32 = buf[at] as u32;
    let b1: u32 = buf[at + 1] as u32;
    let b2: u32 = buf[at + 2] as u32;
    let b3: u32 = buf[at + 3] as u32;
    b0 * 0x100_0000 + b1 * 0x1_0000 + b2 * 256 + b3
}

/// Appends `src[from..to]` to `dst`, in order.
pub fn append_range(dst: &mut Vec<u8>, src: &[u8], from: usize, to: usize)
    requires
        from <= to <= src@.len(),
    ensures
        final(dst)@ == old(dst)@ + src@.subrange(from as int, to as int),
{
    let mut i: usize = from;
    while i < to
        invariant
            from <= i <= to <= src@.len(),
            dst@ == old(dst)@ + src@.subrange(from as int, i as int),
        decreases to - i,
    {
        dst.push(src[i]);
        i = i + 1;
        assert(src@.subrange(from as int, i as int) =~= src@.subrange(from as int, i - 1).push(
            src@[i - 1],
        ));
    }
}

/// Appends every byte of `src` to `dst`, in order.
pub fn append_bytes(dst: &mut Vec<u8>, src: &[u8])
    ensures
        final(dst)@ == old(dst)@ + src@,
{
    append_range(dst, src, 0, src.len());
    assert(src@.subrange(0, src@.len() as int) =~= src@);
}

/// Copies `src[from..to]` into a new vector.
pub fn copy_range(src: &[u8], from: usize, to: usize) -> (res: Vec<u8>)
    requires
        from <= to <= src@.len(),
    ensures
        res@ == src@.subrange(from as int, to as int),
{
    let mut res: Vec<u8> = Vec::new();
    append_range(&mut res, src, from, to);
    assert(res@ =~= src@.subrange(from as int, to as int));
    res
}

} // verus!

//! Little-endian 32-bit integers in byte buffers.
use vstd::prelude::*;

verus! {

/// The integer that four bytes encode, least significant byte first.
pub open spec fn le32(b0: u8, b1: u8, b2: u8, b3: u8) -> u32 {
    (b0 as u32) | ((b1 as u32) << 8u32) | ((b2 as u32) << 16u32) | ((b3 as u32) << 24u32)
}

/// The integer stored at offset `p` of `s`.
pub open spec fn le32_at(s: Seq<u8>, p: int) -> u32 {
    le32(s[p], s[p + 1], s[p + 2], s[p + 3])
}

/// The four bytes of `v`, least significant first.
pub open spec fn le_bytes(v: u32) -> Seq<u8> {
    seq![
        (v & 0xffu32) as u8,
        ((v >> 8u32) & 0xffu32) as u8,
        ((v >> 16u32) & 0xffu32) as u8,
        ((v >> 24u32) & 0xffu32) as u8,
    ]
}

/// The eight bytes of the pair `(a, b)`.
pub open spec fn le_pair_bytes(a: u32, b: u32) -> Seq<u8> {
    le_bytes(a) + le_bytes(b)
}

/// Decoding the encoding of `v` gives `v` back.
pub proof fn lemma_le_bytes_decode(v: u32)
    ensures
        le32_at(le_bytes(v), 0) == v,
        le_bytes(v).len() == 4,
{
    let b = le_bytes(v);
    assert(le32(
        (v & 0xffu32) as u8,
        ((v >> 8u32) & 0xffu32) as u8,
        ((v >> 16u32) & 0xffu32) as u8,
        ((v >> 24u32) & 0xffu32) as u8,
    ) == v) by (bit_vector);
}

/// Reads the integer held by the first four bytes of `data`.
pub fn unpack(data: &[u8]) -> (r: u32)
    requires
        data@.len() == 4,
    ensures
        r == le32_at(data@, 0),
{
    (data[0] as u32) | ((data[1] as u32) << 8u32) | ((data[2] as u32) << 16u32) | ((
    data[3] as u32) << 24u32)
}

/// Reads the two integers held by the first eight bytes of `buf`.
pub fn unpack2(buf: &[u8]) -> (r: (u32, u32))
    requires
        buf@.len() >= 8,
    ensures
        r == (le32_at(buf@, 0), le32_at(buf@, 4)),
{
    let a = unpack(vstd::slice::slice_subrange(buf, 0, 4));
    let b = unpack(vstd::slice::slice_subrange(buf, 4, 8));
    (a, b)
}

/// Stores `src` in the first four bytes of `data`; the rest is kept.
pub fn pack(data: &mut [u8], src: u32)
    requires
        old(data)@.len() >= 4,
    ensures
        final(data)@.len() == old(data)@.len(),
        final(data)@.subrange(0, 4) == le_bytes(src),
        final(data)@.subrange(4, old(data)@.len() as int) == old(data)@.subrange(
            4,
            old(data)@.len() as int,
        ),
{
    data[0] = (src & 0xffu32) as u8;
    data[1] = ((src >> 8u32) & 0xffu32) as u8;
    data[2] = ((src >> 16u32) & 0xffu32) as u8;
    data[3] = ((src >> 24u32) & 0xffu32) as u8;
    assert(data@.subrange(0, 4) =~= le_bytes(src));
    assert(data@.subrange(4, data@.len() as int) =~= old(data)@.subrange(
        4,
        old(data)@.len() as int,
    ));
}

/// Stores `src0` and then `src1` in the first eight bytes of `data`; the
/// rest is kept.
pub fn pack2(data: &mut [u8], src0: u32, src1: u32)
    requires
        old(data)@.len() >= 8,
    ensures
        final(data)@.len() == old(data)@.len(),
        final(data)@.subrange(0, 8) == le_pair_bytes(src0, src1),
        final(data)@.subrange(8, old(data)@.len() as int) == old(data)@.subrange(
            8,
            old(data)@.len() as int,
        ),
{
    let ghost d0 = data@;
    pack(data, src0);
    let ghost d1 = data@;
    let mut tail: [u8; 4] = [0u8; 4];
    tail[0] = data[4];
    tail[1] = data[5];
    tail[2] = data[6];
    tail[3] = data[7];
    pack(&mut tail, src1);
    data[4] = tail[0];
    data[5] = tail[1];
    data[6] = tail[2];
    data[7] = tail[3];
    assert(data@.subrange(0, 4) =~= d1.subrange(0, 4));
    assert(data@.subrange(4, 8) =~= tail@.subrange(0, 4));
    assert(data@.subrange(0, 8) =~= data@.subrange(0, 4) + data@.subrange(4, 8));
    assert forall|i: int| 8 <= i < d0.len() implies data@[i] == d0[i] by {
        assert(d1[i] == d1.subrange(4, d1.len() as int)[i - 4]);
        assert(d0[i] == d0.subrange(4, d0.len() as int)[i - 4]);
    }
    assert(data@.subrange(8, data@.len() as int) =~= d0.subrange(8, d0.len() as int));
}

} // verus!

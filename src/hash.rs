//! The CDB hash function, fixed by the file format.
use vstd::prelude::*;

verus! {

/// One step of the hash: `h * 33` modulo 2^32, exclusive-or the byte.
pub open spec fn hash_step(h: u32, b: u8) -> u32 {
    ((h as int * 33) % 0x1_0000_0000) as u32 ^ (b as u32)
}

/// The hash of `key`: 5381, then one step for each byte in order.
pub open spec fn cdb_hash(key: Seq<u8>) -> u32
    decreases key.len(),
{
    if key.len() == 0 {
        5381
    } else {
        hash_step(cdb_hash(key.drop_last()), key.last())
    }
}

/// Computes the CDB hash of `key`.
pub fn hash(key: &[u8]) -> (r: u32)
    ensures
        r == cdb_hash(key@),
{
    let mut h: u32 = 5381;
    let mut i: usize = 0;
    while i < key.len()
        invariant
            i <= key@.len(),
            h == cdb_hash(key@.subrange(0, i as int)),
        decreases key@.len() - i,
    {
        assert(key@.subrange(0, i + 1).drop_last() =~= key@.subrange(0, i as int));
        h = h.wrapping_mul(33) ^ (key[i] as u32);
        i = i + 1;
    }
    assert(key@.subrange(0, key@.len() as int) =~= key@);
    h
}

} // verus!

use vstd::prelude::*;

verus! {

/// Seed of the DJB-style hash.
pub const HASH_SEED: u64 = 5381;

/// One step of the hash: `((h << 5) + h) + byte`, wrapping at 64 bits.
pub open spec fn hash_step(h: u64, b: u8) -> u64 {
    h.wrapping_shl(5).wrapping_add(h).wrapping_add(b as u64)
}

/// The hash of a byte sequence: a left fold of `hash_step` starting at the seed.
pub open spec fn hash_of(b: Seq<u8>) -> u64
    decreases b.len(),
{
    if b.len() == 0 {
        HASH_SEED
    } else {
        hash_step(hash_of(b.drop_last()), b.last())
    }
}

/// Computes the DJB-style hash of `b`.
pub fn kissdb_hash(b: &[u8]) -> (r: u64)
    ensures
        r == hash_of(b@),
{
    let mut hash: u64 = HASH_SEED;
    let mut i: usize = 0;
    while i < b.len()
        invariant
            i <= b@.len(),
            hash == hash_of(b@.subrange(0, i as int)),
        decreases b@.len() - i,
    {
        assert(b@.subrange(0, i + 1).drop_last() =~= b@.subrange(0, i as int));
        hash = hash.wrapping_shl(5).wrapping_add(hash).wrapping_add(b[i] as u64);
        i = i + 1;
    }
    assert(b@.subrange(0, i as int) =~= b@);
    hash
}

} // verus!

use vstd::prelude::*;

verus! {

/// The 32-bit FNV-1a hash of a byte sequence: starting from the offset basis,
/// each byte is folded in by xor followed by a wrapping multiplication with
/// the FNV prime.
pub open spec fn fnv1a_spec(bytes: Seq<u8>) -> u32
    decreases bytes.len(),
{
    if bytes.len() == 0 {
        0x811c9dc5u32
    } else {
        (((fnv1a_spec(bytes.drop_last()) ^ (bytes.last() as u32)) as nat * 16777619nat)
            % 4294967296nat) as u32
    }
}

/// The 16-bit xor-folded form of the 32-bit FNV-1a hash.
pub open spec fn fnv1a_fold_16_spec(bytes: Seq<u8>) -> u16 {
    ((fnv1a_spec(bytes) >> 16u32) ^ (fnv1a_spec(bytes) & 0xffffu32)) as u16
}

/// Computes the 32-bit FNV-1a hash of `bytes`.
pub fn fnv1a_hash_32(bytes: &[u8]) -> (r: u32)
    ensures
        r == fnv1a_spec(bytes@),
{
    let mut hash: u32 = 0x811c9dc5;
    let mut i: usize = 0;
    while i < bytes.len()
        invariant
            i <= bytes@.len(),
            hash == fnv1a_spec(bytes@.take(i as int)),
        decreases bytes@.len() - i,
    {
        let b: u8 = bytes[i];
        hash = (hash ^ (b as u32)).wrapping_mul(16777619);
        proof {
            assert(bytes@.take(i + 1).drop_last() =~= bytes@.take(i as int));
            assert(bytes@.take(i + 1).last() == b);
        }
        i = i + 1;
    }
    proof {
        assert(bytes@.take(bytes@.len() as int) =~= bytes@);
    }
    hash
}

/// Computes the 16-bit xor-folded FNV-1a hash of `bytes`.
pub fn fnv1a_hash_16_xor(bytes: &[u8]) -> (r: u16)
    ensures
        r == fnv1a_fold_16_spec(bytes@),
{
    let hash: u32 = fnv1a_hash_32(bytes);
    let folded: u32 = (hash >> 16) ^ (hash & 0xffff);
    assert(folded <= 0xffff) by (bit_vector)
        requires
            folded == (hash >> 16u32) ^ (hash & 0xffffu32),
    ;
    folded as u16
}

} // verus!

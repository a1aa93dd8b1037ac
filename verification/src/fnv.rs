//! FNV-1a, the 64-bit variant: the fingerprint under which a city is filed.

use vstd::prelude::*;

verus! {

/// The FNV 64-bit prime.
pub const FNV_PRIME: u64 = 1099511628211;

/// The FNV 64-bit offset basis, from which every hash starts.
pub const FNV_OFFSET: u64 = 14695981039346656037;

/// One FNV-1a round: XOR the byte into the accumulator, then multiply by the
/// prime modulo 2^64.
pub open spec fn fnv_step(hash: u64, byte: u8) -> u64 {
    (((hash ^ (byte as u64)) as nat * FNV_PRIME as nat) % 0x1_0000_0000_0000_0000) as u64
}

/// The accumulator after the bytes of `bytes` went through `fnv_step` in order,
/// starting from `hash`.
pub open spec fn fnv_fold(hash: u64, bytes: Seq<u8>) -> u64
    decreases bytes.len(),
{
    if bytes.len() == 0 {
        hash
    } else {
        fnv_step(fnv_fold(hash, bytes.drop_last()), bytes.last())
    }
}

/// The FNV-1a hash of `bytes`.
pub open spec fn fnv_hash(bytes: Seq<u8>) -> u64 {
    fnv_fold(FNV_OFFSET, bytes)
}

/// The fingerprint of a name: the hash of its bytes followed by one more
/// round on the low eight bits of its length, which tells apart names that
/// would otherwise hash alike only through a shared prefix.
pub open spec fn fingerprint(name: Seq<u8>) -> u64 {
    fnv_step(fnv_hash(name), (name.len() % 256) as u8)
}

/// Hashing is streaming: feeding `a` and then `b` is feeding `a + b`.
pub proof fn lemma_fnv_fold_concat(hash: u64, a: Seq<u8>, b: Seq<u8>)
    ensures
        fnv_fold(hash, a + b) == fnv_fold(fnv_fold(hash, a), b),
    decreases b.len(),
{
    if b.len() == 0 {
        assert(a + b =~= a);
    } else {
        assert((a + b).drop_last() =~= a + b.drop_last());
        lemma_fnv_fold_concat(hash, a, b.drop_last());
    }
}

/// Applies one FNV-1a round for `byte` to the accumulator `hash`.
pub fn fnv_hash_byte(byte: u8, hash: &mut u64)
    ensures
        *final(hash) == fnv_step(*old(hash), byte),
{
    *hash = *hash ^ (byte as u64);
    *hash = hash.wrapping_mul(FNV_PRIME);
}

/// The FNV-1a hash of a byte slice.
pub fn hash_bytes(bytes: &[u8]) -> (hash: u64)
    ensures
        hash == fnv_hash(bytes@),
{
    let mut hash = FNV_OFFSET;
    let mut i: usize = 0;
    while i < bytes.len()
        invariant
            i <= bytes.len(),
            hash == fnv_fold(FNV_OFFSET, bytes@.take(i as int)),
        decreases bytes.len() - i,
    {
        proof {
            assert(bytes@.take(i + 1).drop_last() =~= bytes@.take(i as int));
        }
        fnv_hash_byte(bytes[i], &mut hash);
        i += 1;
    }
    proof {
        assert(bytes@.take(i as int) =~= bytes@);
    }
    hash
}

/// The fingerprint of a name.
pub fn fingerprint_of(name: &[u8]) -> (key: u64)
    ensures
        key == fingerprint(name@),
{
    let mut key = hash_bytes(name);
    fnv_hash_byte((name.len() % 256) as u8, &mut key);
    key
}

} // verus!

//! The hash a short string is interned under.
use vstd::prelude::*;

verus! {

/// The FNV-1a offset basis.
pub fn hash_seed() -> (seed: u64)
    ensures
        seed == seed_value(),
{
    0xcbf2_9ce4_8422_2325
}

pub open spec fn seed_value() -> u64 {
    0xcbf2_9ce4_8422_2325
}

/// The FNV-1a prime.
pub open spec fn fnv_prime() -> u64 {
    0x0000_0100_0000_01b3
}

/// FNV-1a over `bytes`: for each byte, xor it in, then multiply by the prime, wrapping.
pub open spec fn fnv(bytes: Seq<u8>) -> u64
    decreases bytes.len(),
{
    if bytes.len() == 0 {
        seed_value()
    } else {
        (((fnv(bytes.drop_last()) ^ (bytes.last() as u64)) as nat * fnv_prime() as nat)
            % 0x1_0000_0000_0000_0000) as u64
    }
}

/// The 64-bit hash folded to 32: the high half xor the low half, since a table indexes with
/// the low bits.
pub open spec fn fold(hash: u64) -> u32 {
    ((hash >> 32) as u32) ^ (hash as u32)
}

pub open spec fn string_hash(bytes: Seq<u8>) -> u32 {
    fold(fnv(bytes))
}

pub fn hash_bytes(bytes: &[u8]) -> (hash: u32)
    ensures
        hash == string_hash(bytes@),
{
    let mut hash = hash_seed();
    let mut i: usize = 0;

    while i < bytes.len()
        invariant
            i <= bytes@.len(),
            hash == fnv(bytes@.subrange(0, i as int)),
        decreases bytes@.len() - i,
    {
        proof {
            assert(bytes@.subrange(0, i + 1).drop_last() =~= bytes@.subrange(0, i as int));
        }
        hash = hash ^ (bytes[i] as u64);
        hash = hash.wrapping_mul(0x0000_0100_0000_01b3);
        i += 1;
    }
    proof {
        assert(bytes@.subrange(0, i as int) =~= bytes@);
    }

    // The table indexes with the low bits.
    ((hash >> 32) as u32) ^ (hash as u32)
}

} // verus!

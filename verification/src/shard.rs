//! Deterministic assignment of a domain name to one shard of the visited
//! store.  The same domain always lands in the same shard, so every store
//! operation on a domain touches exactly one shard.

use vstd::prelude::*;
use vstd::utf8::encode_utf8;

verus! {

/// Starting value of the rolling hash.
pub const HASH_SEED: u64 = 7;

/// Multiplier of the rolling hash.
pub const HASH_MUL: u64 = 31;

/// Modulus that keeps the rolling hash small enough to never overflow.
pub const HASH_MOD: u64 = 0x7fffffff;

/// Rolling polynomial hash of a byte sequence, always in `[0, HASH_MOD)`.
pub open spec fn hash_of_bytes(s: Seq<u8>) -> int
    decreases s.len(),
{
    if s.len() == 0 {
        HASH_SEED as int
    } else {
        (hash_of_bytes(s.drop_last()) * (HASH_MUL as int) + s.last()) % (HASH_MOD as int)
    }
}

/// The shard a domain belongs to: its hash over the domain's UTF-8 bytes,
/// reduced modulo the shard count.
pub open spec fn spec_shard_of(domain: Seq<char>, count: int) -> int
    recommends
        count >= 1,
{
    hash_of_bytes(encode_utf8(domain)) % count
}

proof fn lemma_hash_bounds(s: Seq<u8>)
    ensures
        0 <= hash_of_bytes(s) < HASH_MOD,
    decreases s.len(),
{
    if s.len() > 0 {
        lemma_hash_bounds(s.drop_last());
    }
}

/// Compute the shard index of a domain for a store of `count` shards.
pub fn shard_of(domain: &str, count: usize) -> (i: usize)
    requires
        count >= 1,
    ensures
        i == spec_shard_of(domain@, count as int),
        i < count,
{
    let bytes = domain.as_bytes();
    let n = bytes.len();
    let mut h: u64 = HASH_SEED;
    assert(bytes@.take(0) =~= Seq::<u8>::empty());
    for idx in 0..n
        invariant
            n == bytes@.len(),
            h == hash_of_bytes(bytes@.take(idx as int)),
            0 <= h < HASH_MOD,
    {
        proof {
            assert(bytes@.take(idx + 1).drop_last() =~= bytes@.take(idx as int));
            assert(bytes@.take(idx + 1).last() == bytes@[idx as int]);
        }
        h = (h * HASH_MUL + bytes[idx] as u64) % HASH_MOD;
        proof {
            lemma_hash_bounds(bytes@.take(idx + 1));
        }
    }
    assert(bytes@.take(n as int) =~= bytes@);
    let i = (h % (count as u64)) as usize;
    assert(i == spec_shard_of(domain@, count as int));
    i
}

} // verus!

//! Splitting a hash into the branch indices used at each level of the trie.

use vstd::prelude::*;

verus! {

/// A hash value; the trie consumes it in chunks from the least significant bits up.
pub type Hash = usize;

/// Number of hash bits consumed per trie level.
pub const BIT_PER_CHUNK: usize = 5;

/// Number of child slots of a branch: two to the power of `BIT_PER_CHUNK`.
pub const BRANCH_SIZE: usize = 32;

/// Mask selecting the low `BIT_PER_CHUNK` bits of a hash.
pub const CHUNK_MASK: usize = 31;

/// `32` raised to the power `d`.
pub open spec fn pow32(d: nat) -> nat
    decreases d,
{
    if d == 0 {
        1
    } else {
        32 * pow32((d - 1) as nat)
    }
}

/// The hash left after `d` levels have consumed their chunks.
pub open spec fn shifted_by(h: nat, d: nat) -> nat
    decreases d,
{
    if d == 0 {
        h
    } else {
        shifted_by(h / 32, (d - 1) as nat)
    }
}

/// The branch index used at depth `d`: bits `[5 d, 5 d + 5)` of the hash.
pub open spec fn chunk_at(h: nat, d: nat) -> nat {
    (h / pow32(d)) % 32
}

/// Removes the chunk of the current level from a hash.
pub fn shift_hash(hash: Hash) -> (r: Hash)
    ensures
        r == hash >> 5,
        r as int == hash as int / 32,
{
    let r: Hash = hash >> BIT_PER_CHUNK;
    assert(hash >> 5 == hash / 32) by (bit_vector);
    r
}

/// The child slot selected by the current level's chunk of a hash.
pub fn branch_index(hash: Hash) -> (r: usize)
    ensures
        r == hash & 31,
        r as int == hash as int % 32,
        r < BRANCH_SIZE,
{
    let r: usize = hash & CHUNK_MASK;
    assert(hash & 31 == hash % 32) by (bit_vector);
    r
}

proof fn lemma_pow32_positive(d: nat)
    ensures
        pow32(d) > 0,
    decreases d,
{
    if d > 0 {
        lemma_pow32_positive((d - 1) as nat);
    }
}

/// Shifting `d` times divides by `32^d`.
pub proof fn lemma_shifted_by(h: nat, d: nat)
    ensures
        shifted_by(h, d) == h / pow32(d),
    decreases d,
{
    if d > 0 {
        lemma_shifted_by(h / 32, (d - 1) as nat);
        lemma_pow32_positive((d - 1) as nat);
        let p = pow32((d - 1) as nat) as int;
        vstd::arithmetic::div_mod::lemma_div_denominator(h as int, 32, p);
        assert(pow32(d) == 32 * p);
        assert(h / pow32(d) == h as int / (32 * p));
    } else {
        assert(pow32(d) == 1);
    }
}

/// Shifting a hash `d` times and then taking the branch index yields the
/// chunk of bits `[5 d, 5 d + 5)` of the original hash.
pub proof fn lemma_chunk_after_shifts(h: nat, d: nat)
    ensures
        shifted_by(h, d) % 32 == chunk_at(h, d),
{
    lemma_shifted_by(h, d);
}

} // verus!

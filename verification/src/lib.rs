//! Core of a near-duplicate image deduplication pipeline: a fixed-dimension
//! vector store with an insertion-order index, deterministic content-addressed
//! UUID derivation, clique-threshold similarity clustering, cluster triage,
//! GIF refinement decisions, and the mutation planner that turns triage output
//! into keep/delete operations.

use vstd::prelude::*;

pub mod cluster;
pub mod ext_check;
pub mod gif;
pub mod mutation;
pub mod neko_uuid;
pub mod opendal;
pub mod point_explorer;
pub mod point_id;
pub mod structure;
pub mod triage;

verus! {

/// Hamming distance between two byte strings of equal length, counted in bits.
pub open spec fn hamming_spec(a: Seq<u8>, b: Seq<u8>) -> nat
    decreases a.len(),
{
    if a.len() == 0 {
        0
    } else {
        ones8((a[0] ^ b[0]) as u8) + hamming_spec(a.drop_first(), b.drop_first())
    }
}

/// Number of set bits in one byte.
pub open spec fn ones8(b: u8) -> nat
    decreases b,
{
    if b == 0 {
        0
    } else {
        (b % 2) as nat + ones8(b / 2)
    }
}

/// Count the set bits of one byte.
fn byte_ones(b: u8) -> (n: u8)
    ensures
        n as nat == ones8(b),
        n <= 8,
{
    proof {
        lemma_ones8_bound(b);
    }
    let mut x: u8 = b;
    let mut n: u8 = 0;
    while x > 0
        invariant
            n as nat + ones8(x) == ones8(b),
            ones8(b) <= 8,
        decreases x,
    {
        n = n + x % 2;
        x = x / 2;
    }
    n
}

/// Hamming distance in bits between two equally long packed byte arrays.
pub fn hamming(a: &Vec<u8>, b: &Vec<u8>) -> (d: u32)
    requires
        a@.len() == b@.len(),
        a@.len() <= u32::MAX as nat / 8,
    ensures
        d as nat == hamming_spec(a@, b@),
{
    let mut d: u32 = 0;
    let mut i: usize = 0;
    proof {
        assert(a@.skip(0) =~= a@);
        assert(b@.skip(0) =~= b@);
    }
    while i < a.len()
        invariant
            i <= a@.len(),
            a@.len() == b@.len(),
            a@.len() <= u32::MAX as nat / 8,
            d as nat + hamming_spec(a@.skip(i as int), b@.skip(i as int)) == hamming_spec(a@, b@),
            d <= 8 * i,
        decreases a@.len() - i,
    {
        proof {
            lemma_hamming_bound(a@.skip(i as int), b@.skip(i as int));
            assert(a@.skip(i as int).drop_first() =~= a@.skip(i as int + 1));
            assert(b@.skip(i as int).drop_first() =~= b@.skip(i as int + 1));
        }
        d = d + byte_ones(a[i] ^ b[i]) as u32;
        i = i + 1;
    }
    d
}

/// The bit distance of byte strings is at most eight bits per byte.
proof fn lemma_hamming_bound(a: Seq<u8>, b: Seq<u8>)
    requires
        a.len() == b.len(),
    ensures
        hamming_spec(a, b) <= 8 * a.len(),
    decreases a.len(),
{
    if a.len() > 0 {
        lemma_ones8_bound((a[0] ^ b[0]) as u8);
        lemma_hamming_bound(a.drop_first(), b.drop_first());
    }
}

spec fn pow2_of(k: nat) -> nat
    decreases k,
{
    if k == 0 {
        1
    } else {
        2 * pow2_of((k - 1) as nat)
    }
}

proof fn lemma_ones8_le(b: u8, k: nat)
    requires
        (b as nat) < pow2_of(k),
    ensures
        ones8(b) <= k,
    decreases k,
{
    if b > 0 {
        if k == 0 {
            assert(pow2_of(0) == 1);
        }
        lemma_ones8_le(b / 2, (k - 1) as nat);
    }
}

proof fn lemma_ones8_bound(b: u8)
    ensures
        ones8(b) <= 8,
{
    assert(pow2_of(0) == 1);
    assert(pow2_of(1) == 2);
    assert(pow2_of(2) == 4);
    assert(pow2_of(3) == 8);
    assert(pow2_of(4) == 16);
    assert(pow2_of(5) == 32);
    assert(pow2_of(6) == 64);
    assert(pow2_of(7) == 128);
    assert(pow2_of(8) == 256);
    lemma_ones8_le(b, 8);
}

} // verus!

//! A tiny deterministic 64-bit hash used to derive pseudorandom seeds from
//! the shape of a unit graph.

use vstd::prelude::*;

verus! {

/// Odd multiplier of the mixing rule; being odd makes the multiplication a
/// permutation of `u64`.
pub const MIX_MULTIPLIER: u64 = 0x9e37_79b9_7f4a_7c15;

/// Multiplicative inverse of `MIX_MULTIPLIER` modulo 2^64.
pub const MIX_INVERSE: u64 = 0xf1de_83e1_9937_733d;

/// The mixing rule: the state after combining `state` with `data`.
pub open spec fn mix(state: u64, data: u64) -> u64 {
    let x = ((state ^ data) * MIX_MULTIPLIER) as u64;
    x ^ (x >> 32u64)
}

/// The rule that undoes the mixing for a known `data`.
pub open spec fn unmix(mixed: u64, data: u64) -> u64 {
    let x = mixed ^ (mixed >> 32u64);
    ((x * MIX_INVERSE) as u64) ^ data
}

/// Mixing can be undone: `unmix` recovers the state from the result.
pub proof fn lemma_unmix_mix(state: u64, data: u64)
    ensures
        unmix(mix(state, data), data) == state,
{
    let s = state ^ data;
    let x = ((s * MIX_MULTIPLIER) as u64);
    assert(((x ^ (x >> 32u64)) ^ ((x ^ (x >> 32u64)) >> 32u64)) == x) by (bit_vector);
    assert((((s * 0x9e37_79b9_7f4a_7c15u64) as u64) * 0xf1de_83e1_9937_733du64) as u64 == s)
        by (bit_vector);
    assert((s ^ data) == state) by (bit_vector)
        requires
            s == state ^ data,
    ;
}

/// Mixing is symmetric in its two arguments.
pub proof fn lemma_mix_symmetric(a: u64, b: u64)
    ensures
        mix(a, b) == mix(b, a),
{
    assert(a ^ b == b ^ a) by (bit_vector);
}

/// Mixing tells different states apart, and different data apart.
pub proof fn lemma_mix_injective(s1: u64, d1: u64, s2: u64, d2: u64)
    ensures
        d1 == d2 && mix(s1, d1) == mix(s2, d2) ==> s1 == s2,
        s1 == s2 && mix(s1, d1) == mix(s2, d2) ==> d1 == d2,
{
    lemma_unmix_mix(s1, d1);
    lemma_unmix_mix(s2, d2);
    lemma_mix_symmetric(s1, d1);
    lemma_mix_symmetric(s2, d2);
    lemma_unmix_mix(d1, s1);
    lemma_unmix_mix(d2, s2);
}

/// Hash state after absorbing `ids` in order, starting from `hash`. When a
/// chain of leaf units is pinged in order, unit `k` receives the seed
/// `chain_hash(hash, ids.take(k))`, where `ids` lists the units' identifiers.
pub open spec fn chain_hash(hash: u64, ids: Seq<u64>) -> u64
    decreases ids.len(),
{
    if ids.len() == 0 {
        hash
    } else {
        mix(chain_hash(hash, ids.drop_last()), ids.last())
    }
}

/// Pinging is deterministic: chains whose first `i` identifiers agree, pinged
/// from the same hash, install the same seeds in their first `i + 1` units.
/// In particular the same chain pinged twice gets the same seeds.
pub proof fn lemma_ping_deterministic(hash: u64, a: Seq<u64>, b: Seq<u64>, i: int)
    requires
        0 <= i <= a.len(),
        i <= b.len(),
        a.take(i) == b.take(i),
    ensures
        forall|k: int| 0 <= k <= i ==> #[trigger] chain_hash(hash, a.take(k)) == chain_hash(hash, b.take(k)),
{
    assert forall|k: int| 0 <= k <= i implies #[trigger] chain_hash(hash, a.take(k)) == chain_hash(hash, b.take(k)) by {
        assert(a.take(k) =~= a.take(i).take(k));
        assert(b.take(k) =~= b.take(i).take(k));
    }
}

/// Changing the shape of a chain changes the seeds after the change: when two
/// chains first differ at position `i`, the seeds of unit `i + 1` differ, and
/// when they differ at position `i` only, all seeds after it differ.
pub proof fn lemma_ping_diverges(hash: u64, a: Seq<u64>, b: Seq<u64>, i: int)
    requires
        0 <= i < a.len(),
        i < b.len(),
        a.take(i) == b.take(i),
        a[i] != b[i],
    ensures
        chain_hash(hash, a.take(i + 1)) != chain_hash(hash, b.take(i + 1)),
        a.len() == b.len() && a.skip(i + 1) == b.skip(i + 1) ==> forall|k: int|
            i < k <= a.len() ==> #[trigger] chain_hash(hash, a.take(k)) != chain_hash(hash, b.take(k)),
{
    lemma_ping_deterministic(hash, a, b, i);
    assert(a.take(i + 1).drop_last() =~= a.take(i));
    assert(b.take(i + 1).drop_last() =~= b.take(i));
    let h = chain_hash(hash, a.take(i));
    lemma_mix_injective(h, a[i], h, b[i]);
    if a.len() == b.len() && a.skip(i + 1) == b.skip(i + 1) {
        lemma_ping_stays_apart(hash, a, b, i, a.len() as int);
    }
}

/// Seeds that differed after position `i` stay different while the chains
/// agree.
proof fn lemma_ping_stays_apart(hash: u64, a: Seq<u64>, b: Seq<u64>, i: int, k: int)
    requires
        0 <= i < k <= a.len(),
        a.len() == b.len(),
        a.skip(i + 1) == b.skip(i + 1),
        chain_hash(hash, a.take(i + 1)) != chain_hash(hash, b.take(i + 1)),
    ensures
        forall|m: int| i < m <= k ==> #[trigger] chain_hash(hash, a.take(m)) != chain_hash(hash, b.take(m)),
    decreases k - i,
{
    if k > i + 1 {
        lemma_ping_stays_apart(hash, a, b, i, k - 1);
        assert(a.take(k).drop_last() =~= a.take(k - 1));
        assert(b.take(k).drop_last() =~= b.take(k - 1));
        assert(a[k - 1] == a.skip(i + 1)[k - 1 - (i + 1)]);
        assert(b[k - 1] == b.skip(i + 1)[k - 1 - (i + 1)]);
        lemma_mix_injective(
            chain_hash(hash, a.take(k - 1)),
            a[k - 1],
            chain_hash(hash, b.take(k - 1)),
            b[k - 1],
        );
    }
}

/// A tiny hash: a running 64-bit state that absorbs one 64-bit word at a time.
#[derive(Clone, Copy, Debug, PartialEq, Eq, Hash)]
pub struct AttoHash {
    state: u64,
}

impl View for AttoHash {
    type V = u64;

    closed spec fn view(&self) -> u64 {
        self.state
    }
}

impl AttoHash {
    /// A hash whose state is `seed`.
    pub fn new(seed: u64) -> (r: AttoHash)
        ensures
            r@ == seed,
    {
        AttoHash { state: seed }
    }

    /// The current state.
    pub fn state(self) -> (r: u64)
        ensures
            r == self@,
    {
        self.state
    }

    /// Absorb `data` into the hash.
    pub fn hash(self, data: u64) -> (r: AttoHash)
        ensures
            r@ == mix(self@, data),
    {
        let a: u64 = self.state ^ data;
        proof {
            let k = MIX_MULTIPLIER as int;
            assert(a as int * k <= 0xffff_ffff_ffff_ffff * k) by (nonlinear_arith)
                requires
                    0 <= a <= 0xffff_ffff_ffff_ffff,
                    0 <= k,
            ;
        }
        let wide: u128 = a as u128 * MIX_MULTIPLIER as u128;
        let x = (#[verifier::truncate] (wide as u64));
        AttoHash { state: x ^ (x >> 32u64) }
    }
}

} // verus!

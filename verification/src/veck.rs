//! Audit-subset sampling and index utilities.  The subset is drawn by
//! rejection from a deterministic word stream seeded with a Fiat-Shamir
//! challenge, so that prover and verifier derive the same indices
//! independently; the whole derivation is specified as a function of the
//! seed alone.

use vstd::prelude::*;
use vstd::relations::{sorted_by, total_ordering};
use vstd::seq_lib::lemma_sorted_unique;
use crate::domain::is_pow2;
use crate::rng::{stdrng_word, SeededRng};
use crate::scalar::{be_bytes_int, fr_from_be_bytes_mod_order, lemma_value_injective, modulus,
    scalar_be_bytes, Scalar};
use crate::Error;

verus! {

/// The ordering by which audit indices are canonically arranged.
pub open spec fn index_le() -> spec_fn(usize, usize) -> bool {
    |a: usize, b: usize| a <= b
}

/// The canonical ascending arrangement of an index sequence.
pub open spec fn sorted_indices(s: Seq<usize>) -> Seq<usize> {
    s.sort_by(index_le())
}

/// No index occurs twice.
pub open spec fn distinct_seq(s: Seq<usize>) -> bool {
    forall|i: int, j: int| 0 <= i < j < s.len() ==> s[i] != s[j]
}

/// `index_le` is a total order.
pub proof fn lemma_index_le_total()
    ensures
        total_ordering(index_le()),
{
    assert forall|x: usize, y: usize| #[trigger] index_le()(x, y) || #[trigger] index_le()(y, x) by {
        assert(index_le()(x, y) == (x <= y));
        assert(index_le()(y, x) == (y <= x));
    }
}

/// Arranges indices in ascending order: the result is the canonical
/// sorted arrangement of the input.
pub fn sort_indices(v: &Vec<usize>) -> (r: Vec<usize>)
    ensures
        r@ == sorted_indices(v@),
        r@.to_multiset() == v@.to_multiset(),
        sorted_by(r@, index_le()),
        r@.len() == v@.len(),
{
    let mut work: Vec<usize> = Vec::new();
    let mut i: usize = 0;
    while i < v.len()
        invariant
            i <= v@.len(),
            work@ =~= v@.subrange(0, i as int),
        decreases v@.len() - i,
    {
        work.push(v[i]);
        i += 1;
    }
    proof {
        assert(work@ =~= v@);
    }
    let mut out: Vec<usize> = Vec::new();
    proof {
        broadcast use vstd::seq_lib::group_to_multiset_ensures;
        broadcast use vstd::multiset::group_multiset_axioms;
    }
    while work.len() > 0
        invariant
            out@.to_multiset().add(work@.to_multiset()) =~= v@.to_multiset(),
            sorted_by(out@, index_le()),
            forall|a: int, b: int|
                0 <= a < out@.len() && 0 <= b < work@.len() ==> out@[a] <= work@[b],
        decreases work@.len(),
    {
        proof {
            broadcast use vstd::seq_lib::group_to_multiset_ensures;
            broadcast use vstd::multiset::group_multiset_axioms;
        }
        let mut best: usize = 0;
        let mut j: usize = 1;
        while j < work.len()
            invariant
                work@.len() > 0,
                best < j,
                j <= work@.len(),
                forall|t: int| 0 <= t < j ==> work@[best as int] <= work@[t],
            decreases work@.len() - j,
        {
            if work[j] < work[best] {
                best = j;
            }
            j += 1;
        }
        let m = work[best];
        let ghost old_out = out@;
        let ghost old_work = work@;
        out.push(m);
        let _ = work.remove(best);
        proof {
            assert(out@.to_multiset() =~= old_out.to_multiset().insert(m));
            assert(work@.to_multiset() =~= old_work.to_multiset().remove(m));
            assert(old_work.to_multiset().count(m) > 0);
            assert(out@.to_multiset().add(work@.to_multiset()) =~= old_out.to_multiset().add(
                old_work.to_multiset(),
            ));
            assert forall|a: int, b: int|
                0 <= a < out@.len() && 0 <= b < work@.len() implies out@[a] <= work@[b] by {
                if a < out@.len() - 1 {
                    assert(old_work.contains(work@[b]));
                } else {
                    assert(old_work.contains(work@[b]));
                }
            }
            assert(sorted_by(out@, index_le())) by {
                assert forall|a: int, b: int| 0 <= a < b < out@.len() implies #[trigger] index_le()(
                    out@[a],
                    out@[b],
                ) by {
                    if b < out@.len() - 1 {
                        assert(index_le()(old_out[a], old_out[b]));
                    } else {
                        assert(old_work.contains(m));
                        if a < out@.len() - 1 {
                            assert(out@[a] == old_out[a]);
                        }
                    }
                }
            }
        }
    }
    proof {
        broadcast use vstd::seq_lib::group_to_multiset_ensures;
        assert(work@.to_multiset() =~= Seq::<usize>::empty().to_multiset());
        assert(out@.to_multiset() =~= v@.to_multiset());
        assert(out@.len() == out@.to_multiset().len());
        assert(v@.len() == v@.to_multiset().len());
        lemma_index_le_total();
        v@.lemma_sort_by_ensures(index_le());
        lemma_sorted_unique(out@, v@.sort_by(index_le()), index_le());
        assert(out@ =~= sorted_indices(v@));
    }
    out
}

/// The index drawn at step `k` of the stream that starts at `start`:
/// the 64-bit word is mapped into `[0, n)` by widening multiplication.
pub open spec fn draw_at(seed: Seq<u8>, start: int, n: int, k: int) -> int {
    (stdrng_word(seed, start + k) * n) / 0x10000000000000000
}

/// The distinct indices retained after `k` rejection-sampling steps.
pub open spec fn selected(seed: Seq<u8>, start: int, n: int, k: nat) -> Seq<usize>
    decreases k,
{
    if k == 0 {
        Seq::empty()
    } else {
        let prev = selected(seed, start, n, (k - 1) as nat);
        let d = draw_at(seed, start, n, k - 1) as usize;
        if prev.contains(d) {
            prev
        } else {
            prev.push(d)
        }
    }
}

/// Each draw lands inside the domain.
pub proof fn lemma_draw_in_range(seed: Seq<u8>, start: int, n: int, k: int)
    requires
        0 < n <= usize::MAX,
    ensures
        0 <= draw_at(seed, start, n, k) < n,
        draw_at(seed, start, n, k) as usize == draw_at(seed, start, n, k),
{
    let w = stdrng_word(seed, start + k) as int;
    assert(w * n <= 0xffffffffffffffff * n) by (nonlinear_arith)
        requires w <= 0xffffffffffffffff, n > 0;
    assert(0xffffffffffffffff * n < 0x10000000000000000 * n) by (nonlinear_arith)
        requires n > 0;
    assert((w * n) / 0x10000000000000000 < n) by (nonlinear_arith)
        requires w * n < 0x10000000000000000 * n, n > 0;
    assert(w * n >= 0) by (nonlinear_arith)
        requires w >= 0, n > 0;
}

/// What rejection sampling guarantees of the retained indices: they are
/// distinct, inside the domain, and grow monotonically with the step
/// count.
pub proof fn lemma_selected_invariants(seed: Seq<u8>, start: int, n: int, k: nat)
    requires
        0 < n <= usize::MAX,
    ensures
        distinct_seq(selected(seed, start, n, k)),
        forall|i: int|
            0 <= i < selected(seed, start, n, k).len() ==> (#[trigger] selected(
                seed,
                start,
                n,
                k,
            )[i]) < n,
        selected(seed, start, n, k).len() <= k,
    decreases k,
{
    if k > 0 {
        lemma_selected_invariants(seed, start, n, (k - 1) as nat);
        lemma_draw_in_range(seed, start, n, k - 1);
        let prev = selected(seed, start, n, (k - 1) as nat);
        let d = draw_at(seed, start, n, k - 1) as usize;
        if !prev.contains(d) {
            assert(forall|i: int| 0 <= i < prev.len() ==> prev[i] != d);
        }
    }
}

/// Retained indices only accumulate: an earlier step's sequence is a
/// prefix of a later step's.
pub proof fn lemma_selected_prefix(seed: Seq<u8>, start: int, n: int, k1: nat, k2: nat)
    requires
        k1 <= k2,
    ensures
        selected(seed, start, n, k1).is_prefix_of(selected(seed, start, n, k2)),
    decreases k2,
{
    if k1 < k2 {
        lemma_selected_prefix(seed, start, n, k1, (k2 - 1) as nat);
    }
}

/// Sampling is deterministic: two results of `random_subset_indices`
/// over the same stream with the same size are identical, index for
/// index — prover and verifier derive the same subset independently.
pub proof fn lemma_sample_unique(seed: Seq<u8>, start: int, n: int, v1: Seq<usize>, v2: Seq<usize>)
    requires
        exists|k: nat| v1 == selected(seed, start, n, k),
        exists|k: nat| v2 == selected(seed, start, n, k),
        v1.len() == v2.len(),
    ensures
        v1 == v2,
{
    let k1 = choose|k: nat| v1 == selected(seed, start, n, k);
    let k2 = choose|k: nat| v2 == selected(seed, start, n, k);
    lemma_sample_deterministic(seed, start, n, k1, k2);
}

/// Any two step counts that retain the same number of indices retain the
/// same indices.
pub proof fn lemma_sample_deterministic(seed: Seq<u8>, start: int, n: int, k1: nat, k2: nat)
    requires
        selected(seed, start, n, k1).len() == selected(seed, start, n, k2).len(),
    ensures
        selected(seed, start, n, k1) == selected(seed, start, n, k2),
{
    if k1 <= k2 {
        lemma_selected_prefix(seed, start, n, k1, k2);
        assert(selected(seed, start, n, k1) =~= selected(seed, start, n, k2));
    } else {
        lemma_selected_prefix(seed, start, n, k2, k1);
        assert(selected(seed, start, n, k1) =~= selected(seed, start, n, k2));
    }
}

/// Membership test by linear scan.
fn vec_contains(v: &Vec<usize>, x: usize) -> (r: bool)
    ensures
        r == v@.contains(x),
{
    let mut i: usize = 0;
    while i < v.len()
        invariant
            i <= v@.len(),
            forall|j: int| 0 <= j < i ==> v@[j] != x,
        decreases v@.len() - i,
    {
        if v[i] == x {
            assert(v@[i as int] == x);
            return true;
        }
        i += 1;
    }
    assert(!v@.contains(x));
    false
}

/// How many words the sampler may draw before giving up.  Rejection
/// sampling terminates only with probability one, so the verified loop
/// carries this explicit budget; it is far beyond what any machine could
/// draw, so in practice the budget never runs out.
pub const SAMPLE_DRAW_BUDGET: u64 = 0xffffffffffffffff;

/// Draws `subset_size` distinct indices below `evals_len` by rejection
/// sampling from the given deterministic generator.  The result is a pure
/// function of the generator's seed and position: it equals the retained
/// indices of the specified stream at some step count, which
/// `lemma_sample_deterministic` pins down to a single possible sequence
/// for a given size.  Fails with `InvalidParameters` exactly when the
/// subset is larger than the domain, and with `SamplingExhausted` exactly
/// when the whole draw budget retains too few distinct indices.
pub fn random_subset_indices(evals_len: usize, subset_size: usize, rng: &mut SeededRng) -> (r:
    Result<Vec<usize>, Error>)
    ensures
        final(rng).seed_of() == old(rng).seed_of(),
        r.is_ok() <==> (subset_size <= evals_len && selected(
            old(rng).seed_of(),
            old(rng).pos_of(),
            evals_len as int,
            SAMPLE_DRAW_BUDGET as nat,
        ).len() >= subset_size),
        r == Err::<Vec<usize>, Error>(Error::InvalidParameters) <==> subset_size > evals_len,
        r == Err::<Vec<usize>, Error>(Error::SamplingExhausted) <==> subset_size <= evals_len
            && selected(
            old(rng).seed_of(),
            old(rng).pos_of(),
            evals_len as int,
            SAMPLE_DRAW_BUDGET as nat,
        ).len() < subset_size,
        r.is_ok() ==> {
            let v = r.unwrap();
            &&& v@.len() == subset_size
            &&& distinct_seq(v@)
            &&& (forall|i: int| 0 <= i < v@.len() ==> (#[trigger] v@[i]) < evals_len)
            &&& exists|k: nat|
                v@ == selected(old(rng).seed_of(), old(rng).pos_of(), evals_len as int, k)
        },
{
    if subset_size > evals_len {
        return Err(Error::InvalidParameters);
    }
    let ghost seed = rng.seed_of();
    let ghost start = rng.pos_of();
    let n = evals_len;
    let mut spent: u64 = 0;
    let mut out: Vec<usize> = Vec::new();
    while out.len() < subset_size && spent < SAMPLE_DRAW_BUDGET
        invariant
            subset_size <= n,
            out@.len() <= subset_size,
            rng.seed_of() == seed,
            rng.pos_of() == start + spent,
            out@ == selected(seed, start, n as int, spent as nat),
        decreases SAMPLE_DRAW_BUDGET - spent,
    {
        let ghost k = spent as nat;
        let w = rng.next_word();
        proof {
            assert((w as int) * (n as int) < 0x100000000000000000000000000000000)
                by (nonlinear_arith)
                requires
                    w <= 0xffffffffffffffffu64,
                    n <= 0xffffffffffffffffu64,
            ;
        }
        let prod: u128 = (w as u128) * (n as u128);
        let idx128: u128 = prod / 0x10000000000000000u128;
        proof {
            lemma_draw_in_range(seed, start, n as int, k as int);
        }
        let idx: usize = idx128 as usize;
        proof {
            assert(idx == draw_at(seed, start, n as int, k as int) as usize);
        }
        if !vec_contains(&out, idx) {
            out.push(idx);
        }
        spent += 1;
        proof {
            assert(out@ == selected(seed, start, n as int, spent as nat));
        }
    }
    if out.len() < subset_size {
        proof {
            lemma_selected_prefix(
                seed,
                start,
                n as int,
                spent as nat,
                SAMPLE_DRAW_BUDGET as nat,
            );
            assert(selected(seed, start, n as int, SAMPLE_DRAW_BUDGET as nat).len() == out@.len());
        }
        return Err(Error::SamplingExhausted);
    }
    proof {
        if n > 0 {
            lemma_selected_invariants(seed, start, n as int, spent as nat);
        }
        if subset_size <= n && selected(seed, start, n as int, SAMPLE_DRAW_BUDGET as nat).len()
            < subset_size {
            lemma_selected_prefix(seed, start, n as int, spent as nat, SAMPLE_DRAW_BUDGET as nat);
        }
    }
    Ok(out)
}


/// The Keccak-256 digest of a byte string: a pure function of its input.
pub uninterp spec fn keccak_of(b: Seq<u8>) -> Seq<u8>;

/// Relies on `sha3::Keccak256`: a 32-byte digest that depends on the
/// input bytes alone.
#[verifier::external_body]
fn keccak256(b: &Vec<u8>) -> (r: Vec<u8>)
    ensures
        r@ == keccak_of(b@),
        r@.len() == 32,
{
    let digest = <sha3::Keccak256 as sha3::Digest>::digest(b.as_slice());
    digest.to_vec()
}

/// Derives the Fiat-Shamir seed from a commitment: hash the commitment
/// bytes, reduce the digest modulo the field order, and re-encode the
/// resulting scalar as 32 big-endian bytes.  The result is a pure
/// function of the commitment, so prover and verifier derive the same
/// seed independently; `lemma_value_injective` pins the witness scalar,
/// and with it the seed, to a single possible value.
pub fn challenge_seed(commitment: &Vec<u8>) -> (r: Vec<u8>)
    ensures
        r@.len() == 32,
        exists|s: Scalar|
            s.wf() && s.value() == be_bytes_int(keccak_of(commitment@)) % modulus() && r@
                == #[trigger] scalar_be_bytes(s),
{
    let digest = keccak256(commitment);
    let reduced = fr_from_be_bytes_mod_order(&digest);
    let out = reduced.to_be_bytes();
    proof {
        assert(reduced.wf() && reduced.value() == be_bytes_int(keccak_of(commitment@))
            % modulus() && out@ == scalar_be_bytes(reduced));
    }
    out
}

/// The derived seed is pinned by the commitment: any two byte strings
/// meeting `challenge_seed`'s contract for the same commitment are
/// equal, because a scalar value determines its limbs and with them its
/// big-endian encoding.
pub proof fn lemma_challenge_seed_unique(commitment: Seq<u8>, r1: Seq<u8>, r2: Seq<u8>)
    requires
        exists|s: Scalar|
            s.wf() && s.value() == be_bytes_int(keccak_of(commitment)) % modulus() && r1
                == #[trigger] scalar_be_bytes(s),
        exists|s: Scalar|
            s.wf() && s.value() == be_bytes_int(keccak_of(commitment)) % modulus() && r2
                == #[trigger] scalar_be_bytes(s),
    ensures
        r1 == r2,
{
    let s1 = choose|s: Scalar|
        s.wf() && s.value() == be_bytes_int(keccak_of(commitment)) % modulus() && r1
            == #[trigger] scalar_be_bytes(s);
    let s2 = choose|s: Scalar|
        s.wf() && s.value() == be_bytes_int(keccak_of(commitment)) % modulus() && r2
            == #[trigger] scalar_be_bytes(s);
    lemma_value_injective(s1, s2);
}

/// The least power of two not below `n`.
pub fn next_pow2(n: usize) -> (r: usize)
    requires
        n <= 0x80000000,
    ensures
        is_pow2(r as int),
        r >= n,
        forall|p: int| is_pow2(p) && p >= n ==> r <= p,
{
    let mut m: usize = 1;
    while m < n
        invariant
            is_pow2(m as int),
            1 <= m,
            n <= 0x80000000,
            forall|p: int| is_pow2(p) && p >= n ==> m <= p,
        decreases 2 * n - m,
    {
        proof {
            assert forall|p: int| is_pow2(p) && p >= n implies 2 * m <= p by {
                crate::domain::lemma_pow2_gap(m as int, p);
            }
        }
        m = m * 2;
    }
    m
}

/// Pads an evaluation vector with zero elements up to the next power of
/// two, so that its length matches an evaluation-domain size; the
/// original entries keep their positions.
pub fn pad_to_pow2(data: &Vec<Scalar>) -> (r: Vec<Scalar>)
    requires
        data@.len() <= 0x80000000,
    ensures
        is_pow2(r@.len() as int),
        r@.len() >= data@.len(),
        forall|p: int| is_pow2(p) && p >= data@.len() ==> r@.len() <= p,
        forall|i: int| 0 <= i < data@.len() ==> #[trigger] r@[i] == data@[i],
        forall|i: int| data@.len() <= i < r@.len() ==> (#[trigger] r@[i]).value() == 0,
{
    let target = next_pow2(data.len());
    let mut out: Vec<Scalar> = Vec::new();
    let mut i: usize = 0;
    while i < data.len()
        invariant
            i <= data@.len(),
            out@ =~= data@.subrange(0, i as int),
        decreases data@.len() - i,
    {
        out.push(data[i]);
        i += 1;
    }
    proof {
        assert(out@ =~= data@);
    }
    let zero = Scalar::zero();
    while out.len() < target
        invariant
            data@.len() <= out@.len() <= target,
            zero.value() == 0,
            forall|j: int| 0 <= j < data@.len() ==> #[trigger] out@[j] == data@[j],
            forall|j: int| data@.len() <= j < out@.len() ==> (#[trigger] out@[j]).value() == 0,
        decreases target - out@.len(),
    {
        out.push(zero);
    }
    out
}

} // verus!

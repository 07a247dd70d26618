//! The encryption proof: for every evaluation, a full ElGamal cipher, the
//! eight chunk ciphers, and the public commitment to the randomness used,
//! kept in parallel arrays whose index `i` always refers to the same
//! logical item.  Construction is a fold over the items; partial results
//! over disjoint ranges combine by order-preserving concatenation with the
//! empty proof as identity, so any work-partitioning scheme yields the
//! same per-index correspondence.  Projection onto an audit subset is a
//! pure gather in ascending index order.
//!
//! A per-chunk range proof would normally ride alongside each chunk
//! cipher, but that proof is a product of an external pairing-based
//! primitive with no available provider, so no such array is carried
//! here.  The bound it would attest — every chunk below `2^32` — is
//! stated and proved once and for all in `is_split`.

use vstd::prelude::*;
use crate::elgamal::{cipher_eqv, combined_randomness, encrypt_with_randomness, is_encryption_of,
    Cipher};
use crate::point::{g1_gen_mul, g1_gen_mul_of, G1Point};
use crate::rng::EntropyRng;
use crate::scalar::Scalar;
use crate::split::{is_split, SplitScalar, N_CHUNKS};
use crate::domain::Domain;
use crate::veck::{sort_indices, sorted_indices};
use crate::Error;

verus! {

/// The aggregate proof over a data vector.
#[derive(Debug)]
pub struct EncryptionProof {
    /// Full cipher of item `i`.
    pub ciphers: Vec<Cipher>,
    /// The `N_CHUNKS` chunk ciphers of item `i`.
    pub short_ciphers: Vec<Vec<Cipher>>,
    /// Commitment `r_i * G` to the randomness used for item `i`.
    pub random_encryption_points: Vec<G1Point>,
}

impl EncryptionProof {
    /// Number of items covered.
    pub open spec fn len_spec(self) -> int {
        self.ciphers@.len() as int
    }

    /// The three arrays cover the same items, every item carries exactly
    /// `N_CHUNKS` chunk ciphers, and every group element is valid.
    pub open spec fn wf(self) -> bool {
        &&& self.short_ciphers@.len() == self.ciphers@.len()
        &&& self.random_encryption_points@.len() == self.ciphers@.len()
        &&& forall|i: int|
            0 <= i < self.ciphers@.len() ==> (#[trigger] self.short_ciphers@[i])@.len() == N_CHUNKS
        &&& forall|i: int| 0 <= i < self.ciphers@.len() ==> (#[trigger] self.ciphers@[i]).wf()
        &&& forall|i: int, k: int|
            0 <= i < self.ciphers@.len() && 0 <= k < N_CHUNKS ==> (#[trigger] self.short_ciphers@[i]@[k]).wf()
        &&& forall|i: int|
            0 <= i < self.ciphers@.len() ==> (#[trigger] self.random_encryption_points@[i]).wf()
    }

    /// The empty proof: identity of `extend`.
    pub fn default() -> (r: EncryptionProof)
        ensures
            r.len_spec() == 0,
            r.wf(),
    {
        EncryptionProof {
            ciphers: Vec::new(),
            short_ciphers: Vec::new(),
            random_encryption_points: Vec::new(),
        }
    }
}

/// Item `i` of the proof encrypts the evaluation `ev` under `pk`: some
/// chunk decomposition of `ev` and some chunk randomness explain the
/// short ciphers, the full cipher uses the combined randomness, and the
/// recorded point commits to that randomness.
pub open spec fn encrypts_item(ep: EncryptionProof, i: int, ev: Scalar, pk: Seq<u8>) -> bool {
    exists|sp: Seq<Scalar>, rs: Seq<Scalar>|
        {
            &&& is_split(sp, ev.value())
            &&& rs.len() == N_CHUNKS
            &&& (forall|k: int| 0 <= k < N_CHUNKS ==> (#[trigger] rs[k]).wf())
            &&& (forall|k: int|
                0 <= k < N_CHUNKS ==> is_encryption_of(
                    #[trigger] ep.short_ciphers@[i]@[k],
                    pk,
                    sp[k].value(),
                    rs[k].value(),
                ))
            &&& is_encryption_of(ep.ciphers@[i], pk, ev.value(), combined_randomness(rs))
            &&& ep.random_encryption_points@[i]@ == g1_gen_mul_of(combined_randomness(rs))
        }
}

/// The whole proof encrypts the evaluation vector under `pk`, item by
/// item, in order.
pub open spec fn encrypts(ep: EncryptionProof, evals: Seq<Scalar>, pk: Seq<u8>) -> bool {
    &&& ep.ciphers@.len() == evals.len()
    &&& ep.short_ciphers@.len() == evals.len()
    &&& ep.random_encryption_points@.len() == evals.len()
    &&& forall|i: int| 0 <= i < evals.len() ==> encrypts_item(ep, i, #[trigger] evals[i], pk)
}

impl EncryptionProof {
    /// Appends one item: splits the evaluation, encrypts each chunk with
    /// fresh randomness, encrypts the full value with the combined
    /// randomness, and records the commitment to it.  Existing items are
    /// untouched.
    pub fn append(self, eval: &Scalar, encryption_pk: &G1Point, rng: &mut EntropyRng) -> (r:
        EncryptionProof)
        requires
            eval.wf(),
            encryption_pk.wf(),
            self.short_ciphers@.len() == self.ciphers@.len(),
            self.random_encryption_points@.len() == self.ciphers@.len(),
        ensures
            r.ciphers@.len() == self.ciphers@.len() + 1,
            r.short_ciphers@.len() == self.short_ciphers@.len() + 1,
            r.random_encryption_points@.len() == self.random_encryption_points@.len() + 1,
            forall|j: int|
                0 <= j < self.ciphers@.len() ==> #[trigger] r.ciphers@[j] == self.ciphers@[j],
            forall|j: int|
                0 <= j < self.short_ciphers@.len() ==> #[trigger] r.short_ciphers@[j]
                    == self.short_ciphers@[j],
            forall|j: int|
                0 <= j < self.random_encryption_points@.len()
                    ==> #[trigger] r.random_encryption_points@[j]
                    == self.random_encryption_points@[j],
            encrypts_item(r, self.ciphers@.len() as int, *eval, encryption_pk@),
            self.wf() ==> r.wf(),
    {
        let split_eval = SplitScalar::new(eval);
        let (sc, rand, rs_ghost) = split_eval.encrypt(encryption_pk, rng);
        let cipher = encrypt_with_randomness(eval, encryption_pk, &rand);
        let point = g1_gen_mul(&rand);
        let mut r = self;
        r.random_encryption_points.push(point);
        r.ciphers.push(cipher);
        r.short_ciphers.push(sc);
        proof {
            let i = r.ciphers@.len() - 1;
            let rs = rs_ghost@;
            assert(is_split(split_eval@, eval.value()));
            assert(forall|k: int|
                0 <= k < N_CHUNKS ==> is_encryption_of(
                    #[trigger] r.short_ciphers@[i]@[k],
                    encryption_pk@,
                    split_eval@[k].value(),
                    rs[k].value(),
                ));
            assert(is_encryption_of(r.ciphers@[i], encryption_pk@, eval.value(),
                combined_randomness(rs)));
            assert(r.random_encryption_points@[i]@ == g1_gen_mul_of(combined_randomness(rs)));
            assert(encrypts_item(r, i, *eval, encryption_pk@));
        }
        r
    }

    /// Concatenates two proofs, keeping left-to-right item order.
    pub fn extend(self, other: EncryptionProof) -> (r: EncryptionProof)
        ensures
            r.ciphers@ == self.ciphers@ + other.ciphers@,
            r.short_ciphers@ == self.short_ciphers@ + other.short_ciphers@,
            r.random_encryption_points@ == self.random_encryption_points@
                + other.random_encryption_points@,
    {
        let mut r = self;
        let mut o = other;
        r.ciphers.append(&mut o.ciphers);
        r.short_ciphers.append(&mut o.short_ciphers);
        r.random_encryption_points.append(&mut o.random_encryption_points);
        r
    }

    /// Builds the proof for a whole evaluation vector by a sequential
    /// left-to-right fold; `ciphers[i]` corresponds to `evaluations[i]`
    /// for every `i`.
    pub fn enc1(evaluations: &Vec<Scalar>, encryption_pk: &G1Point, rng: &mut EntropyRng) -> (r:
        EncryptionProof)
        requires
            forall|i: int| 0 <= i < evaluations@.len() ==> (#[trigger] evaluations@[i]).wf(),
            encryption_pk.wf(),
        ensures
            encrypts(r, evaluations@, encryption_pk@),
            r.wf(),
    {
        let mut acc = EncryptionProof::default();
        let mut i: usize = 0;
        proof {
            assert(encrypts(acc, evaluations@.subrange(0, 0), encryption_pk@));
        }
        while i < evaluations.len()
            invariant
                i <= evaluations@.len(),
                forall|j: int| 0 <= j < evaluations@.len() ==> (#[trigger] evaluations@[j]).wf(),
                encryption_pk.wf(),
                acc.wf(),
                encrypts(acc, evaluations@.subrange(0, i as int), encryption_pk@),
            decreases evaluations@.len() - i,
        {
            let ghost prefix = evaluations@.subrange(0, i as int);
            let acc2 = acc.append(&evaluations[i], encryption_pk, rng);
            proof {
                assert(evaluations@.subrange(0, i + 1) =~= prefix.push(evaluations@[i as int]));
                assert(forall|j: int|
                    0 <= j < prefix.len() ==> encrypts_item(acc, j, #[trigger] prefix[j],
                    encryption_pk@) ==> encrypts_item(acc2, j, prefix[j], encryption_pk@));
                assert(encrypts(acc2, evaluations@.subrange(0, i + 1), encryption_pk@));
            }
            acc = acc2;
            i += 1;
        }
        proof {
            assert(evaluations@.subrange(0, evaluations@.len() as int) =~= evaluations@);
        }
        acc
    }
}

/// Extending is compatible with what the parts encrypt: if two proofs
/// encrypt two evaluation vectors, their concatenation encrypts the
/// concatenated vector.  Together with `default` as identity this makes
/// the parallel merge discipline sound: partial results over disjoint
/// ranges can be combined in original order by any partitioning scheme.
pub proof fn lemma_extend_encrypts(
    a: EncryptionProof,
    b: EncryptionProof,
    r: EncryptionProof,
    ea: Seq<Scalar>,
    eb: Seq<Scalar>,
    pk: Seq<u8>,
)
    requires
        encrypts(a, ea, pk),
        encrypts(b, eb, pk),
        r.ciphers@ == a.ciphers@ + b.ciphers@,
        r.short_ciphers@ == a.short_ciphers@ + b.short_ciphers@,
        r.random_encryption_points@ == a.random_encryption_points@ + b.random_encryption_points@,
    ensures
        encrypts(r, ea + eb, pk),
{
    assert forall|i: int| 0 <= i < (ea + eb).len() implies encrypts_item(
        r,
        i,
        #[trigger] (ea + eb)[i],
        pk,
    ) by {
        if i < ea.len() {
            assert(encrypts_item(a, i, ea[i], pk));
            assert(r.ciphers@[i] == a.ciphers@[i]);
            assert(r.short_ciphers@[i] == a.short_ciphers@[i]);
            assert(r.random_encryption_points@[i] == a.random_encryption_points@[i]);
            assert((ea + eb)[i] == ea[i]);
        } else {
            let j = i - ea.len();
            assert(encrypts_item(b, j, eb[j], pk));
            assert(r.ciphers@[i] == b.ciphers@[j]);
            assert(r.short_ciphers@[i] == b.short_ciphers@[j]);
            assert(r.random_encryption_points@[i] == b.random_encryption_points@[j]);
            assert((ea + eb)[i] == eb[j]);
        }
    }
}

/// `sub` is the gather of `ep` through the index sequence `s`: entry `k`
/// of every array holds the same values as entry `s[k]` of `ep`.
pub open spec fn gathered(sub: EncryptionProof, ep: EncryptionProof, s: Seq<usize>) -> bool {
    &&& sub.ciphers@.len() == s.len()
    &&& sub.short_ciphers@.len() == s.len()
    &&& sub.random_encryption_points@.len() == s.len()
    &&& forall|k: int|
        0 <= k < s.len() ==> cipher_eqv(#[trigger] sub.ciphers@[k], ep.ciphers@[s[k] as int])
    &&& forall|k: int|
        0 <= k < s.len() ==> (#[trigger] sub.short_ciphers@[k])@.len() == ep.short_ciphers@[s[k] as int]@.len()
    &&& forall|k: int, t: int|
        0 <= k < s.len() && 0 <= t < ep.short_ciphers@[s[k] as int]@.len() ==> cipher_eqv(
            #[trigger] sub.short_ciphers@[k]@[t],
            ep.short_ciphers@[s[k] as int]@[t],
        )
    &&& forall|k: int|
        0 <= k < s.len() ==> (#[trigger] sub.random_encryption_points@[k])@
            == ep.random_encryption_points@[s[k] as int]@
}

impl EncryptionProof {
    /// Projects the proof onto an audit subset: a pure gather of the
    /// entries named by the indices, re-indexed in ascending index order.
    /// The source proof is never changed.  Fails exactly when an index
    /// falls outside the proof.
    pub fn subset(&self, indices: &Vec<usize>) -> (r: Result<EncryptionProof, Error>)
        requires
            self.wf(),
        ensures
            r.is_ok() <==> (forall|i: int|
                0 <= i < indices@.len() ==> (#[trigger] indices@[i]) < self.ciphers@.len()),
            r.is_err() ==> r == Err::<EncryptionProof, Error>(Error::InvalidParameters),
            r.is_ok() ==> gathered(r.unwrap(), *self, sorted_indices(indices@)),
            r.is_ok() ==> r.unwrap().wf(),
    {
        let s = sort_indices(indices);
        let n = self.ciphers.len();
        let mut k: usize = 0;
        while k < s.len()
            invariant
                k <= s@.len(),
                n == self.ciphers@.len(),
                s@.to_multiset() == indices@.to_multiset(),
                forall|j: int| 0 <= j < k ==> (#[trigger] s@[j]) < n,
            decreases s@.len() - k,
        {
            if s[k] >= n {
                proof {
                    broadcast use vstd::seq_lib::group_to_multiset_ensures;
                    assert(s@.contains(s@[k as int]));
                    assert(s@.to_multiset().count(s@[k as int]) > 0);
                    assert(indices@.to_multiset().count(s@[k as int]) > 0);
                    assert(indices@.contains(s@[k as int]));
                    let w = choose|w: int| 0 <= w < indices@.len() && indices@[w] == s@[k as int];
                    assert(indices@[w] >= n);
                }
                return Err(Error::InvalidParameters);
            }
            k += 1;
        }
        proof {
            broadcast use vstd::seq_lib::group_to_multiset_ensures;
            assert forall|i: int| 0 <= i < indices@.len() implies (#[trigger] indices@[i]) < n by {
                assert(indices@.contains(indices@[i]));
                assert(indices@.to_multiset().count(indices@[i]) > 0);
                assert(s@.to_multiset().count(indices@[i]) > 0);
                assert(s@.contains(indices@[i]));
                let w = choose|w: int| 0 <= w < s@.len() && s@[w] == indices@[i];
                assert(s@[w] < n);
            }
        }
        let mut ciphers: Vec<Cipher> = Vec::new();
        let mut short_ciphers: Vec<Vec<Cipher>> = Vec::new();
        let mut points: Vec<G1Point> = Vec::new();
        let mut k: usize = 0;
        while k < s.len()
            invariant
                k <= s@.len(),
                n == self.ciphers@.len(),
                self.wf(),
                forall|j: int| 0 <= j < s@.len() ==> (#[trigger] s@[j]) < n,
                ciphers@.len() == k,
                short_ciphers@.len() == k,
                points@.len() == k,
                forall|j: int|
                    0 <= j < k ==> cipher_eqv(#[trigger] ciphers@[j], self.ciphers@[s@[j] as int]),
                forall|j: int|
                    0 <= j < k ==> (#[trigger] short_ciphers@[j])@.len()
                        == self.short_ciphers@[s@[j] as int]@.len(),
                forall|j: int, t: int|
                    0 <= j < k && 0 <= t < self.short_ciphers@[s@[j] as int]@.len() ==> cipher_eqv(
                        #[trigger] short_ciphers@[j]@[t],
                        self.short_ciphers@[s@[j] as int]@[t],
                    ),
                forall|j: int|
                    0 <= j < k ==> (#[trigger] points@[j])@
                        == self.random_encryption_points@[s@[j] as int]@,
                forall|j: int| 0 <= j < k ==> (#[trigger] ciphers@[j]).wf(),
                forall|j: int, t: int|
                    0 <= j < k && 0 <= t < short_ciphers@[j]@.len() ==> (
                    #[trigger] short_ciphers@[j]@[t]).wf(),
                forall|j: int| 0 <= j < k ==> (#[trigger] points@[j]).wf(),
            decreases s@.len() - k,
        {
            let idx = s[k];
            ciphers.push(self.ciphers[idx].duplicate());
            let src = &self.short_ciphers[idx];
            let mut inner: Vec<Cipher> = Vec::new();
            let mut t: usize = 0;
            while t < src.len()
                invariant
                    t <= src@.len(),
                    inner@.len() == t,
                    forall|u: int| 0 <= u < t ==> cipher_eqv(#[trigger] inner@[u], src@[u]),
                decreases src@.len() - t,
            {
                inner.push(src[t].duplicate());
                t += 1;
            }
            short_ciphers.push(inner);
            points.push(self.random_encryption_points[idx].duplicate());
            k += 1;
        }
        Ok(EncryptionProof { ciphers, short_ciphers, random_encryption_points: points })
    }
}

/// Projection preserves what the proof encrypts: the gathered sub-proof
/// encrypts the correspondingly gathered evaluations.
pub proof fn lemma_subset_encrypts(
    sub: EncryptionProof,
    ep: EncryptionProof,
    s: Seq<usize>,
    evals: Seq<Scalar>,
    pk: Seq<u8>,
)
    requires
        ep.wf(),
        encrypts(ep, evals, pk),
        gathered(sub, ep, s),
        forall|k: int| 0 <= k < s.len() ==> (#[trigger] s[k]) < evals.len(),
    ensures
        encrypts(sub, s.map_values(|i: usize| evals[i as int]), pk),
{
    let sub_evals = s.map_values(|i: usize| evals[i as int]);
    assert(sub_evals.len() == s.len());
    assert forall|k: int| 0 <= k < sub_evals.len() implies encrypts_item(
        sub,
        k,
        #[trigger] sub_evals[k],
        pk,
    ) by {
        let i = s[k] as int;
        assert(encrypts_item(ep, i, evals[i], pk));
        let (sp, rs) = choose|sp: Seq<Scalar>, rs: Seq<Scalar>|
            {
                &&& is_split(sp, evals[i].value())
                &&& rs.len() == N_CHUNKS
                &&& (forall|t: int| 0 <= t < N_CHUNKS ==> (#[trigger] rs[t]).wf())
                &&& (forall|t: int|
                    0 <= t < N_CHUNKS ==> is_encryption_of(
                        #[trigger] ep.short_ciphers@[i]@[t],
                        pk,
                        sp[t].value(),
                        rs[t].value(),
                    ))
                &&& is_encryption_of(ep.ciphers@[i], pk, evals[i].value(), combined_randomness(rs))
                &&& ep.random_encryption_points@[i]@ == g1_gen_mul_of(combined_randomness(rs))
            };
        assert(sub_evals[k] == evals[i]);
        assert forall|t: int| 0 <= t < N_CHUNKS implies is_encryption_of(
            #[trigger] sub.short_ciphers@[k]@[t],
            pk,
            sp[t].value(),
            rs[t].value(),
        ) by {
            assert(is_encryption_of(ep.short_ciphers@[i]@[t], pk, sp[t].value(), rs[t].value()));
            assert(cipher_eqv(sub.short_ciphers@[k]@[t], ep.short_ciphers@[i]@[t]));
        }
        assert(is_encryption_of(sub.ciphers@[k], pk, evals[i].value(), combined_randomness(rs)));
        assert(encrypts_item(sub, k, sub_evals[k], pk));
    }
}


/// Projects an encryption proof and its evaluation vector onto an audit
/// subset, re-indexed into the smaller subdomain by ascending index: a
/// pure gather that leaves the sources untouched.  Fails exactly when
/// the index count does not match the subdomain or an index falls
/// outside the proof.
pub fn project(
    ep: &EncryptionProof,
    evaluations: &Vec<Scalar>,
    indices: &Vec<usize>,
    subdomain: &Domain,
) -> (r: Result<(EncryptionProof, Vec<Scalar>), Error>)
    requires
        ep.wf(),
        evaluations@.len() == ep.ciphers@.len(),
    ensures
        r.is_ok() <==> (indices@.len() == subdomain.size && (forall|i: int|
            0 <= i < indices@.len() ==> (#[trigger] indices@[i]) < ep.ciphers@.len())),
        r.is_err() ==> r == Err::<(EncryptionProof, Vec<Scalar>), Error>(
            Error::InvalidParameters,
        ),
        r.is_ok() ==> {
            let s = sorted_indices(indices@);
            &&& gathered(r.unwrap().0, *ep, s)
            &&& r.unwrap().0.wf()
            &&& r.unwrap().1@.len() == s.len()
            &&& (forall|k: int|
                0 <= k < s.len() ==> #[trigger] r.unwrap().1@[k] == evaluations@[s[k] as int])
        },
{
    if indices.len() != subdomain.size {
        return Err(Error::InvalidParameters);
    }
    let sub = match ep.subset(indices) {
        Ok(sub) => sub,
        Err(_) => {
            return Err(Error::InvalidParameters);
        },
    };
    let s = sort_indices(indices);
    let mut evals: Vec<Scalar> = Vec::new();
    let mut k: usize = 0;
    proof {
        broadcast use vstd::seq_lib::group_to_multiset_ensures;
        assert forall|j: int| 0 <= j < s@.len() implies (#[trigger] s@[j]) < ep.ciphers@.len() by {
            assert(s@.contains(s@[j]));
            assert(s@.to_multiset().count(s@[j]) > 0);
            assert(indices@.to_multiset().count(s@[j]) > 0);
            assert(indices@.contains(s@[j]));
            let w = choose|w: int| 0 <= w < indices@.len() && indices@[w] == s@[j];
            assert(indices@[w] < ep.ciphers@.len());
        }
    }
    while k < s.len()
        invariant
            k <= s@.len(),
            s@ == sorted_indices(indices@),
            evaluations@.len() == ep.ciphers@.len(),
            forall|j: int| 0 <= j < s@.len() ==> (#[trigger] s@[j]) < ep.ciphers@.len(),
            evals@.len() == k,
            forall|j: int| 0 <= j < k ==> #[trigger] evals@[j] == evaluations@[s@[j] as int],
        decreases s@.len() - k,
    {
        evals.push(evaluations[s[k]]);
        k += 1;
    }
    Ok((sub, evals))
}

} // verus!

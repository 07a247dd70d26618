//! Exponential ElGamal over `G1`.  A ciphertext is a pair of group
//! elements: one masking the plaintext-derived point `m * G`, one masking
//! the randomness.  A scalar can also be encrypted chunk by chunk, with
//! the chunk randomness combined in the chunk radix so that the short
//! ciphers stay homomorphically tied to the full cipher.

use vstd::prelude::*;
use vstd::arithmetic::div_mod::{lemma_add_mod_noop_right, lemma_mod_bound};
use crate::point::{g1_add, g1_add_of, g1_gen_mul, g1_gen_mul_of, g1_mul, g1_mul_of, g1_sub,
    g1_sub_of, G1Point};
use crate::rng::EntropyRng;
use crate::scalar::{fr_add, fr_mul, modulus, Scalar};
use crate::split::{chunk_base, SplitScalar, N_CHUNKS};

verus! {

/// An ElGamal ciphertext: `c0 = m * G + r * pk` masks the plaintext-derived
/// point, `c1 = r * G` masks the randomness.
#[derive(Debug, PartialEq, Eq)]
pub struct Cipher {
    pub c0: G1Point,
    pub c1: G1Point,
}

/// First ciphertext component for plaintext `m`, key `pk` and randomness `r`.
pub open spec fn enc_first(pk: Seq<u8>, m: int, r: int) -> Seq<u8> {
    g1_add_of(g1_gen_mul_of(m), g1_mul_of(pk, r))
}

/// Second ciphertext component for randomness `r`.
pub open spec fn enc_second(r: int) -> Seq<u8> {
    g1_gen_mul_of(r)
}

/// `c` is the encryption of `m` under `pk` with randomness `r`.
pub open spec fn is_encryption_of(c: Cipher, pk: Seq<u8>, m: int, r: int) -> bool {
    c.c0@ == enc_first(pk, m, r) && c.c1@ == enc_second(r) && c.c0.wf() && c.c1.wf()
}

/// Two ciphertexts holding the same pair of group elements.
pub open spec fn cipher_eqv(a: Cipher, b: Cipher) -> bool {
    a.c0@ == b.c0@ && a.c1@ == b.c1@
}

impl Cipher {
    /// Both components are valid group elements.
    pub open spec fn wf(self) -> bool {
        self.c0.wf() && self.c1.wf()
    }

    /// A copy holding the same pair of group elements.
    pub fn duplicate(&self) -> (r: Cipher)
        ensures
            cipher_eqv(r, *self),
    {
        Cipher { c0: self.c0.duplicate(), c1: self.c1.duplicate() }
    }
}

/// Encrypts `msg` under `pk` with the given randomness.
pub fn encrypt_with_randomness(msg: &Scalar, pk: &G1Point, r: &Scalar) -> (c: Cipher)
    requires
        msg.wf(),
        pk.wf(),
        r.wf(),
    ensures
        is_encryption_of(c, pk@, msg.value(), r.value()),
{
    Cipher { c0: g1_add(&g1_gen_mul(msg), &g1_mul(pk, r)), c1: g1_gen_mul(r) }
}

/// Recovers the plaintext-derived point `c0 - sk * c1`; for a ciphertext
/// built under `pk = sk * G` this is `m * G`.
pub fn decrypt(c: &Cipher, sk: &Scalar) -> (r: G1Point)
    requires
        c.wf(),
        sk.wf(),
    ensures
        r@ == g1_sub_of(c.c0@, g1_mul_of(c.c1@, sk.value())),
        r.wf(),
{
    g1_sub(&c.c0, &g1_mul(&c.c1, sk))
}

/// The chunk randomness combined in the chunk radix, reduced at each step:
/// `(rs[0] + 2^32 * (rs[1] + ...)) mod p`.
pub open spec fn combined_randomness(rs: Seq<Scalar>) -> int
    decreases rs.len(),
{
    if rs.len() == 0 {
        0
    } else {
        (rs[0].value() + chunk_base() * combined_randomness(rs.subrange(1, rs.len() as int)))
            % modulus()
    }
}

impl SplitScalar {
    /// Encrypts each chunk under `pk` with freshly drawn randomness and
    /// returns the short ciphers together with the combined randomness,
    /// which ties them to a full encryption of the reconstructed scalar.
    /// The chunk randomness itself is returned as a ghost witness.
    pub fn encrypt(&self, pk: &G1Point, rng: &mut EntropyRng) -> (r: (
        Vec<Cipher>,
        Scalar,
        Ghost<Seq<Scalar>>,
    ))
        requires
            self@.len() == N_CHUNKS,
            forall|k: int| 0 <= k < N_CHUNKS ==> (#[trigger] self@[k]).wf(),
            pk.wf(),
        ensures
            r.0@.len() == N_CHUNKS,
            r.1.wf(),
            r.2@.len() == N_CHUNKS,
            r.1.value() == combined_randomness(r.2@),
            forall|k: int|
                0 <= k < N_CHUNKS ==> (#[trigger] r.2@[k]).wf() && is_encryption_of(
                    r.0@[k],
                    pk@,
                    self@[k].value(),
                    r.2@[k].value(),
                ),
    {
        let mut ciphers: Vec<Cipher> = Vec::new();
        let mut rands: Vec<Scalar> = Vec::new();
        let mut k: usize = 0;
        while k < N_CHUNKS
            invariant
                k <= N_CHUNKS,
                ciphers@.len() == k,
                rands@.len() == k,
                self@.len() == N_CHUNKS,
                forall|j: int| 0 <= j < N_CHUNKS ==> (#[trigger] self@[j]).wf(),
                pk.wf(),
                forall|j: int|
                    0 <= j < k ==> (#[trigger] rands@[j]).wf() && is_encryption_of(
                        ciphers@[j],
                        pk@,
                        self@[j].value(),
                        rands@[j].value(),
                    ),
            decreases N_CHUNKS - k,
        {
            let rk = rng.rand_scalar();
            let chunk = self.splits()[k];
            ciphers.push(encrypt_with_randomness(&chunk, pk, &rk));
            rands.push(rk);
            k += 1;
        }
        let combined = fold_randomness(&rands);
        (ciphers, combined, Ghost(rands@))
    }
}

/// Combines the chunk randomness in the chunk radix, high chunk first.
fn fold_randomness(rands: &Vec<Scalar>) -> (r: Scalar)
    requires
        forall|j: int| 0 <= j < rands@.len() ==> (#[trigger] rands@[j]).wf(),
    ensures
        r.wf(),
        r.value() == combined_randomness(rands@),
{
    let radix = Scalar::from_u64(0x100000000);
    let mut acc = Scalar::zero();
    let mut k: usize = rands.len();
    proof {
        assert(rands@.subrange(k as int, rands@.len() as int) =~= Seq::<Scalar>::empty());
    }
    while k > 0
        invariant
            k <= rands@.len(),
            radix.wf(),
            radix.value() == chunk_base(),
            forall|j: int| 0 <= j < rands@.len() ==> (#[trigger] rands@[j]).wf(),
            acc.wf(),
            acc.value() == combined_randomness(rands@.subrange(k as int, rands@.len() as int)),
        decreases k,
    {
        k -= 1;
        let scaled = fr_mul(&radix, &acc);
        let next = fr_add(&rands[k], &scaled);
        proof {
            let tail = rands@.subrange(k + 1, rands@.len() as int);
            let whole = rands@.subrange(k as int, rands@.len() as int);
            assert(whole[0] == rands@[k as int]);
            assert(whole.subrange(1, whole.len() as int) =~= tail);
            lemma_mod_bound(combined_randomness(tail), modulus());
            lemma_add_mod_noop_right(
                rands@[k as int].value(),
                chunk_base() * combined_randomness(tail),
                modulus(),
            );
            assert((rands@[k as int].value() + (chunk_base() * combined_randomness(tail))
                % modulus()) % modulus() == (rands@[k as int].value() + chunk_base()
                * combined_randomness(tail)) % modulus());
        }
        acc = next;
    }
    proof {
        assert(rands@.subrange(0, rands@.len() as int) =~= rands@);
    }
    acc
}

} // verus!

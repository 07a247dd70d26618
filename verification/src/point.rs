//! Group elements of BLS12-381 `G1`, modelled by their canonical compressed
//! encoding (48 bytes).  The curve arithmetic itself is delegated to
//! `ark_ec`; each operation is named by an uninterpreted function of the
//! operands' plain byte and integer values, so that everything built on top
//! can be specified exactly relative to those names.

use vstd::prelude::*;
use crate::scalar::Scalar;
use ark_ec::{CurveGroup, PrimeGroup};
use ark_serialize::{CanonicalDeserialize, CanonicalSerialize};

verus! {

/// Length in bytes of a compressed `G1` encoding.
pub const POINT_BYTES: usize = 48;

/// Whether `ark_serialize` accepts these bytes as a compressed `G1`
/// element: a point on the curve, in the right subgroup, canonically
/// encoded.
pub uninterp spec fn g1_wf(b: Seq<u8>) -> bool;

/// The compressed encoding of `k * G`, for the fixed group generator `G`.
pub uninterp spec fn g1_gen_mul_of(k: int) -> Seq<u8>;

/// The compressed encoding of `k * P`, where `P` is the point encoded by
/// the first argument.
pub uninterp spec fn g1_mul_of(p: Seq<u8>, k: int) -> Seq<u8>;

/// The compressed encoding of the sum of the two encoded points.
pub uninterp spec fn g1_add_of(a: Seq<u8>, b: Seq<u8>) -> Seq<u8>;

/// The compressed encoding of the difference of the two encoded points.
pub uninterp spec fn g1_sub_of(a: Seq<u8>, b: Seq<u8>) -> Seq<u8>;

/// An element of `G1`, held in canonical compressed form.  Values are only
/// ever produced by the trusted curve operations or by validated
/// deserialization, so a well-formed point always decodes.
#[derive(Debug)]
pub struct G1Point {
    bytes: Vec<u8>,
}

impl View for G1Point {
    type V = Seq<u8>;

    closed spec fn view(&self) -> Seq<u8> {
        self.bytes@
    }
}

impl G1Point {
    /// The encoding is valid and of the fixed compressed length.
    pub open spec fn wf(self) -> bool {
        g1_wf(self@) && self@.len() == POINT_BYTES
    }

    /// The raw compressed encoding.
    pub fn as_bytes(&self) -> (r: &Vec<u8>)
        ensures
            r@ == self@,
    {
        &self.bytes
    }

    /// Accepts exactly the canonical 48-byte compressed encodings of valid
    /// group elements.
    pub fn from_bytes(b: &Vec<u8>) -> (r: Option<G1Point>)
        ensures
            r.is_some() <==> (b@.len() == POINT_BYTES && g1_wf(b@)),
            r.is_some() ==> r.unwrap()@ == b@ && r.unwrap().wf(),
    {
        if b.len() != POINT_BYTES {
            None
        } else {
            g1_try_deserialize(b)
        }
    }

    /// A copy of the same group element.
    pub fn duplicate(&self) -> (r: G1Point)
        ensures
            r@ == self@,
    {
        let r = G1Point { bytes: self.bytes.clone() };
        proof {
            assert(r.bytes@ =~= self.bytes@);
        }
        r
    }
}

impl PartialEq for G1Point {
    fn eq(&self, other: &G1Point) -> (r: bool) {
        let n = self.bytes.len();
        if n != other.bytes.len() {
            return false;
        }
        let mut i: usize = 0;
        while i < n
            invariant
                n == self.bytes@.len(),
                n == other.bytes@.len(),
                i <= n,
                forall|j: int| 0 <= j < i ==> self.bytes@[j] == other.bytes@[j],
            decreases n - i,
        {
            if self.bytes[i] != other.bytes[i] {
                return false;
            }
            i += 1;
        }
        proof {
            assert(self.bytes@ =~= other.bytes@);
        }
        true
    }
}

impl Eq for G1Point {}

impl vstd::std_specs::cmp::PartialEqSpecImpl for G1Point {
    open spec fn obeys_eq_spec() -> bool {
        true
    }

    open spec fn eq_spec(&self, other: &G1Point) -> bool {
        self@ == other@
    }
}

/// Relies on `ark_serialize`: `G1Affine::deserialize_compressed` succeeds
/// exactly on valid encodings, and re-serializing yields the same 48 bytes.
#[verifier::external_body]
fn g1_try_deserialize(b: &Vec<u8>) -> (r: Option<G1Point>)
    requires
        b@.len() == POINT_BYTES,
    ensures
        r.is_some() <==> g1_wf(b@),
        r.is_some() ==> r.unwrap()@ == b@ && r.unwrap().wf(),
{
    match ark_bls12_381::G1Affine::deserialize_compressed(b.as_slice()) {
        Ok(_) => Some(G1Point { bytes: b.clone() }),
        Err(_) => None,
    }
}

/// Relies on `ark_ec` scalar multiplication of the `G1` generator
/// (`G1Projective::generator() * k`); the result depends on the scalar
/// alone and is serialized in canonical compressed form.
#[verifier::external_body]
pub fn g1_gen_mul(k: &Scalar) -> (r: G1Point)
    requires
        k.wf(),
    ensures
        r@ == g1_gen_mul_of(k.value()),
        r.wf(),
{
    let f = ark_bls12_381::Fr::from(ark_ff::BigInt::new([k.l0, k.l1, k.l2, k.l3]));
    let p = (ark_bls12_381::G1Projective::generator() * f).into_affine();
    let mut bytes = Vec::new();
    p.serialize_compressed(&mut bytes).unwrap();
    G1Point { bytes }
}

/// Relies on `ark_ec` scalar multiplication in `G1`; the result depends
/// only on the encoded point and the scalar.
#[verifier::external_body]
pub fn g1_mul(p: &G1Point, k: &Scalar) -> (r: G1Point)
    requires
        p.wf(),
        k.wf(),
    ensures
        r@ == g1_mul_of(p@, k.value()),
        r.wf(),
{
    let pt = ark_bls12_381::G1Affine::deserialize_compressed(p.bytes.as_slice()).unwrap();
    let f = ark_bls12_381::Fr::from(ark_ff::BigInt::new([k.l0, k.l1, k.l2, k.l3]));
    let q = (pt * f).into_affine();
    let mut bytes = Vec::new();
    q.serialize_compressed(&mut bytes).unwrap();
    G1Point { bytes }
}

/// Relies on `ark_ec` point addition in `G1`; the result depends only on
/// the two encoded points.
#[verifier::external_body]
pub fn g1_add(a: &G1Point, b: &G1Point) -> (r: G1Point)
    requires
        a.wf(),
        b.wf(),
    ensures
        r@ == g1_add_of(a@, b@),
        r.wf(),
{
    let pa = ark_bls12_381::G1Affine::deserialize_compressed(a.bytes.as_slice()).unwrap();
    let pb = ark_bls12_381::G1Affine::deserialize_compressed(b.bytes.as_slice()).unwrap();
    let q = (pa + pb).into_affine();
    let mut bytes = Vec::new();
    q.serialize_compressed(&mut bytes).unwrap();
    G1Point { bytes }
}

/// Relies on `ark_ec` point subtraction in `G1`; the result depends only
/// on the two encoded points.
#[verifier::external_body]
pub fn g1_sub(a: &G1Point, b: &G1Point) -> (r: G1Point)
    requires
        a.wf(),
        b.wf(),
    ensures
        r@ == g1_sub_of(a@, b@),
        r.wf(),
{
    let pa = ark_bls12_381::G1Affine::deserialize_compressed(a.bytes.as_slice()).unwrap();
    let pb = ark_bls12_381::G1Affine::deserialize_compressed(b.bytes.as_slice()).unwrap();
    let q = (pa - pb).into_affine();
    let mut bytes = Vec::new();
    q.serialize_compressed(&mut bytes).unwrap();
    G1Point { bytes }
}

} // verus!

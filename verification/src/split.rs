//! Decomposition of a scalar into eight 32-bit chunks.  Chunked values are
//! what makes range proofs over encrypted scalars tractable; the bound
//! `chunk < 2^32` that such a proof attests is established here once and
//! for all, as is the exact reconstruction of the scalar from its chunks.

use vstd::prelude::*;
use crate::scalar::Scalar;

verus! {

/// Number of chunks a scalar splits into: `ceil(255 / 32) + 1`.
pub const N_CHUNKS: usize = 8;

/// Bit width of one chunk.
pub const MAX_BITS: usize = 32;

/// Radix in which chunks are read: `2^32`.
pub open spec fn chunk_base() -> int {
    0x100000000
}

/// The integer reconstructed from eight chunks, least significant first.
pub open spec fn chunks_value(s: Seq<Scalar>) -> int {
    s[0].value() + chunk_base() * (s[1].value() + chunk_base() * (s[2].value()
        + chunk_base() * (s[3].value() + chunk_base() * (s[4].value() + chunk_base() * (
    s[5].value() + chunk_base() * (s[6].value() + chunk_base() * s[7].value()))))))
}

/// The chunks are a faithful base-`2^32` decomposition of `v`: eight of
/// them, each bounded by the chunk radix, reconstructing `v` exactly.
pub open spec fn is_split(s: Seq<Scalar>, v: int) -> bool {
    &&& s.len() == N_CHUNKS
    &&& forall|k: int| 0 <= k < N_CHUNKS ==> (#[trigger] s[k]).wf() && s[k].value() < chunk_base()
    &&& chunks_value(s) == v
}

/// A scalar split into bounded chunks.
pub struct SplitScalar {
    splits: Vec<Scalar>,
}

impl SplitScalar {
    /// The chunk sequence.
    pub closed spec fn view(self) -> Seq<Scalar> {
        self.splits@
    }

    /// Splits a scalar into eight 32-bit chunks that reconstruct it.
    pub fn new(s: &Scalar) -> (r: SplitScalar)
        requires
            s.wf(),
        ensures
            is_split(r@, s.value()),
    {
        let mut v: Vec<Scalar> = Vec::new();
        let c0 = Scalar::from_u64(s.l0 & 0xffffffff);
        let c1 = Scalar::from_u64(s.l0 >> 32);
        let c2 = Scalar::from_u64(s.l1 & 0xffffffff);
        let c3 = Scalar::from_u64(s.l1 >> 32);
        let c4 = Scalar::from_u64(s.l2 & 0xffffffff);
        let c5 = Scalar::from_u64(s.l2 >> 32);
        let c6 = Scalar::from_u64(s.l3 & 0xffffffff);
        let c7 = Scalar::from_u64(s.l3 >> 32);
        proof {
            lemma_limb_halves(s.l0);
            lemma_limb_halves(s.l1);
            lemma_limb_halves(s.l2);
            lemma_limb_halves(s.l3);
        }
        v.push(c0);
        v.push(c1);
        v.push(c2);
        v.push(c3);
        v.push(c4);
        v.push(c5);
        v.push(c6);
        v.push(c7);
        let r = SplitScalar { splits: v };
        proof {
            assert(chunks_value(r.splits@) == s.value());
        }
        r
    }

    /// Hands the chunks out as scalars.
    pub fn splits(&self) -> (r: &Vec<Scalar>)
        ensures
            r@ == self@,
    {
        &self.splits
    }
}

/// A 64-bit limb is its low 32 bits plus `2^32` times its high 32 bits.
proof fn lemma_limb_halves(x: u64)
    ensures
        x == (x & 0xffffffff) + 0x100000000 * (x >> 32),
        (x & 0xffffffff) < 0x100000000,
        (x >> 32) < 0x100000000,
{
    assert(x == (x & 0xffffffff) + 0x100000000 * (x >> 32)) by (bit_vector);
    assert((x & 0xffffffff) < 0x100000000) by (bit_vector);
    assert((x >> 32) < 0x100000000) by (bit_vector);
}

} // verus!

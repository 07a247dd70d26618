//! The scalar field of BLS12-381, modelled by its canonical little-endian
//! 64-bit limbs.  Field arithmetic is delegated to `ark_ff`; every wrapper
//! states the exact result as integer arithmetic modulo the field order, so
//! all logic built on top of it is specified over plain integers.

use vstd::prelude::*;

verus! {

/// Radix in which limbs are read: 2^64.
pub open spec fn limb_base() -> int {
    0x10000000000000000
}

/// Order of the BLS12-381 scalar field.
pub open spec fn modulus() -> int {
    MODULUS_LIMB_0
        + limb_base() * (MODULUS_LIMB_1 + limb_base() * (MODULUS_LIMB_2 + limb_base() * MODULUS_LIMB_3))
}

/// The limbs of the field order, least significant first.
pub const MODULUS_LIMB_0: u64 = 0xffffffff00000001;
pub const MODULUS_LIMB_1: u64 = 0x53bda402fffe5bfe;
pub const MODULUS_LIMB_2: u64 = 0x3339d80809a1d805;
pub const MODULUS_LIMB_3: u64 = 0x73eda753299d7d48;

/// A scalar-field element in canonical form: four little-endian 64-bit
/// limbs whose combined value is below the field order.
#[derive(Clone, Copy, PartialEq, Eq, Structural, Debug)]
pub struct Scalar {
    pub l0: u64,
    pub l1: u64,
    pub l2: u64,
    pub l3: u64,
}

impl Scalar {
    /// The integer this element stands for.
    pub open spec fn value(self) -> int {
        self.l0 + limb_base() * (self.l1 + limb_base() * (self.l2 + limb_base() * self.l3))
    }

    /// Canonical form: the limb value lies below the field order.
    pub open spec fn wf(self) -> bool {
        self.value() < modulus()
    }

    /// The zero element.
    pub fn zero() -> (r: Scalar)
        ensures
            r.wf(),
            r.value() == 0,
    {
        Scalar { l0: 0, l1: 0, l2: 0, l3: 0 }
    }

    /// Embeds a machine integer into the field.
    pub fn from_u64(x: u64) -> (r: Scalar)
        ensures
            r.wf(),
            r.value() == x,
    {
        Scalar { l0: x, l1: 0, l2: 0, l3: 0 }
    }
}

/// Byte `j` (little-endian position) of a 64-bit limb.
pub open spec fn u64_le_byte(x: u64, j: int) -> u8 {
    ((x >> ((8 * j) as u64)) & 0xff) as u8
}

/// Byte `j` of the canonical 32-byte little-endian scalar encoding.
pub open spec fn scalar_le_byte(s: Scalar, j: int) -> u8 {
    if j < 8 {
        u64_le_byte(s.l0, j)
    } else if j < 16 {
        u64_le_byte(s.l1, j - 8)
    } else if j < 24 {
        u64_le_byte(s.l2, j - 16)
    } else {
        u64_le_byte(s.l3, j - 24)
    }
}

/// The canonical 32-byte little-endian encoding of a scalar.
pub open spec fn scalar_le_bytes(s: Scalar) -> Seq<u8> {
    Seq::new(32, |j: int| scalar_le_byte(s, j))
}

/// The canonical 32-byte big-endian encoding of a scalar.
pub open spec fn scalar_be_bytes(s: Scalar) -> Seq<u8> {
    Seq::new(32, |j: int| scalar_le_byte(s, 31 - j))
}

/// Limbs agreeing on all eight byte extracts are equal.
pub proof fn lemma_u64_le_bytes_inj(x: u64, y: u64)
    requires
        forall|j: int| 0 <= j < 8 ==> u64_le_byte(x, j) == u64_le_byte(y, j),
    ensures
        x == y,
{
    assert(u64_le_byte(x, 0) == u64_le_byte(y, 0));
    assert(u64_le_byte(x, 1) == u64_le_byte(y, 1));
    assert(u64_le_byte(x, 2) == u64_le_byte(y, 2));
    assert(u64_le_byte(x, 3) == u64_le_byte(y, 3));
    assert(u64_le_byte(x, 4) == u64_le_byte(y, 4));
    assert(u64_le_byte(x, 5) == u64_le_byte(y, 5));
    assert(u64_le_byte(x, 6) == u64_le_byte(y, 6));
    assert(u64_le_byte(x, 7) == u64_le_byte(y, 7));
    assert(x == y) by (bit_vector)
        requires
            ((x >> 0u64) & 0xff) as u8 == ((y >> 0u64) & 0xff) as u8,
            ((x >> 8u64) & 0xff) as u8 == ((y >> 8u64) & 0xff) as u8,
            ((x >> 16u64) & 0xff) as u8 == ((y >> 16u64) & 0xff) as u8,
            ((x >> 24u64) & 0xff) as u8 == ((y >> 24u64) & 0xff) as u8,
            ((x >> 32u64) & 0xff) as u8 == ((y >> 32u64) & 0xff) as u8,
            ((x >> 40u64) & 0xff) as u8 == ((y >> 40u64) & 0xff) as u8,
            ((x >> 48u64) & 0xff) as u8 == ((y >> 48u64) & 0xff) as u8,
            ((x >> 56u64) & 0xff) as u8 == ((y >> 56u64) & 0xff) as u8,
    ;
}

/// Scalars agreeing on their canonical encoding are equal.
pub proof fn lemma_scalar_le_bytes_inj(a: Scalar, b: Scalar)
    requires
        scalar_le_bytes(a) == scalar_le_bytes(b),
    ensures
        a == b,
{
    assert forall|j: int| 0 <= j < 8 implies u64_le_byte(a.l0, j) == u64_le_byte(b.l0, j) by {
        assert(scalar_le_bytes(a)[j] == scalar_le_byte(a, j));
        assert(scalar_le_bytes(b)[j] == scalar_le_byte(b, j));
        assert(scalar_le_bytes(a)[j] == scalar_le_bytes(b)[j]);
    }
    assert forall|j: int| 0 <= j < 8 implies u64_le_byte(a.l1, j) == u64_le_byte(b.l1, j) by {
        assert(scalar_le_bytes(a)[j + 8] == scalar_le_byte(a, j + 8));
        assert(scalar_le_bytes(b)[j + 8] == scalar_le_byte(b, j + 8));
        assert(scalar_le_bytes(a)[j + 8] == scalar_le_bytes(b)[j + 8]);
    }
    assert forall|j: int| 0 <= j < 8 implies u64_le_byte(a.l2, j) == u64_le_byte(b.l2, j) by {
        assert(scalar_le_bytes(a)[j + 16] == scalar_le_byte(a, j + 16));
        assert(scalar_le_bytes(b)[j + 16] == scalar_le_byte(b, j + 16));
        assert(scalar_le_bytes(a)[j + 16] == scalar_le_bytes(b)[j + 16]);
    }
    assert forall|j: int| 0 <= j < 8 implies u64_le_byte(a.l3, j) == u64_le_byte(b.l3, j) by {
        assert(scalar_le_bytes(a)[j + 24] == scalar_le_byte(a, j + 24));
        assert(scalar_le_bytes(b)[j + 24] == scalar_le_byte(b, j + 24));
        assert(scalar_le_bytes(a)[j + 24] == scalar_le_bytes(b)[j + 24]);
    }
    lemma_u64_le_bytes_inj(a.l0, b.l0);
    lemma_u64_le_bytes_inj(a.l1, b.l1);
    lemma_u64_le_bytes_inj(a.l2, b.l2);
    lemma_u64_le_bytes_inj(a.l3, b.l3);
}

/// Appends the eight little-endian bytes of a limb.
pub fn push_u64_le(out: &mut Vec<u8>, x: u64)
    ensures
        final(out)@.len() == old(out)@.len() + 8,
        forall|j: int| 0 <= j < old(out)@.len() ==> final(out)@[j] == old(out)@[j],
        forall|j: int|
            0 <= j < 8 ==> final(out)@[old(out)@.len() + j] == u64_le_byte(x, j),
{
    let mut j: usize = 0;
    while j < 8
        invariant
            j <= 8,
            out@.len() == old(out)@.len() + j,
            forall|t: int| 0 <= t < old(out)@.len() ==> out@[t] == old(out)@[t],
            forall|t: int| 0 <= t < j ==> out@[old(out)@.len() + t] == u64_le_byte(x, t),
        decreases 8 - j,
    {
        let sh: u64 = (8 * j) as u64;
        out.push(((x >> sh) & 0xff) as u8);
        j += 1;
    }
}

/// Reads a limb from eight little-endian bytes at `off`.
pub fn read_u64_le(b: &Vec<u8>, off: usize) -> (r: u64)
    requires
        off + 8 <= b@.len(),
    ensures
        forall|j: int| 0 <= j < 8 ==> u64_le_byte(r, j) == b@[off + j],
{
    let n = b.len();
    assert(off + 8 <= n);
    let b0 = b[off];
    let b1 = b[off + 1];
    let b2 = b[off + 2];
    let b3 = b[off + 3];
    let b4 = b[off + 4];
    let b5 = b[off + 5];
    let b6 = b[off + 6];
    let b7 = b[off + 7];
    let r: u64 = (b0 as u64) | ((b1 as u64) << 8u64) | ((b2 as u64) << 16u64) | ((b3 as u64)
        << 24u64) | ((b4 as u64) << 32u64) | ((b5 as u64) << 40u64) | ((b6 as u64) << 48u64) | ((
    b7 as u64) << 56u64);
    proof {
        assert(((r >> 0u64) & 0xff) as u8 == b0 && ((r >> 8u64) & 0xff) as u8 == b1 && ((r
            >> 16u64) & 0xff) as u8 == b2 && ((r >> 24u64) & 0xff) as u8 == b3 && ((r >> 32u64)
            & 0xff) as u8 == b4 && ((r >> 40u64) & 0xff) as u8 == b5 && ((r >> 48u64) & 0xff) as u8
            == b6 && ((r >> 56u64) & 0xff) as u8 == b7) by (bit_vector)
            requires
                r == (b0 as u64) | ((b1 as u64) << 8u64) | ((b2 as u64) << 16u64) | ((b3 as u64)
                    << 24u64) | ((b4 as u64) << 32u64) | ((b5 as u64) << 40u64) | ((b6 as u64)
                    << 48u64) | ((b7 as u64) << 56u64),
        ;
        assert forall|j: int| 0 <= j < 8 implies u64_le_byte(r, j) == b@[off + j] by {
            if j == 0 {
                assert(u64_le_byte(r, 0) == b0);
            } else if j == 1 {
                assert(u64_le_byte(r, 1) == b1);
            } else if j == 2 {
                assert(u64_le_byte(r, 2) == b2);
            } else if j == 3 {
                assert(u64_le_byte(r, 3) == b3);
            } else if j == 4 {
                assert(u64_le_byte(r, 4) == b4);
            } else if j == 5 {
                assert(u64_le_byte(r, 5) == b5);
            } else if j == 6 {
                assert(u64_le_byte(r, 6) == b6);
            } else {
                assert(u64_le_byte(r, 7) == b7);
            }
        }
    }
    r
}

impl Scalar {
    /// The canonical little-endian encoding, limb by limb.
    pub fn to_le_bytes(&self) -> (r: Vec<u8>)
        ensures
            r@ == scalar_le_bytes(*self),
    {
        let mut out: Vec<u8> = Vec::new();
        push_u64_le(&mut out, self.l0);
        push_u64_le(&mut out, self.l1);
        push_u64_le(&mut out, self.l2);
        push_u64_le(&mut out, self.l3);
        proof {
            assert(out@ =~= scalar_le_bytes(*self));
        }
        out
    }

    /// The canonical big-endian encoding: the little-endian bytes
    /// reversed.
    pub fn to_be_bytes(&self) -> (r: Vec<u8>)
        ensures
            r@ == scalar_be_bytes(*self),
    {
        let le = self.to_le_bytes();
        let mut out: Vec<u8> = Vec::new();
        let mut k: usize = 0;
        while k < 32
            invariant
                k <= 32,
                le@ == scalar_le_bytes(*self),
                out@.len() == k,
                forall|j: int| 0 <= j < k ==> out@[j] == scalar_le_byte(*self, 31 - j),
            decreases 32 - k,
        {
            out.push(le[31 - k]);
            k += 1;
        }
        proof {
            assert(out@ =~= scalar_be_bytes(*self));
        }
        out
    }

    /// Reads a scalar's limbs from 32 little-endian bytes at `off`; the
    /// limbs may denote a non-canonical value, which `is_canonical`
    /// decides.
    pub fn from_le_bytes(b: &Vec<u8>, off: usize) -> (r: Scalar)
        requires
            off + 32 <= b@.len(),
        ensures
            scalar_le_bytes(r) == b@.subrange(off as int, off + 32),
    {
        let n = b.len();
        assert(off + 32 <= n);
        let l0 = read_u64_le(b, off);
        let l1 = read_u64_le(b, off + 8);
        let l2 = read_u64_le(b, off + 16);
        let l3 = read_u64_le(b, off + 24);
        let r = Scalar { l0, l1, l2, l3 };
        proof {
            assert(scalar_le_bytes(r) =~= b@.subrange(off as int, off + 32));
        }
        r
    }
}

/// The limbs are the base-2^64 digits of the value, so the value pins
/// the limbs: scalars with equal values are equal.
pub proof fn lemma_value_injective(a: Scalar, b: Scalar)
    requires
        a.value() == b.value(),
    ensures
        a == b,
{
    let base = limb_base();
    let ha = a.l1 + base * (a.l2 + base * a.l3);
    let hb = b.l1 + base * (b.l2 + base * b.l3);
    vstd::arithmetic::div_mod::lemma_fundamental_div_mod_converse(
        a.value(),
        base,
        ha,
        a.l0 as int,
    );
    vstd::arithmetic::div_mod::lemma_fundamental_div_mod_converse(
        b.value(),
        base,
        hb,
        b.l0 as int,
    );
    assert(a.l0 == b.l0 && ha == hb);
    let ha2 = a.l2 + base * a.l3;
    let hb2 = b.l2 + base * b.l3;
    vstd::arithmetic::div_mod::lemma_fundamental_div_mod_converse(ha, base, ha2, a.l1 as int);
    vstd::arithmetic::div_mod::lemma_fundamental_div_mod_converse(hb, base, hb2, b.l1 as int);
    assert(a.l1 == b.l1 && ha2 == hb2);
    vstd::arithmetic::div_mod::lemma_fundamental_div_mod_converse(
        ha2,
        base,
        a.l3 as int,
        a.l2 as int,
    );
    vstd::arithmetic::div_mod::lemma_fundamental_div_mod_converse(
        hb2,
        base,
        b.l3 as int,
        b.l2 as int,
    );
}

/// Relies on `ark_ff::PrimeField::from_bigint`, which accepts exactly the
/// integers in `[0, MODULUS)`.
#[verifier::external_body]
pub fn fr_is_canonical(s: &Scalar) -> (r: bool)
    ensures
        r == s.wf(),
{
    <ark_bls12_381::Fr as ark_ff::PrimeField>::from_bigint(
        ark_ff::BigInt::new([s.l0, s.l1, s.l2, s.l3]),
    ).is_some()
}

/// Big-endian integer value of a byte string.
pub open spec fn be_bytes_int(s: Seq<u8>) -> int
    decreases s.len(),
{
    if s.len() == 0 {
        0
    } else {
        be_bytes_int(s.drop_last()) * 256 + s.last()
    }
}

/// Relies on `ark_ff::PrimeField::from_be_bytes_mod_order`: interprets
/// the bytes as a big-endian integer and reduces it modulo the field
/// order.
#[verifier::external_body]
pub fn fr_from_be_bytes_mod_order(b: &Vec<u8>) -> (r: Scalar)
    ensures
        r.wf(),
        r.value() == be_bytes_int(b@) % modulus(),
{
    let f = <ark_bls12_381::Fr as ark_ff::PrimeField>::from_be_bytes_mod_order(b.as_slice());
    let l = ark_ff::PrimeField::into_bigint(f).0;
    Scalar { l0: l[0], l1: l[1], l2: l[2], l3: l[3] }
}

/// Relies on `ark_ff` addition in the BLS12-381 scalar field: canonical
/// representatives add as integers modulo the field order.
#[verifier::external_body]
pub fn fr_add(a: &Scalar, b: &Scalar) -> (r: Scalar)
    requires
        a.wf(),
        b.wf(),
    ensures
        r.wf(),
        r.value() == (a.value() + b.value()) % modulus(),
{
    let fa = ark_bls12_381::Fr::from(ark_ff::BigInt::new([a.l0, a.l1, a.l2, a.l3]));
    let fb = ark_bls12_381::Fr::from(ark_ff::BigInt::new([b.l0, b.l1, b.l2, b.l3]));
    let l = ark_ff::PrimeField::into_bigint(fa + fb).0;
    Scalar { l0: l[0], l1: l[1], l2: l[2], l3: l[3] }
}

/// Relies on `ark_ff` subtraction in the BLS12-381 scalar field:
/// canonical representatives subtract as integers modulo the field order.
#[verifier::external_body]
pub fn fr_sub(a: &Scalar, b: &Scalar) -> (r: Scalar)
    requires
        a.wf(),
        b.wf(),
    ensures
        r.wf(),
        r.value() == (a.value() - b.value()) % modulus(),
{
    let fa = ark_bls12_381::Fr::from(ark_ff::BigInt::new([a.l0, a.l1, a.l2, a.l3]));
    let fb = ark_bls12_381::Fr::from(ark_ff::BigInt::new([b.l0, b.l1, b.l2, b.l3]));
    let l = ark_ff::PrimeField::into_bigint(fa - fb).0;
    Scalar { l0: l[0], l1: l[1], l2: l[2], l3: l[3] }
}

/// Relies on `ark_ff` multiplication in the BLS12-381 scalar field:
/// canonical representatives multiply as integers modulo the field order.
#[verifier::external_body]
pub fn fr_mul(a: &Scalar, b: &Scalar) -> (r: Scalar)
    requires
        a.wf(),
        b.wf(),
    ensures
        r.wf(),
        r.value() == (a.value() * b.value()) % modulus(),
{
    let fa = ark_bls12_381::Fr::from(ark_ff::BigInt::new([a.l0, a.l1, a.l2, a.l3]));
    let fb = ark_bls12_381::Fr::from(ark_ff::BigInt::new([b.l0, b.l1, b.l2, b.l3]));
    let l = ark_ff::PrimeField::into_bigint(fa * fb).0;
    Scalar { l0: l[0], l1: l[1], l2: l[2], l3: l[3] }
}

} // verus!

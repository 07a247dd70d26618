//! Evaluation domains: multiplicative subgroups of the scalar field whose
//! size is a power of two, generated by a canonical root of unity that
//! `ark_poly` picks per size.  The domain index maps each element to its
//! position, which lets global indices be translated to domain-relative
//! ones; the vanishing polynomial of an index set is built coefficient by
//! coefficient with exact modular semantics.

use vstd::prelude::*;
use vstd::arithmetic::div_mod::{lemma_add_mod_noop, lemma_mod_bound, lemma_mul_mod_noop_left,
    lemma_mul_mod_noop_right, lemma_small_mod, lemma_sub_mod_noop_right};
use crate::scalar::{fr_mul, fr_sub, modulus, Scalar};
use crate::Error;

verus! {

/// `n` is a power of two.
pub open spec fn is_pow2(n: int) -> bool
    decreases n,
{
    if n <= 0 {
        false
    } else if n == 1 {
        true
    } else {
        n % 2 == 0 && is_pow2(n / 2)
    }
}

/// Between a power of two and a larger one there is a factor of two.
pub proof fn lemma_pow2_gap(p: int, q: int)
    requires
        is_pow2(p),
        is_pow2(q),
        p < q,
    ensures
        2 * p <= q,
    decreases q,
{
    if p == 1 {
        assert(q >= 2);
    } else {
        lemma_pow2_gap(p / 2, q / 2);
    }
}

/// Decides whether a (small) number is a power of two.
fn check_pow2(n: u64) -> (r: bool)
    requires
        n <= 0x100000000,
    ensures
        r == is_pow2(n as int),
{
    if n == 0 {
        return false;
    }
    let mut m: u64 = 1;
    while m < n
        invariant
            is_pow2(m as int),
            1 <= m,
            m <= 2 * n,
            n <= 0x100000000,
            is_pow2(n as int) ==> m <= n,
        decreases 2 * n - m,
    {
        proof {
            if is_pow2(n as int) && m < n {
                lemma_pow2_gap(m as int, n as int);
            }
        }
        m = m * 2;
    }
    m == n
}

/// The canonical generator of the radix-2 evaluation domain of size `n`,
/// as chosen by `ark_poly` for the BLS12-381 scalar field.
pub uninterp spec fn domain_gen_of(n: int) -> int;

/// Relies on `ark_poly::GeneralEvaluationDomain::new` and `group_gen`:
/// for a power-of-two size up to `2^32` (the field's two-adicity) the
/// domain exists and its generator depends on the size alone.  The
/// generator is obtained by repeatedly squaring the field's two-adic
/// root of unity, so it is a primitive `n`-th root: its `n`-th power is
/// one and no smaller positive power is.
#[verifier::external_body]
fn domain_gen(n: usize) -> (r: Scalar)
    requires
        is_pow2(n as int),
        n <= 0x100000000,
    ensures
        r.wf(),
        r.value() == domain_gen_of(n as int),
        pow_mod(r.value(), n as nat) == 1,
        forall|k: int| 0 < k < n ==> #[trigger] pow_mod(r.value(), k as nat) != 1,
{
    let d = <ark_poly::GeneralEvaluationDomain<ark_bls12_381::Fr> as
        ark_poly::EvaluationDomain<ark_bls12_381::Fr>>::new(n).unwrap();
    let g = <ark_poly::GeneralEvaluationDomain<ark_bls12_381::Fr> as
        ark_poly::EvaluationDomain<ark_bls12_381::Fr>>::group_gen(&d);
    let l = ark_ff::PrimeField::into_bigint(g).0;
    Scalar { l0: l[0], l1: l[1], l2: l[2], l3: l[3] }
}

/// An evaluation domain: its size and the canonical generator.
#[derive(Debug)]
pub struct Domain {
    pub size: usize,
    pub gen: Scalar,
}

impl Domain {
    /// A valid domain of this field: power-of-two size within the field's
    /// two-adic range, with the canonical generator for that size, which
    /// is a primitive root of unity of exactly that order.
    pub open spec fn wf(self) -> bool {
        &&& is_pow2(self.size as int)
        &&& self.size <= 0x100000000
        &&& self.gen.wf()
        &&& self.gen.value() == domain_gen_of(self.size as int)
        &&& pow_mod(self.gen.value(), self.size as nat) == 1
        &&& forall|k: int| 0 < k < self.size ==> #[trigger] pow_mod(self.gen.value(), k as nat) != 1
    }

    /// Builds the domain of the given size.  Fails exactly when the size
    /// is not a power of two supported by the field.
    pub fn new(n: usize) -> (r: Result<Domain, Error>)
        ensures
            r.is_ok() <==> (is_pow2(n as int) && n <= 0x100000000),
            r.is_err() ==> r == Err::<Domain, Error>(Error::InvalidDomainSize),
            r.is_ok() ==> r.unwrap().size == n && r.unwrap().wf(),
    {
        if (n as u64) > 0x100000000u64 {
            return Err(Error::InvalidDomainSize);
        }
        if !check_pow2(n as u64) {
            return Err(Error::InvalidDomainSize);
        }
        Ok(Domain { size: n, gen: domain_gen(n) })
    }
}

/// `b^e` in the field, with the base taken as an already-reduced value.
pub open spec fn pow_mod(b: int, e: nat) -> int
    decreases e,
{
    if e == 0 {
        1int % modulus()
    } else {
        (b * pow_mod(b, (e - 1) as nat)) % modulus()
    }
}

/// Every power lies in the canonical range of the field.
pub proof fn lemma_pow_mod_bound(b: int, e: nat)
    ensures
        0 <= pow_mod(b, e) < modulus(),
{
    if e == 0 {
        lemma_mod_bound(1, modulus());
    } else {
        lemma_mod_bound(b * pow_mod(b, (e - 1) as nat), modulus());
    }
}

/// Powers add in the exponent: `b^(e1 + e2) = b^e1 * b^e2` in the field.
pub proof fn lemma_pow_mod_add(b: int, e1: nat, e2: nat)
    ensures
        pow_mod(b, e1 + e2) == (pow_mod(b, e1) * pow_mod(b, e2)) % modulus(),
    decreases e1,
{
    let p = modulus();
    lemma_pow_mod_bound(b, e2);
    if e1 == 0 {
        vstd::arithmetic::div_mod::lemma_small_mod(1nat, p as nat);
        assert(pow_mod(b, 0) == 1);
        vstd::arithmetic::div_mod::lemma_small_mod(pow_mod(b, e2) as nat, p as nat);
        assert(pow_mod(b, e2) % p == pow_mod(b, e2));
        assert(1 * pow_mod(b, e2) == pow_mod(b, e2));
        assert((pow_mod(b, 0) * pow_mod(b, e2)) % p == pow_mod(b, e2));
    } else {
        lemma_pow_mod_add(b, (e1 - 1) as nat, e2);
        let rest = pow_mod(b, ((e1 - 1) + e2) as nat);
        // b^(e1+e2) = (b * b^(e1-1+e2)) % p
        //           = (b * (b^(e1-1) * b^e2)) % p
        //           = ((b * b^(e1-1)) % p * b^e2) % p = (b^e1 * b^e2) % p
        lemma_mul_mod_noop_right(b, pow_mod(b, (e1 - 1) as nat) * pow_mod(b, e2), p);
        assert(b * (pow_mod(b, (e1 - 1) as nat) * pow_mod(b, e2)) == (b * pow_mod(
            b,
            (e1 - 1) as nat,
        )) * pow_mod(b, e2)) by (nonlinear_arith);
        lemma_mul_mod_noop_left(b * pow_mod(b, (e1 - 1) as nat), pow_mod(b, e2), p);
        assert(pow_mod(b, e1 + e2) == (b * rest) % p);
        assert((b * rest) % p == (b * ((pow_mod(b, (e1 - 1) as nat) * pow_mod(b, e2)) % p)) % p);
    }
}

/// Powers of a primitive root of unity are pairwise distinct below its
/// order: if `g^n = 1` and no smaller positive power is one, then
/// `g^i != g^j` for `i < j < n`.  This is the bijection behind the
/// domain index: each element maps back to exactly one position.
pub proof fn lemma_root_powers_distinct(g: int, n: nat, i: nat, j: nat)
    requires
        pow_mod(g, n) == 1,
        forall|k: int| 0 < k < n ==> #[trigger] pow_mod(g, k as nat) != 1,
        i < j < n,
    ensures
        pow_mod(g, i) != pow_mod(g, j),
{
    let p = modulus();
    if pow_mod(g, i) == pow_mod(g, j) {
        let d = (j - i) as nat;
        let a = pow_mod(g, i);
        let b = pow_mod(g, d);
        let c = pow_mod(g, (n - i) as nat);
        lemma_pow_mod_bound(g, i);
        lemma_pow_mod_bound(g, d);
        lemma_pow_mod_bound(g, (n - i) as nat);
        lemma_pow_mod_add(g, i, d);
        assert(pow_mod(g, j) == (a * b) % p);
        lemma_pow_mod_add(g, i, (n - i) as nat);
        assert((a * c) % p == 1);
        // b = (b * (a*c mod p)) mod p = (a*b*c) mod p = ((a*b mod p) * c) mod p
        //   = (a*c) mod p = 1, contradicting primitivity at exponent d
        vstd::arithmetic::div_mod::lemma_small_mod(b as nat, p as nat);
        lemma_mul_mod_noop_right(b, a * c, p);
        assert(b * (a * c) == (a * b) * c) by (nonlinear_arith);
        assert((b * (a * c)) % p == b);
        lemma_mul_mod_noop_left(a * b, c, p);
        assert((((a * b) % p) * c) % p == ((a * b) * c) % p);
        assert(((a * b) % p) == a);
        assert(b == 1);
        assert(pow_mod(g, d) != 1);
    }
}

/// Raises a scalar to a machine-integer power by repeated multiplication.
pub fn scalar_pow(b: &Scalar, e: usize) -> (r: Scalar)
    requires
        b.wf(),
    ensures
        r.wf(),
        r.value() == pow_mod(b.value(), e as nat),
{
    let mut acc = Scalar::from_u64(1);
    proof {
        vstd::arithmetic::div_mod::lemma_small_mod(1nat, modulus() as nat);
    }
    let mut i: usize = 0;
    while i < e
        invariant
            i <= e,
            b.wf(),
            acc.wf(),
            acc.value() == pow_mod(b.value(), i as nat),
        decreases e - i,
    {
        let next = fr_mul(b, &acc);
        acc = next;
        i += 1;
    }
    acc
}

/// The elements of the domain by position: entry `i` is `gen^i`.  This is
/// the index map of the domain: since the generator is a primitive root,
/// the entries are pairwise distinct, so each of the `size` elements maps
/// back to exactly one position — a bijection, with `position_of` as the
/// reverse lookup.
pub fn index_map(domain: &Domain) -> (r: Vec<Scalar>)
    requires
        domain.wf(),
    ensures
        r@.len() == domain.size,
        forall|i: int|
            0 <= i < domain.size ==> (#[trigger] r@[i]).wf() && r@[i].value() == pow_mod(
                domain.gen.value(),
                i as nat,
            ),
        forall|i: int, j: int| 0 <= i < j < domain.size ==> r@[i] != r@[j],
{
    let mut out: Vec<Scalar> = Vec::new();
    let mut acc = Scalar::from_u64(1);
    proof {
        vstd::arithmetic::div_mod::lemma_small_mod(1nat, modulus() as nat);
    }
    let mut i: usize = 0;
    while i < domain.size
        invariant
            i <= domain.size,
            domain.wf(),
            acc.wf(),
            acc.value() == pow_mod(domain.gen.value(), i as nat),
            out@.len() == i,
            forall|j: int|
                0 <= j < i ==> (#[trigger] out@[j]).wf() && out@[j].value() == pow_mod(
                    domain.gen.value(),
                    j as nat,
                ),
        decreases domain.size - i,
    {
        out.push(acc);
        let next = fr_mul(&domain.gen, &acc);
        acc = next;
        i += 1;
    }
    proof {
        assert forall|a: int, b: int| 0 <= a < b < domain.size implies out@[a] != out@[b] by {
            lemma_root_powers_distinct(
                domain.gen.value(),
                domain.size as nat,
                a as nat,
                b as nat,
            );
        }
    }
    out
}

/// Position of the first occurrence of an element in the index map.
pub fn position_of(map: &Vec<Scalar>, x: &Scalar) -> (r: Option<usize>)
    ensures
        r.is_some() ==> {
            let i = r.unwrap() as int;
            &&& 0 <= i < map@.len()
            &&& map@[i] == *x
            &&& forall|j: int| 0 <= j < i ==> map@[j] != *x
        },
        r.is_none() ==> forall|j: int| 0 <= j < map@.len() ==> map@[j] != *x,
{
    let mut i: usize = 0;
    while i < map.len()
        invariant
            i <= map@.len(),
            forall|j: int| 0 <= j < i ==> map@[j] != *x,
        decreases map@.len() - i,
    {
        if map[i] == *x {
            return Some(i);
        }
        i += 1;
    }
    None
}

/// Coefficients of `c(X) * (X - root)` in the field, degree rising by one.
pub open spec fn mul_by_linear(c: Seq<int>, root: int) -> Seq<int> {
    Seq::new(
        c.len() + 1,
        |j: int|
            ((if j > 0 {
                c[j - 1]
            } else {
                0
            }) - root * (if j < c.len() {
                c[j]
            } else {
                0
            })) % modulus(),
    )
}

/// Coefficients of the vanishing polynomial of the first `k` indices:
/// the product of `(X - gen^idx)` over them, starting from the constant
/// polynomial one.
pub open spec fn vanishing_coeffs(idx: Seq<usize>, g: int, k: int) -> Seq<int>
    decreases k,
{
    if k <= 0 {
        seq![1int % modulus()]
    } else {
        mul_by_linear(vanishing_coeffs(idx, g, k - 1), pow_mod(g, idx[k - 1] as nat))
    }
}

/// The vanishing polynomial of `k` indices has `k + 1` coefficients.
proof fn lemma_vanishing_len(idx: Seq<usize>, g: int, k: int)
    requires
        k >= 0,
    ensures
        vanishing_coeffs(idx, g, k).len() == k + 1,
    decreases k,
{
    if k > 0 {
        lemma_vanishing_len(idx, g, k - 1);
    }
}

/// Builds the vanishing polynomial of the indexed domain elements: the
/// dense coefficient list of the product of `(X - gen^i)` over the given
/// indices, lowest degree first.  `lemma_vanishing_roots` shows that the
/// resulting coefficients evaluate to zero at every chosen element.
pub fn to_vanishing_poly(indices: &Vec<usize>, domain: &Domain) -> (r: Vec<Scalar>)
    requires
        domain.wf(),
        indices@.len() < usize::MAX,
    ensures
        r@.len() == indices@.len() + 1,
        forall|j: int|
            0 <= j < r@.len() ==> (#[trigger] r@[j]).wf() && r@[j].value() == vanishing_coeffs(
                indices@,
                domain.gen.value(),
                indices@.len() as int,
            )[j],
{
    let mut poly: Vec<Scalar> = Vec::new();
    poly.push(Scalar::from_u64(1));
    proof {
        vstd::arithmetic::div_mod::lemma_small_mod(1nat, modulus() as nat);
        assert(vanishing_coeffs(indices@, domain.gen.value(), 0) =~= seq![1int % modulus()]);
        lemma_vanishing_len(indices@, domain.gen.value(), 0);
    }
    let mut i: usize = 0;
    while i < indices.len()
        invariant
            i <= indices@.len(),
            indices@.len() < usize::MAX,
            domain.wf(),
            poly@.len() == i + 1,
            forall|j: int|
                0 <= j < poly@.len() ==> (#[trigger] poly@[j]).wf() && poly@[j].value()
                    == vanishing_coeffs(indices@, domain.gen.value(), i as int)[j],
        decreases indices@.len() - i,
    {
        proof {
            lemma_vanishing_len(indices@, domain.gen.value(), i as int);
            lemma_vanishing_len(indices@, domain.gen.value(), i + 1);
        }
        let root = scalar_pow(&domain.gen, indices[i]);
        let zero = Scalar::from_u64(0);
        let mut next: Vec<Scalar> = Vec::new();
        let n = poly.len();
        let mut j: usize = 0;
        while j <= n
            invariant
                j <= n + 1,
                n == poly@.len(),
                n == i + 1,
                domain.wf(),
                root.wf(),
                root.value() == pow_mod(domain.gen.value(), indices@[i as int] as nat),
                zero.value() == 0,
                zero.wf(),
                forall|t: int|
                    0 <= t < poly@.len() ==> (#[trigger] poly@[t]).wf() && poly@[t].value()
                        == vanishing_coeffs(indices@, domain.gen.value(), i as int)[t],
                i < indices@.len(),
                indices@.len() < usize::MAX,
                vanishing_coeffs(indices@, domain.gen.value(), i as int).len() == i + 1,
                next@.len() == j,
                forall|t: int|
                    0 <= t < j ==> (#[trigger] next@[t]).wf() && next@[t].value() == mul_by_linear(
                        vanishing_coeffs(indices@, domain.gen.value(), i as int),
                        root.value(),
                    )[t],
            decreases n + 1 - j,
        {
            let lower = if j > 0 {
                poly[j - 1]
            } else {
                zero
            };
            let upper = if j < n {
                poly[j]
            } else {
                zero
            };
            let scaled = fr_mul(&root, &upper);
            let coef = fr_sub(&lower, &scaled);
            proof {
                let cv = vanishing_coeffs(indices@, domain.gen.value(), i as int);
                assert(cv.len() == poly@.len());
                let lo: int = if j > 0 {
                    cv[j - 1]
                } else {
                    0
                };
                let up: int = if j < n {
                    cv[j as int]
                } else {
                    0
                };
                assert(lower.value() == lo);
                assert(upper.value() == up);
                lemma_sub_mod_noop_right(lo, root.value() * up, modulus());
                assert(coef.value() == (lo - (root.value() * up) % modulus()) % modulus());
                assert(coef.value() == (lo - root.value() * up) % modulus());
                assert(coef.value() == mul_by_linear(cv, root.value())[j as int]);
            }
            next.push(coef);
            j += 1;
        }
        proof {
            let prev_vals = vanishing_coeffs(indices@, domain.gen.value(), i as int);
            assert(vanishing_coeffs(indices@, domain.gen.value(), i + 1) == mul_by_linear(
                prev_vals,
                pow_mod(domain.gen.value(), indices@[i as int] as nat),
            ));
        }
        poly = next;
        i += 1;
    }
    poly
}


/// Horner evaluation of a coefficient list in the field, lowest degree
/// first.
pub open spec fn poly_eval_mod(c: Seq<int>, x: int) -> int
    decreases c.len(),
{
    if c.len() == 0 {
        0
    } else {
        (c[0] + x * poly_eval_mod(c.subrange(1, c.len() as int), x)) % modulus()
    }
}

/// A trailing zero coefficient does not change the evaluation.
proof fn lemma_eval_push_zero(c: Seq<int>, x: int)
    ensures
        poly_eval_mod(c.push(0), x) == poly_eval_mod(c, x),
    decreases c.len(),
{
    let p = modulus();
    if c.len() == 0 {
        assert(c.push(0) =~= seq![0int]);
        assert(seq![0int].subrange(1, 1) =~= Seq::<int>::empty());
        lemma_small_mod(0nat, p as nat);
        assert(poly_eval_mod(Seq::<int>::empty(), x) == 0);
        assert(poly_eval_mod(seq![0int], x) == (0 + x * 0) % p);
    } else {
        assert(c.push(0).subrange(1, c.push(0).len() as int) =~= c.subrange(
            1,
            c.len() as int,
        ).push(0));
        lemma_eval_push_zero(c.subrange(1, c.len() as int), x);
    }
}

/// Evaluation is linear over a pointwise reduced combination of two
/// coefficient lists.
proof fn lemma_eval_pointwise_combo(d: Seq<int>, a: Seq<int>, b: Seq<int>, t: int, x: int)
    requires
        d.len() == a.len(),
        b.len() == a.len(),
        forall|j: int| 0 <= j < d.len() ==> d[j] == (a[j] + t * b[j]) % modulus(),
    ensures
        poly_eval_mod(d, x) == (poly_eval_mod(a, x) + t * poly_eval_mod(b, x)) % modulus(),
    decreases d.len(),
{
    let p = modulus();
    if d.len() == 0 {
        lemma_small_mod(0nat, p as nat);
    } else {
        let n = d.len() as int;
        let d1 = d.subrange(1, n);
        let a1 = a.subrange(1, n);
        let b1 = b.subrange(1, n);
        assert forall|j: int| 0 <= j < d1.len() implies d1[j] == (a1[j] + t * b1[j]) % p by {
            assert(d1[j] == d[j + 1]);
            assert(a1[j] == a[j + 1]);
            assert(b1[j] == b[j + 1]);
        }
        lemma_eval_pointwise_combo(d1, a1, b1, t, x);
        let ea1 = poly_eval_mod(a1, x);
        let eb1 = poly_eval_mod(b1, x);
        let u = a[0] + t * b[0];
        let w = x * ((ea1 + t * eb1) % p);
        // eval(d) = (u % p + w) % p = (u + x*(ea1 + t*eb1)) % p
        assert(poly_eval_mod(d, x) == ((u % p) + w) % p);
        lemma_add_mod_noop(u, w, p);
        assert(((u % p) + (w % p)) % p == (u + w) % p);
        lemma_mul_mod_noop_right(x, ea1 + t * eb1, p);
        assert(w % p == (x * (ea1 + t * eb1)) % p);
        lemma_add_mod_noop(u, x * (ea1 + t * eb1), p);
        assert(((u % p) + ((x * (ea1 + t * eb1)) % p)) % p == (u + x * (ea1 + t * eb1)) % p);
        assert(((u % p) + w) % p == ((u % p) + (w % p)) % p) by {
            lemma_mod_bound(w, p);
            lemma_add_mod_noop(u % p, w, p);
            lemma_add_mod_noop(u % p, w % p, p);
            vstd::arithmetic::div_mod::lemma_mod_twice(u, p);
            vstd::arithmetic::div_mod::lemma_mod_twice(w, p);
        }
        // regroup as the two Horner heads
        let a0 = a[0];
        let b0 = b[0];
        let va = a0 + x * ea1;
        let vb = b0 + x * eb1;
        assert((a0 + t * b0) + x * (ea1 + t * eb1) == (a0 + x * ea1) + t * (b0 + x * eb1))
            by (nonlinear_arith);
        assert(u + x * (ea1 + t * eb1) == va + t * vb);
        // and fold the heads back under their own reductions
        lemma_add_mod_noop(va, t * vb, p);
        lemma_mul_mod_noop_right(t, vb, p);
        lemma_add_mod_noop(va, t * (vb % p), p);
        assert((va + t * vb) % p == ((va % p) + ((t * vb) % p)) % p);
        assert(((t * vb) % p) == ((t * (vb % p)) % p));
        assert(((va % p) + ((t * (vb % p)) % p)) % p == (va + t * (vb % p)) % p);
        assert((va + t * (vb % p)) % p == ((va % p) + (t * (vb % p))) % p) by {
            lemma_add_mod_noop(va, t * (vb % p), p);
            lemma_add_mod_noop(va % p, t * (vb % p), p);
            vstd::arithmetic::div_mod::lemma_mod_twice(va, p);
        }
        assert(poly_eval_mod(a, x) == va % p);
        assert(poly_eval_mod(b, x) == vb % p);
    }
}

/// Multiplying by `(X - root)` multiplies the evaluation by `(x - root)`.
pub proof fn lemma_mul_by_linear_eval(c: Seq<int>, root: int, x: int)
    ensures
        poly_eval_mod(mul_by_linear(c, root), x) == ((x - root) * poly_eval_mod(c, x))
            % modulus(),
{
    let p = modulus();
    let n = c.len() as int;
    let sh = Seq::new((n + 1) as nat, |j: int| if j > 0 { c[j - 1] } else { 0 });
    let ce = c.push(0);
    let d = mul_by_linear(c, root);
    assert forall|j: int| 0 <= j < d.len() implies d[j] == (sh[j] + (-root) * ce[j]) % p by {
        assert((-root) * ce[j] == -(root * ce[j])) by (nonlinear_arith);
    }
    lemma_eval_pointwise_combo(d, sh, ce, -root, x);
    lemma_eval_push_zero(c, x);
    assert(sh.subrange(1, n + 1) =~= c);
    let e = poly_eval_mod(c, x);
    assert(poly_eval_mod(sh, x) == (0 + x * e) % p);
    // eval(d) == ((x*e) % p + (-root)*e) % p == (x*e - root*e) % p == ((x - root)*e) % p
    lemma_add_mod_noop(x * e, (-root) * e, p);
    lemma_mod_bound((-root) * e, p);
    assert((((x * e) % p) + ((-root) * e)) % p == (((x * e) % p) + (((-root) * e) % p)) % p) by {
        lemma_add_mod_noop((x * e) % p, (-root) * e, p);
        lemma_add_mod_noop((x * e) % p, ((-root) * e) % p, p);
        vstd::arithmetic::div_mod::lemma_mod_twice((-root) * e, p);
    }
    assert(x * e + (-root) * e == (x - root) * e) by (nonlinear_arith);
}

/// The vanishing polynomial vanishes at each of its chosen roots: for
/// every position `t` among the first `k` indices, evaluating the
/// coefficient list at `gen^idx[t]` gives zero.
pub proof fn lemma_vanishing_roots(idx: Seq<usize>, g: int, k: int, t: int)
    requires
        0 <= t < k,
    ensures
        poly_eval_mod(vanishing_coeffs(idx, g, k), pow_mod(g, idx[t] as nat)) == 0,
    decreases k,
{
    let p = modulus();
    let x = pow_mod(g, idx[t] as nat);
    let prev = vanishing_coeffs(idx, g, k - 1);
    let root = pow_mod(g, idx[k - 1] as nat);
    lemma_mul_by_linear_eval(prev, root, x);
    if t == k - 1 {
        assert((x - root) * poly_eval_mod(prev, x) == 0) by (nonlinear_arith)
            requires x == root;
    } else {
        lemma_vanishing_roots(idx, g, k - 1, t);
        assert((x - root) * poly_eval_mod(prev, x) == 0) by (nonlinear_arith)
            requires poly_eval_mod(prev, x) == 0;
    }
    lemma_small_mod(0nat, p as nat);
}

} // verus!

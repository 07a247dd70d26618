//! Behaviour of the protocol pieces on concrete values: the chunk split,
//! ElGamal decryption, the homomorphic tie between chunk ciphers and the
//! full cipher, deterministic subset sampling, projection, and the
//! soundness of the field and curve delegates.

use fde_plus::domain::{index_map, to_vanishing_poly, Domain};
use fde_plus::elgamal::{decrypt, encrypt_with_randomness};
use fde_plus::encryption::{project, EncryptionProof};
use fde_plus::point::{g1_add, g1_gen_mul, g1_mul, G1Point};
use fde_plus::rng::{EntropyRng, SeededRng};
use fde_plus::scalar::{fr_add, fr_from_be_bytes_mod_order, fr_mul, fr_sub, Scalar};
use fde_plus::split::SplitScalar;
use fde_plus::veck::{challenge_seed, next_pow2, pad_to_pow2, random_subset_indices};
use fde_plus::Error;

fn seed_bytes(tag: u8) -> Vec<u8> {
    let mut v = vec![0u8; 32];
    v[0] = tag;
    v
}

#[test]
fn scalar_arithmetic_exact() {
    let a = Scalar::from_u64(6);
    let b = Scalar::from_u64(7);
    assert_eq!(fr_add(&a, &b), Scalar::from_u64(13));
    assert_eq!(fr_mul(&a, &b), Scalar::from_u64(42));
    // 5 - 7 wraps around the field order; adding 7 back recovers 5.
    let d = fr_sub(&Scalar::from_u64(5), &b);
    assert_eq!(fr_add(&d, &b), Scalar::from_u64(5));
}

#[test]
fn split_chunks_exact() {
    let x = Scalar::from_u64(0x1_0000_0005);
    let split = SplitScalar::new(&x);
    let chunks = split.splits();
    assert_eq!(chunks.len(), 8);
    assert_eq!(chunks[0], Scalar::from_u64(5));
    assert_eq!(chunks[1], Scalar::from_u64(1));
    for k in 2..8 {
        assert_eq!(chunks[k], Scalar::from_u64(0));
    }
}

#[test]
fn curve_delegates_behave() {
    let two = g1_gen_mul(&Scalar::from_u64(2));
    let one = g1_gen_mul(&Scalar::from_u64(1));
    assert_eq!(g1_add(&one, &one), two);
    let five = g1_gen_mul(&Scalar::from_u64(5));
    assert_eq!(g1_mul(&one, &Scalar::from_u64(5)), five);
    // a valid encoding round-trips; a wrong-length one is rejected
    assert!(G1Point::from_bytes(five.as_bytes()).is_some());
    assert!(G1Point::from_bytes(&vec![0u8; 47]).is_none());
}

#[test]
fn decrypt_recovers_plaintext_point() {
    let mut rng = EntropyRng::from_seed(&seed_bytes(2));
    let sk = rng.rand_scalar();
    let pk = g1_gen_mul(&sk);
    let msg = Scalar::from_u64(123456);
    let r = rng.rand_scalar();
    let cipher = encrypt_with_randomness(&msg, &pk, &r);
    assert_eq!(decrypt(&cipher, &sk), g1_gen_mul(&msg));
}

#[test]
fn build_lengths_and_decryption() {
    let mut rng = EntropyRng::from_seed(&seed_bytes(3));
    let sk = rng.rand_scalar();
    let pk = g1_gen_mul(&sk);
    let mut data: Vec<Scalar> = Vec::new();
    for _ in 0..8 {
        data.push(rng.rand_scalar());
    }
    let ep = EncryptionProof::enc1(&data, &pk, &mut rng);
    assert_eq!(ep.ciphers.len(), 8);
    assert_eq!(ep.short_ciphers.len(), 8);
    assert_eq!(ep.random_encryption_points.len(), 8);
    for i in 0..8 {
        assert_eq!(ep.short_ciphers[i].len(), 8);
        // decrypting the full cipher recovers the evaluation, as a point
        assert_eq!(decrypt(&ep.ciphers[i], &sk), g1_gen_mul(&data[i]));
    }
}

#[test]
fn short_ciphers_tie_to_full_cipher() {
    let mut rng = EntropyRng::from_seed(&seed_bytes(4));
    let sk = rng.rand_scalar();
    let pk = g1_gen_mul(&sk);
    let data = vec![rng.rand_scalar(), rng.rand_scalar()];
    let ep = EncryptionProof::enc1(&data, &pk, &mut rng);
    let radix = Scalar::from_u64(0x1_0000_0000);
    for i in 0..data.len() {
        // sum the chunk ciphers with weights 2^(32 k): the homomorphic
        // combination must equal the full cipher of the item
        let mut weight = Scalar::from_u64(1);
        let mut acc0 = g1_mul(&ep.short_ciphers[i][0].c0, &weight);
        let mut acc1 = g1_mul(&ep.short_ciphers[i][0].c1, &weight);
        for k in 1..8 {
            weight = fr_mul(&weight, &radix);
            acc0 = g1_add(&acc0, &g1_mul(&ep.short_ciphers[i][k].c0, &weight));
            acc1 = g1_add(&acc1, &g1_mul(&ep.short_ciphers[i][k].c1, &weight));
        }
        assert_eq!(acc0, ep.ciphers[i].c0);
        assert_eq!(acc1, ep.ciphers[i].c1);
    }
}

#[test]
fn extend_concatenates_in_order() {
    let mut rng = EntropyRng::from_seed(&seed_bytes(5));
    let pk = g1_gen_mul(&rng.rand_scalar());
    let left = vec![rng.rand_scalar(), rng.rand_scalar()];
    let right = vec![rng.rand_scalar()];
    let ep_left = EncryptionProof::enc1(&left, &pk, &mut rng);
    let ep_right = EncryptionProof::enc1(&right, &pk, &mut rng);
    let first_right = ep_right.ciphers[0].duplicate();
    let first_left = ep_left.ciphers[0].duplicate();
    let whole = ep_left.extend(ep_right);
    assert_eq!(whole.ciphers.len(), 3);
    assert_eq!(whole.ciphers[0], first_left);
    assert_eq!(whole.ciphers[2], first_right);
}

#[test]
fn sampling_is_deterministic() {
    let seed = seed_bytes(6);
    let mut rng1 = SeededRng::from_seed(&seed);
    let mut rng2 = SeededRng::from_seed(&seed);
    let a = random_subset_indices(16, 8, &mut rng1).unwrap();
    let b = random_subset_indices(16, 8, &mut rng2).unwrap();
    assert_eq!(a, b);
    assert_eq!(a.len(), 8);
    for i in 0..a.len() {
        assert!(a[i] < 16);
        for j in 0..i {
            assert_ne!(a[j], a[i]);
        }
    }
    // a different seed gives a different subset here
    let mut rng3 = SeededRng::from_seed(&seed_bytes(66));
    let c = random_subset_indices(16, 8, &mut rng3).unwrap();
    assert_ne!(a, c);
}

#[test]
fn sampling_rejects_oversized_subset() {
    let mut rng = SeededRng::from_seed(&seed_bytes(6));
    let r = random_subset_indices(8, 9, &mut rng);
    assert_eq!(r, Err(Error::InvalidParameters));
}

#[test]
fn projection_is_a_sorted_gather() {
    let mut rng = EntropyRng::from_seed(&seed_bytes(8));
    let pk = g1_gen_mul(&rng.rand_scalar());
    let mut data: Vec<Scalar> = Vec::new();
    for _ in 0..4 {
        data.push(rng.rand_scalar());
    }
    let ep = EncryptionProof::enc1(&data, &pk, &mut rng);
    let indices = vec![3usize, 0, 2];
    let sub = ep.subset(&indices).unwrap();
    // ascending order: 0, 2, 3
    assert_eq!(sub.ciphers.len(), 3);
    assert_eq!(sub.ciphers[0], ep.ciphers[0]);
    assert_eq!(sub.ciphers[1], ep.ciphers[2]);
    assert_eq!(sub.ciphers[2], ep.ciphers[3]);
    assert_eq!(sub.short_ciphers[1], ep.short_ciphers[2]);
    assert_eq!(sub.random_encryption_points[2], ep.random_encryption_points[3]);
    // out-of-range index is rejected
    assert!(ep.subset(&vec![4usize]).is_err());
}

#[test]
fn project_pairs_proof_with_evaluations() {
    let mut rng = EntropyRng::from_seed(&seed_bytes(10));
    let pk = g1_gen_mul(&rng.rand_scalar());
    let mut data: Vec<Scalar> = Vec::new();
    for _ in 0..8 {
        data.push(rng.rand_scalar());
    }
    let ep = EncryptionProof::enc1(&data, &pk, &mut rng);
    let subdomain = Domain::new(4).unwrap();
    let indices = vec![5usize, 1, 7, 3];
    let (sub_ep, sub_evals) = project(&ep, &data, &indices, &subdomain).unwrap();
    assert_eq!(sub_ep.ciphers.len(), 4);
    assert_eq!(sub_evals, vec![data[1], data[3], data[5], data[7]]);
    assert_eq!(sub_ep.ciphers[0], ep.ciphers[1]);
    assert_eq!(sub_ep.ciphers[3], ep.ciphers[7]);
    // a size mismatch with the subdomain is rejected
    assert!(project(&ep, &data, &vec![1usize, 2], &subdomain).is_err());
}

#[test]
fn challenge_seed_is_deterministic() {
    let commitment = vec![1u8, 2, 3, 4];
    let s1 = challenge_seed(&commitment);
    let s2 = challenge_seed(&commitment);
    assert_eq!(s1, s2);
    assert_eq!(s1.len(), 32);
    let other = challenge_seed(&vec![1u8, 2, 3, 5]);
    assert_ne!(s1, other);
}

#[test]
fn challenge_seed_known_value() {
    // Keccak-256 of the empty string, reduced modulo the field order and
    // re-encoded big-endian
    let expected: Vec<u8> = vec![
        81, 228, 158, 174, 93, 89, 165, 244, 95, 68, 165, 170, 211, 37, 43, 187, 145, 67, 18, 80,
        202, 131, 203, 60, 123, 250, 216, 5, 93, 133, 164, 111,
    ];
    assert_eq!(challenge_seed(&Vec::new()), expected);
}

#[test]
fn byte_reduction_matches_integer_value() {
    // 0x0100 read big-endian is 256
    let r = fr_from_be_bytes_mod_order(&vec![1u8, 0]);
    assert_eq!(r, Scalar::from_u64(256));
}

#[test]
fn invalid_point_encodings_are_rejected() {
    // infinity flag set on a nonzero payload is not a valid encoding
    assert!(G1Point::from_bytes(&vec![0xffu8; 48]).is_none());
}

#[test]
fn audit_flow_end_to_end() {
    // domain size 16, audit subset size 8: build, derive the challenge
    // from a commitment stand-in, sample, project, and check the
    // projected ciphers against the projected evaluations
    let mut rng = EntropyRng::from_seed(&seed_bytes(11));
    let sk = rng.rand_scalar();
    let pk = g1_gen_mul(&sk);
    let mut data: Vec<Scalar> = Vec::new();
    for _ in 0..16 {
        data.push(rng.rand_scalar());
    }
    let ep = EncryptionProof::enc1(&data, &pk, &mut rng);
    let seed = challenge_seed(pk.as_bytes());
    let mut sampler = SeededRng::from_seed(&seed);
    let indices = random_subset_indices(16, 8, &mut sampler).unwrap();
    let subdomain = Domain::new(8).unwrap();
    let (sub_ep, sub_evals) = project(&ep, &data, &indices, &subdomain).unwrap();
    assert_eq!(sub_ep.ciphers.len(), 8);
    assert_eq!(sub_evals.len(), 8);
    for k in 0..8 {
        assert_eq!(decrypt(&sub_ep.ciphers[k], &sk), g1_gen_mul(&sub_evals[k]));
    }
    // the verifier derives the same subset independently
    let mut sampler2 = SeededRng::from_seed(&seed);
    let indices2 = random_subset_indices(16, 8, &mut sampler2).unwrap();
    assert_eq!(indices, indices2);
}

#[test]
fn domain_construction_and_elements() {
    assert_eq!(Domain::new(3).unwrap_err(), Error::InvalidDomainSize);
    assert_eq!(Domain::new(0).unwrap_err(), Error::InvalidDomainSize);
    let d = Domain::new(4).unwrap();
    assert_eq!(d.size, 4);
    let map = index_map(&d);
    assert_eq!(map.len(), 4);
    assert_eq!(map[0], Scalar::from_u64(1));
    // the generator has order four: g * g^3 == 1 and g^2 == map[2]
    assert_eq!(fr_mul(&map[1], &map[3]), Scalar::from_u64(1));
    assert_eq!(fr_mul(&map[1], &map[1]), map[2]);
    // the four elements are pairwise distinct: the map is a bijection
    for i in 0..4 {
        for j in 0..i {
            assert_ne!(map[j], map[i]);
        }
    }
}

#[test]
fn vanishing_poly_of_one_root() {
    let d = Domain::new(4).unwrap();
    let poly = to_vanishing_poly(&vec![0usize], &d);
    // X - 1: constant term is -1, leading coefficient is 1
    assert_eq!(poly.len(), 2);
    assert_eq!(poly[1], Scalar::from_u64(1));
    assert_eq!(fr_add(&poly[0], &Scalar::from_u64(1)), Scalar::from_u64(0));
}

#[test]
fn vanishing_poly_roots_vanish() {
    let d = Domain::new(4).unwrap();
    let map = index_map(&d);
    let poly = to_vanishing_poly(&vec![1usize, 3], &d);
    assert_eq!(poly.len(), 3);
    // evaluate at both roots by Horner: the polynomial vanishes there
    for idx in [1usize, 3] {
        let x = map[idx];
        let mut acc = poly[2];
        acc = fr_add(&fr_mul(&acc, &x), &poly[1]);
        acc = fr_add(&fr_mul(&acc, &x), &poly[0]);
        assert_eq!(acc, Scalar::from_u64(0));
    }
}

#[test]
fn next_pow2_and_padding() {
    assert_eq!(next_pow2(0), 1);
    assert_eq!(next_pow2(1), 1);
    assert_eq!(next_pow2(5), 8);
    assert_eq!(next_pow2(8), 8);
    let data = vec![Scalar::from_u64(9), Scalar::from_u64(8), Scalar::from_u64(7)];
    let padded = pad_to_pow2(&data);
    assert_eq!(padded.len(), 4);
    assert_eq!(padded[0], Scalar::from_u64(9));
    assert_eq!(padded[2], Scalar::from_u64(7));
    assert_eq!(padded[3], Scalar::from_u64(0));
}

//! Session-level behaviour: building an encryption proof over a data
//! vector, persisting a whole session, and drawing seeded randomness.

use fde_plus::encryption::EncryptionProof;
use fde_plus::point::g1_gen_mul;
use fde_plus::rng::{EntropyRng, SeededRng};
use fde_plus::scalar::Scalar;
use fde_plus::session::{load, save, SessionState};
use fde_plus::veck::random_subset_indices;

fn seed_bytes(tag: u8) -> Vec<u8> {
    let mut v = vec![0u8; 32];
    v[0] = tag;
    v
}

#[test]
fn test_encryption() {
    let mut rng = EntropyRng::from_seed(&seed_bytes(1));
    let tau = rng.rand_scalar();

    let encryption_sk = rng.rand_scalar();
    let encryption_pk = g1_gen_mul(&encryption_sk);

    let m: usize = 64;

    let mut data: Vec<Scalar> = Vec::new();
    for _ in 0..m {
        data.push(rng.rand_scalar());
    }

    let encryption = EncryptionProof::enc1(&data, &encryption_pk, &mut rng);

    let session = SessionState {
        tau,
        data: data.clone(),
        encryption,
        sk: encryption_sk,
        pk: encryption_pk.duplicate(),
    };
    let bytes = save(&session);
    let loaded = load(&bytes).unwrap();

    assert_eq!(tau, loaded.tau);
    assert_eq!(data, loaded.data);
    assert_eq!(session.encryption.ciphers, loaded.encryption.ciphers);
    assert_eq!(session.encryption.short_ciphers, loaded.encryption.short_ciphers);
    assert_eq!(
        session.encryption.random_encryption_points,
        loaded.encryption.random_encryption_points
    );
    assert_eq!(encryption_sk, loaded.sk);
    assert_eq!(encryption_pk, loaded.pk);
}

#[test]
fn test_rand() {
    let mut source = EntropyRng::from_seed(&seed_bytes(7));
    let challenge = source.rand_scalar();
    let seed_vec = challenge.to_be_bytes();

    for _ in 0..10 {
        let mut rng = SeededRng::from_seed(&seed_vec);
        for i in 0..4 {
            let random_value: u64 = rng.next_word();
            println!("Random value - {}: {}", i, random_value);
        }
        println!("---");
    }
}

#[test]
fn test_random_subset_indices() {
    let mut source = EntropyRng::from_seed(&seed_bytes(9));
    let challenge = source.rand_scalar();
    let seed_vec = challenge.to_be_bytes();

    let mut rng = SeededRng::from_seed(&seed_vec);
    let indices = random_subset_indices(16, 8, &mut rng).unwrap();
    println!("Random subset indices: {:?}", indices);
}

//! Session persistence: the round trip reproduces every field, and
//! malformed blobs are rejected with the deserialization error.

use fde_plus::encryption::EncryptionProof;
use fde_plus::point::g1_gen_mul;
use fde_plus::rng::EntropyRng;
use fde_plus::scalar::Scalar;
use fde_plus::session::{load, reload, save, SessionState};
use fde_plus::Error;

fn seed_bytes(tag: u8) -> Vec<u8> {
    let mut v = vec![0u8; 32];
    v[0] = tag;
    v
}

fn small_session(tag: u8) -> SessionState {
    let mut rng = EntropyRng::from_seed(&seed_bytes(tag));
    let tau = rng.rand_scalar();
    let sk = rng.rand_scalar();
    let pk = g1_gen_mul(&sk);
    let data = vec![rng.rand_scalar(), rng.rand_scalar()];
    let encryption = EncryptionProof::enc1(&data, &pk, &mut rng);
    SessionState { tau, data, encryption, sk, pk }
}

#[test]
fn roundtrip_reproduces_session() {
    let s = small_session(21);
    let bytes = save(&s);
    let loaded = load(&bytes).unwrap();
    assert_eq!(s.tau, loaded.tau);
    assert_eq!(s.sk, loaded.sk);
    assert_eq!(s.pk, loaded.pk);
    assert_eq!(s.data, loaded.data);
    assert_eq!(s.encryption.ciphers, loaded.encryption.ciphers);
    assert_eq!(s.encryption.short_ciphers, loaded.encryption.short_ciphers);
    assert_eq!(
        s.encryption.random_encryption_points,
        loaded.encryption.random_encryption_points
    );
}

#[test]
fn reload_reproduces_session() {
    let s = small_session(22);
    let r = reload(&s);
    assert_eq!(s.tau, r.tau);
    assert_eq!(s.data, r.data);
    assert_eq!(s.encryption.ciphers, r.encryption.ciphers);
    assert_eq!(s.pk, r.pk);
}

#[test]
fn malformed_blobs_are_rejected() {
    assert_eq!(load(&Vec::new()).unwrap_err(), Error::DeserializationFailed);
    let s = small_session(23);
    let bytes = save(&s);
    // truncation
    let mut cut = bytes.clone();
    cut.pop();
    assert_eq!(load(&cut).unwrap_err(), Error::DeserializationFailed);
    // a non-canonical scalar: force the trapdoor's high byte past the
    // field order
    let mut bad = bytes.clone();
    bad[31] = 0xff;
    assert_eq!(load(&bad).unwrap_err(), Error::DeserializationFailed);
    // trailing garbage
    let mut long = bytes.clone();
    long.push(0);
    assert_eq!(load(&long).unwrap_err(), Error::DeserializationFailed);
}

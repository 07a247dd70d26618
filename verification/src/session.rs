//! Session persistence.  A whole session — trapdoor, data vector,
//! encryption proof, key pair — is encoded as one length-prefixed binary
//! blob whose layout is fixed here, byte for byte, by spec functions;
//! `save` produces exactly that encoding and `load` accepts exactly the
//! encodings of well-formed sessions, so a round trip reproduces the
//! session.

use vstd::prelude::*;
use crate::elgamal::{cipher_eqv, Cipher};
use crate::encryption::EncryptionProof;
use crate::point::{G1Point, POINT_BYTES};
use crate::scalar::{fr_is_canonical, scalar_le_bytes, u64_le_byte, lemma_scalar_le_bytes_inj,
    lemma_u64_le_bytes_inj, push_u64_le, read_u64_le, Scalar};
use crate::split::N_CHUNKS;
use crate::Error;

verus! {

/// A reproducible session: the commitment trapdoor, the data vector, its
/// encryption proof, and the ElGamal key pair.
#[derive(Debug)]
pub struct SessionState {
    pub tau: Scalar,
    pub data: Vec<Scalar>,
    pub encryption: EncryptionProof,
    pub sk: Scalar,
    pub pk: G1Point,
}

impl SessionState {
    /// Everything canonical and structurally consistent.
    pub open spec fn wf(self) -> bool {
        &&& self.tau.wf()
        &&& self.sk.wf()
        &&& self.pk.wf()
        &&& forall|i: int| 0 <= i < self.data@.len() ==> (#[trigger] self.data@[i]).wf()
        &&& self.encryption.wf()
    }
}

/// The eight little-endian bytes of a 64-bit count.
pub open spec fn enc_u64(x: u64) -> Seq<u8> {
    Seq::new(8, |j: int| u64_le_byte(x, j))
}

/// A point is encoded as its 48 compressed bytes.
pub open spec fn enc_point(p: G1Point) -> Seq<u8> {
    p@
}

/// A cipher is its two points, first then second.
pub open spec fn enc_cipher(c: Cipher) -> Seq<u8> {
    c.c0@ + c.c1@
}

/// A cipher list, in order.
pub open spec fn enc_ciphers(s: Seq<Cipher>) -> Seq<u8>
    decreases s.len(),
{
    if s.len() == 0 {
        Seq::empty()
    } else {
        enc_ciphers(s.drop_last()) + enc_cipher(s.last())
    }
}

/// A scalar list, in order.
pub open spec fn enc_scalars(s: Seq<Scalar>) -> Seq<u8>
    decreases s.len(),
{
    if s.len() == 0 {
        Seq::empty()
    } else {
        enc_scalars(s.drop_last()) + scalar_le_bytes(s.last())
    }
}

/// One item of an encryption proof: full cipher, chunk ciphers,
/// randomness point.
pub open spec fn enc_item(ep: EncryptionProof, i: int) -> Seq<u8> {
    enc_cipher(ep.ciphers@[i]) + enc_ciphers(ep.short_ciphers@[i]@) + enc_point(
        ep.random_encryption_points@[i],
    )
}

/// The first `k` items of an encryption proof, in order.
pub open spec fn enc_items(ep: EncryptionProof, k: int) -> Seq<u8>
    decreases k,
{
    if k <= 0 {
        Seq::empty()
    } else {
        enc_items(ep, k - 1) + enc_item(ep, k - 1)
    }
}

/// Bytes of the fixed-size head: trapdoor, secret key, public key.
pub open spec fn enc_head(s: SessionState) -> Seq<u8> {
    scalar_le_bytes(s.tau) + scalar_le_bytes(s.sk) + enc_point(s.pk)
}

/// The whole session blob: head, then the length-prefixed data vector,
/// then the length-prefixed item list.
pub open spec fn encode_session(s: SessionState) -> Seq<u8> {
    enc_head(s) + enc_u64(s.data@.len() as u64) + enc_scalars(s.data@) + enc_u64(
        s.encryption.ciphers@.len() as u64,
    ) + enc_items(s.encryption, s.encryption.ciphers@.len() as int)
}

/// Size in bytes of one encoded cipher.
pub open spec fn cipher_bytes() -> int {
    2 * POINT_BYTES
}

/// Size in bytes of one encoded item.
pub open spec fn item_bytes() -> int {
    cipher_bytes() + N_CHUNKS * cipher_bytes() + POINT_BYTES
}

/// A cipher list of well-formed ciphers encodes to 96 bytes each.
pub proof fn lemma_enc_ciphers_len(s: Seq<Cipher>)
    requires
        forall|k: int| 0 <= k < s.len() ==> (#[trigger] s[k]).wf(),
    ensures
        enc_ciphers(s).len() == cipher_bytes() * s.len(),
    decreases s.len(),
{
    assert(cipher_bytes() == 96);
    if s.len() > 0 {
        let d = s.drop_last();
        assert forall|k: int| 0 <= k < d.len() implies (#[trigger] d[k]).wf() by {
            assert(d[k] == s[k]);
        }
        lemma_enc_ciphers_len(d);
        assert(s.last().wf());
        assert(enc_cipher(s.last()).len() == 96);
    }
}

/// A scalar list encodes to 32 bytes each.
pub proof fn lemma_enc_scalars_len(s: Seq<Scalar>)
    ensures
        enc_scalars(s).len() == 32 * s.len(),
    decreases s.len(),
{
    if s.len() > 0 {
        lemma_enc_scalars_len(s.drop_last());
    }
}

/// Each well-formed item encodes to `item_bytes()` bytes.
pub proof fn lemma_enc_item_len(ep: EncryptionProof, i: int)
    requires
        ep.wf(),
        0 <= i < ep.ciphers@.len(),
    ensures
        enc_item(ep, i).len() == item_bytes(),
{
    assert(cipher_bytes() == 96 && item_bytes() == 912);
    lemma_enc_ciphers_len(ep.short_ciphers@[i]@);
}

/// The first `k` items of a well-formed proof encode to `k` fixed-size
/// records.
pub proof fn lemma_enc_items_len(ep: EncryptionProof, k: int)
    requires
        ep.wf(),
        0 <= k <= ep.ciphers@.len(),
    ensures
        enc_items(ep, k).len() == item_bytes() * k,
    decreases k,
{
    assert(item_bytes() == 912);
    if k > 0 {
        lemma_enc_items_len(ep, k - 1);
        lemma_enc_item_len(ep, k - 1);
    }
}

/// The slice of an encoded scalar list holding entry `i`.
pub proof fn lemma_enc_scalars_slice(s: Seq<Scalar>, i: int)
    requires
        0 <= i < s.len(),
    ensures
        enc_scalars(s).subrange(32 * i, 32 * i + 32) == scalar_le_bytes(s[i]),
    decreases s.len(),
{
    lemma_enc_scalars_len(s);
    if i == s.len() - 1 {
        lemma_enc_scalars_len(s.drop_last());
        assert(enc_scalars(s).subrange(32 * i, 32 * i + 32) =~= scalar_le_bytes(s.last()));
    } else {
        lemma_enc_scalars_slice(s.drop_last(), i);
        lemma_enc_scalars_len(s.drop_last());
        assert(enc_scalars(s).subrange(32 * i, 32 * i + 32) =~= enc_scalars(
            s.drop_last(),
        ).subrange(32 * i, 32 * i + 32));
    }
}

/// The slice of an encoded cipher list holding entry `k`.
pub proof fn lemma_enc_ciphers_slice(s: Seq<Cipher>, k: int)
    requires
        0 <= k < s.len(),
        forall|t: int| 0 <= t < s.len() ==> (#[trigger] s[t]).wf(),
    ensures
        enc_ciphers(s).subrange(cipher_bytes() * k, cipher_bytes() * k + cipher_bytes())
            == enc_cipher(s[k]),
    decreases s.len(),
{
    assert(cipher_bytes() == 96);
    lemma_enc_ciphers_len(s);
    if k == s.len() - 1 {
        lemma_enc_ciphers_len(s.drop_last());
        assert(enc_ciphers(s).subrange(cipher_bytes() * k, cipher_bytes() * k + cipher_bytes())
            =~= enc_cipher(s.last()));
    } else {
        let d = s.drop_last();
        assert forall|t: int| 0 <= t < d.len() implies (#[trigger] d[t]).wf() by {
            assert(d[t] == s[t]);
        }
        lemma_enc_ciphers_slice(d, k);
        lemma_enc_ciphers_len(d);
        assert(enc_ciphers(s).subrange(cipher_bytes() * k, cipher_bytes() * k + cipher_bytes())
            =~= enc_ciphers(d).subrange(cipher_bytes() * k, cipher_bytes() * k + cipher_bytes()));
        assert(d[k] == s[k]);
    }
}

/// The slice of an encoded item list holding item `i`.
pub proof fn lemma_enc_items_slice(ep: EncryptionProof, k: int, i: int)
    requires
        ep.wf(),
        0 <= i < k <= ep.ciphers@.len(),
    ensures
        enc_items(ep, k).subrange(item_bytes() * i, item_bytes() * i + item_bytes()) == enc_item(
            ep,
            i,
        ),
    decreases k,
{
    assert(item_bytes() == 912);
    lemma_enc_items_len(ep, k);
    if i == k - 1 {
        lemma_enc_items_len(ep, k - 1);
        lemma_enc_item_len(ep, i);
        assert(enc_items(ep, k).subrange(item_bytes() * i, item_bytes() * i + item_bytes())
            =~= enc_item(ep, k - 1));
    } else {
        lemma_enc_items_slice(ep, k - 1, i);
        lemma_enc_items_len(ep, k - 1);
        lemma_enc_item_len(ep, i);
        assert(enc_items(ep, k).subrange(item_bytes() * i, item_bytes() * i + item_bytes())
            =~= enc_items(ep, k - 1).subrange(item_bytes() * i, item_bytes() * i + item_bytes()));
    }
}

/// Appends a copy of `src` to `out`.
fn append_bytes(out: &mut Vec<u8>, src: &Vec<u8>)
    ensures
        final(out)@ == old(out)@ + src@,
{
    let mut i: usize = 0;
    while i < src.len()
        invariant
            i <= src@.len(),
            out@ == old(out)@ + src@.subrange(0, i as int),
        decreases src@.len() - i,
    {
        let ghost prev = out@;
        out.push(src[i]);
        proof {
            assert(prev.push(src@[i as int]) =~= old(out)@ + src@.subrange(0, i + 1));
        }
        i += 1;
    }
    proof {
        assert(src@.subrange(0, src@.len() as int) =~= src@);
    }
}

/// Serializes a session into its canonical blob.  Only the structural
/// agreement of the proof's arrays is needed, and a caller can check it
/// by comparing their lengths.
pub fn save(s: &SessionState) -> (r: Vec<u8>)
    requires
        s.encryption.short_ciphers@.len() == s.encryption.ciphers@.len(),
        s.encryption.random_encryption_points@.len() == s.encryption.ciphers@.len(),
    ensures
        r@ == encode_session(*s),
{
    let mut out: Vec<u8> = Vec::new();
    let tau_bytes = s.tau.to_le_bytes();
    append_bytes(&mut out, &tau_bytes);
    let sk_bytes = s.sk.to_le_bytes();
    append_bytes(&mut out, &sk_bytes);
    append_bytes(&mut out, s.pk.as_bytes());
    proof {
        assert(out@ == enc_head(*s));
    }
    push_u64_le(&mut out, s.data.len() as u64);
    proof {
        assert(out@ =~= enc_head(*s) + enc_u64(s.data@.len() as u64));
    }
    let ghost base = out@;
    let mut i: usize = 0;
    while i < s.data.len()
        invariant
            i <= s.data@.len(),
            out@ == base + enc_scalars(s.data@.subrange(0, i as int)),
        decreases s.data@.len() - i,
    {
        let sb = s.data[i].to_le_bytes();
        append_bytes(&mut out, &sb);
        proof {
            let d = s.data@.subrange(0, i + 1);
            assert(d.drop_last() =~= s.data@.subrange(0, i as int));
            assert(d.last() == s.data@[i as int]);
            assert(out@ == base + enc_scalars(d));
        }
        i += 1;
    }
    proof {
        assert(s.data@.subrange(0, s.data@.len() as int) =~= s.data@);
    }
    push_u64_le(&mut out, s.encryption.ciphers.len() as u64);
    proof {
        assert(out@ =~= enc_head(*s) + enc_u64(s.data@.len() as u64) + enc_scalars(s.data@)
            + enc_u64(s.encryption.ciphers@.len() as u64));
    }
    let ghost base2 = out@;
    let ep = &s.encryption;
    let mut i: usize = 0;
    while i < ep.ciphers.len()
        invariant
            i <= ep.ciphers@.len(),
            ep == s.encryption,
            ep.short_ciphers@.len() == ep.ciphers@.len(),
            ep.random_encryption_points@.len() == ep.ciphers@.len(),
            out@ == base2 + enc_items(*ep, i as int),
        decreases ep.ciphers@.len() - i,
    {
        append_bytes(&mut out, ep.ciphers[i].c0.as_bytes());
        append_bytes(&mut out, ep.ciphers[i].c1.as_bytes());
        proof {
            assert(out@ == base2 + enc_items(*ep, i as int) + enc_cipher(ep.ciphers@[i as int]));
        }
        let ghost base3 = out@;
        let shorts = &ep.short_ciphers[i];
        let mut t: usize = 0;
        while t < shorts.len()
            invariant
                t <= shorts@.len(),
                shorts == ep.short_ciphers@[i as int],
                out@ == base3 + enc_ciphers(shorts@.subrange(0, t as int)),
            decreases shorts@.len() - t,
        {
            append_bytes(&mut out, shorts[t].c0.as_bytes());
            append_bytes(&mut out, shorts[t].c1.as_bytes());
            proof {
                let d = shorts@.subrange(0, t + 1);
                assert(d.drop_last() =~= shorts@.subrange(0, t as int));
                assert(d.last() == shorts@[t as int]);
                assert(out@ == base3 + enc_ciphers(d));
            }
            t += 1;
        }
        proof {
            assert(shorts@.subrange(0, shorts@.len() as int) =~= shorts@);
        }
        append_bytes(&mut out, ep.random_encryption_points[i].as_bytes());
        proof {
            assert(out@ =~= base2 + enc_items(*ep, i + 1));
        }
        i += 1;
    }
    proof {
        assert(out@ == encode_session(*s));
    }
    out
}

/// Some well-formed session encodes to exactly these bytes.
pub open spec fn decodable(b: Seq<u8>) -> bool {
    exists|s: SessionState| s.wf() && encode_session(s) == b
}

/// Total size of the encoding of a well-formed session.
pub proof fn lemma_encode_len(s: SessionState)
    requires
        s.wf(),
    ensures
        encode_session(s).len() == 128 + 32 * s.data@.len() + 912 * s.encryption.ciphers@.len(),
{
    lemma_enc_scalars_len(s.data@);
    lemma_enc_items_len(s.encryption, s.encryption.ciphers@.len() as int);
    assert(item_bytes() == 912);
}

/// Where each component of a well-formed session sits in its encoding.
pub proof fn lemma_encode_slices(s: SessionState)
    requires
        s.wf(),
    ensures
        encode_session(s).subrange(0, 32) == scalar_le_bytes(s.tau),
        encode_session(s).subrange(32, 64) == scalar_le_bytes(s.sk),
        encode_session(s).subrange(64, 112) == s.pk@,
        encode_session(s).subrange(112, 120) == enc_u64(s.data@.len() as u64),
        forall|i: int|
            0 <= i < s.data@.len() ==> encode_session(s).subrange(120 + 32 * i, 152 + 32 * i)
                == scalar_le_bytes(#[trigger] s.data@[i]),
        encode_session(s).subrange(
            120 + 32 * (s.data@.len() as int),
            128 + 32 * (s.data@.len() as int),
        ) == enc_u64(s.encryption.ciphers@.len() as u64),
        forall|i: int|
            0 <= i < s.encryption.ciphers@.len() ==> encode_session(s).subrange(
                128 + 32 * (s.data@.len() as int) + 912 * i,
                128 + 32 * (s.data@.len() as int) + 912 * i + 912,
            ) == #[trigger] enc_item(s.encryption, i),
{
    let e = encode_session(s);
    let dl = s.data@.len() as int;
    let nl = s.encryption.ciphers@.len() as int;
    lemma_enc_scalars_len(s.data@);
    lemma_enc_items_len(s.encryption, nl);
    assert(item_bytes() == 912);
    assert(e.subrange(0, 32) =~= scalar_le_bytes(s.tau));
    assert(e.subrange(32, 64) =~= scalar_le_bytes(s.sk));
    assert(e.subrange(64, 112) =~= s.pk@);
    assert(e.subrange(112, 120) =~= enc_u64(s.data@.len() as u64));
    assert forall|i: int| 0 <= i < dl implies e.subrange(120 + 32 * i, 152 + 32 * i)
        == scalar_le_bytes(#[trigger] s.data@[i]) by {
        lemma_enc_scalars_slice(s.data@, i);
        assert(e.subrange(120 + 32 * i, 152 + 32 * i) =~= enc_scalars(s.data@).subrange(
            32 * i,
            32 * i + 32,
        ));
    }
    assert(e.subrange(120 + 32 * dl, 128 + 32 * dl) =~= enc_u64(
        s.encryption.ciphers@.len() as u64,
    ));
    assert(enc_head(s).len() == 112);
    assert(enc_u64(s.data@.len() as u64).len() == 8);
    assert(enc_scalars(s.data@).len() == 32 * dl);
    assert(enc_items(s.encryption, nl).len() == 912 * nl);
    assert forall|i: int| 0 <= i < nl implies e.subrange(
        128 + 32 * dl + 912 * i,
        128 + 32 * dl + 912 * i + 912,
    ) == #[trigger] enc_item(s.encryption, i) by {
        lemma_enc_items_slice(s.encryption, nl, i);
        lemma_enc_item_len(s.encryption, i);
        let a = 128 + 32 * dl + 912 * i;
        let items = enc_items(s.encryption, nl);
        assert forall|t: int| 0 <= t < 912 implies #[trigger] e[a + t] == items[912 * i + t] by {
            assert(e[a + t] == items[a + t - (128 + 32 * dl)]);
        }
        assert(e.subrange(a, a + 912) =~= items.subrange(912 * i, 912 * i + 912));
    }
}

/// Where each part of one encoded item sits inside it.
pub proof fn lemma_enc_item_slices(ep: EncryptionProof, i: int)
    requires
        ep.wf(),
        0 <= i < ep.ciphers@.len(),
    ensures
        enc_item(ep, i).subrange(0, 48) == ep.ciphers@[i].c0@,
        enc_item(ep, i).subrange(48, 96) == ep.ciphers@[i].c1@,
        forall|t: int|
            0 <= t < N_CHUNKS ==> enc_item(ep, i).subrange(96 + 96 * t, 144 + 96 * t) == (
            #[trigger] ep.short_ciphers@[i]@[t]).c0@,
        forall|t: int|
            0 <= t < N_CHUNKS ==> enc_item(ep, i).subrange(144 + 96 * t, 192 + 96 * t) == (
            #[trigger] ep.short_ciphers@[i]@[t]).c1@,
        enc_item(ep, i).subrange(864, 912) == ep.random_encryption_points@[i]@,
{
    let e = enc_item(ep, i);
    lemma_enc_ciphers_len(ep.short_ciphers@[i]@);
    lemma_enc_item_len(ep, i);
    assert(cipher_bytes() == 96 && item_bytes() == 912);
    assert(e.subrange(0, 48) =~= ep.ciphers@[i].c0@);
    assert(e.subrange(48, 96) =~= ep.ciphers@[i].c1@);
    assert forall|t: int| 0 <= t < N_CHUNKS implies e.subrange(96 + 96 * t, 144 + 96 * t) == (
    #[trigger] ep.short_ciphers@[i]@[t]).c0@ && e.subrange(144 + 96 * t, 192 + 96 * t)
        == ep.short_ciphers@[i]@[t].c1@ by {
        lemma_enc_ciphers_slice(ep.short_ciphers@[i]@, t);
        assert(e.subrange(96 + 96 * t, 192 + 96 * t) =~= enc_ciphers(
            ep.short_ciphers@[i]@,
        ).subrange(96 * t, 96 * t + 96));
        assert(ep.short_ciphers@[i]@[t].wf());
        assert(e.subrange(96 + 96 * t, 144 + 96 * t) =~= e.subrange(96 + 96 * t, 192 + 96 * t)
            .subrange(0, 48));
        assert(e.subrange(144 + 96 * t, 192 + 96 * t) =~= e.subrange(96 + 96 * t, 192 + 96 * t)
            .subrange(48, 96));
        assert(enc_cipher(ep.short_ciphers@[i]@[t]).subrange(0, 48)
            =~= ep.short_ciphers@[i]@[t].c0@);
        assert(enc_cipher(ep.short_ciphers@[i]@[t]).subrange(48, 96)
            =~= ep.short_ciphers@[i]@[t].c1@);
    }
    assert(e.subrange(864, 912) =~= ep.random_encryption_points@[i]@);
}

/// `enc_items` reads only the first `k` entries of the arrays.
pub proof fn lemma_enc_items_congruent(a: EncryptionProof, b: EncryptionProof, k: int)
    requires
        0 <= k,
        forall|j: int| 0 <= j < k ==> a.ciphers@[j] == b.ciphers@[j],
        forall|j: int| 0 <= j < k ==> a.short_ciphers@[j] == b.short_ciphers@[j],
        forall|j: int| 0 <= j < k ==> a.random_encryption_points@[j] == b.random_encryption_points@[j],
    ensures
        enc_items(a, k) == enc_items(b, k),
    decreases k,
{
    if k > 0 {
        lemma_enc_items_congruent(a, b, k - 1);
    }
}

/// Copies `len` bytes starting at `off`.
fn copy_range(b: &Vec<u8>, off: usize, len: usize) -> (r: Vec<u8>)
    requires
        off + len <= b@.len(),
    ensures
        r@ == b@.subrange(off as int, off + len),
{
    let n = b.len();
    assert(off + len <= n);
    let mut out: Vec<u8> = Vec::new();
    let mut i: usize = 0;
    while i < len
        invariant
            i <= len,
            off + len <= n,
            n == b@.len(),
            out@ == b@.subrange(off as int, off + i),
        decreases len - i,
    {
        let ghost prev = out@;
        out.push(b[off + i]);
        proof {
            assert(prev.push(b@[off + i]) =~= b@.subrange(off as int, off + i + 1));
        }
        i += 1;
    }
    out
}

/// Reads a 48-byte group element; accepts exactly valid encodings.
fn take_point(b: &Vec<u8>, off: usize) -> (r: Result<G1Point, Error>)
    requires
        off + 48 <= b@.len(),
    ensures
        r.is_ok() ==> r.unwrap().wf() && r.unwrap()@ == b@.subrange(off as int, off + 48),
        r.is_err() ==> r == Err::<G1Point, Error>(Error::DeserializationFailed),
        forall|p: G1Point|
            p.wf() && #[trigger] p@ == b@.subrange(off as int, off + 48) ==> r.is_ok(),
{
    let seg = copy_range(b, off, 48);
    match G1Point::from_bytes(&seg) {
        Some(p) => Ok(p),
        None => Err(Error::DeserializationFailed),
    }
}

/// Reads a 96-byte cipher; accepts exactly pairs of valid group elements.
fn take_cipher(b: &Vec<u8>, off: usize) -> (r: Result<Cipher, Error>)
    requires
        off + 96 <= b@.len(),
    ensures
        r.is_ok() ==> r.unwrap().wf() && enc_cipher(r.unwrap()) == b@.subrange(
            off as int,
            off + 96,
        ),
        r.is_err() ==> r == Err::<Cipher, Error>(Error::DeserializationFailed),
        forall|c: Cipher|
            c.wf() && #[trigger] enc_cipher(c) == b@.subrange(off as int, off + 96) ==> r.is_ok(),
{
    let n = b.len();
    assert(off + 96 <= n);
    let c0 = take_point(b, off);
    let c1 = take_point(b, off + 48);
    proof {
        assert forall|c: Cipher|
            c.wf() && #[trigger] enc_cipher(c) == b@.subrange(off as int, off + 96) implies c.c0@
            == b@.subrange(off as int, off + 48) && c.c1@ == b@.subrange(
            off + 48,
            off + 96,
        ) by {
            assert(c.c0@ =~= enc_cipher(c).subrange(0, 48));
            assert(c.c1@ =~= enc_cipher(c).subrange(48, 96));
            assert(enc_cipher(c).subrange(0, 48) =~= b@.subrange(off as int, off + 48));
            assert(enc_cipher(c).subrange(48, 96) =~= b@.subrange(off + 48, off + 96));
        }
    }
    match (c0, c1) {
        (Ok(p0), Ok(p1)) => {
            let c = Cipher { c0: p0, c1: p1 };
            proof {
                assert(enc_cipher(c) =~= b@.subrange(off as int, off + 96));
            }
            Ok(c)
        },
        _ => Err(Error::DeserializationFailed),
    }
}

/// Reads a 32-byte scalar; accepts exactly canonical encodings.
fn take_scalar(b: &Vec<u8>, off: usize) -> (r: Result<Scalar, Error>)
    requires
        off + 32 <= b@.len(),
    ensures
        r.is_ok() ==> r.unwrap().wf() && scalar_le_bytes(r.unwrap()) == b@.subrange(
            off as int,
            off + 32,
        ),
        r.is_err() ==> r == Err::<Scalar, Error>(Error::DeserializationFailed),
        forall|x: Scalar|
            x.wf() && #[trigger] scalar_le_bytes(x) == b@.subrange(off as int, off + 32)
                ==> r.is_ok(),
{
    let s = Scalar::from_le_bytes(b, off);
    if fr_is_canonical(&s) {
        Ok(s)
    } else {
        proof {
            assert forall|x: Scalar|
                x.wf() && #[trigger] scalar_le_bytes(x) == b@.subrange(off as int, off + 32)
                    implies false by {
                lemma_scalar_le_bytes_inj(x, s);
            }
        }
        Err(Error::DeserializationFailed)
    }
}


/// The pieces of the encoding that pin the two counts: any well-formed
/// session encoding these bytes has exactly the given vector lengths.
proof fn lemma_counts_determined(b: Seq<u8>, dl64: u64, ni64: u64, dend: int)
    requires
        forall|j: int| 0 <= j < 8 ==> u64_le_byte(dl64, j) == b[112 + j],
        dend == 120 + 32 * (dl64 as int),
        forall|j: int| 0 <= j < 8 ==> u64_le_byte(ni64, j) == b[dend + j],
    ensures
        forall|s: SessionState|
            s.wf() && #[trigger] encode_session(s) == b ==> s.data@.len() == dl64
                && s.encryption.ciphers@.len() == ni64,
{
    assert forall|s: SessionState| s.wf() && #[trigger] encode_session(s) == b implies s.data@.len()
        == dl64 && s.encryption.ciphers@.len() == ni64 by {
        lemma_encode_slices(s);
        lemma_encode_len(s);
        assert(s.data.len() == s.data@.len());
        assert(s.encryption.ciphers.len() == s.encryption.ciphers@.len());
        let sl = s.data@.len() as u64;
        assert forall|j: int| 0 <= j < 8 implies u64_le_byte(sl, j) == u64_le_byte(dl64, j) by {
            assert(enc_u64(sl)[j] == u64_le_byte(sl, j));
            assert(encode_session(s).subrange(112, 120)[j] == b[112 + j]);
        }
        lemma_u64_le_bytes_inj(sl, dl64);
        assert(s.data@.len() == dl64);
        let nl = s.encryption.ciphers@.len() as u64;
        assert forall|j: int| 0 <= j < 8 implies u64_le_byte(nl, j) == u64_le_byte(ni64, j) by {
            assert(enc_u64(nl)[j] == u64_le_byte(nl, j));
            assert(encode_session(s).subrange(
                120 + 32 * (s.data@.len() as int),
                128 + 32 * (s.data@.len() as int),
            )[j] == b[dend + j]);
        }
        lemma_u64_le_bytes_inj(nl, ni64);
    }
}

/// Deserializes a session blob.  Succeeds exactly on the canonical
/// encodings of well-formed sessions, and then returns a session that
/// encodes back to the very same bytes.
pub fn load(b: &Vec<u8>) -> (r: Result<SessionState, Error>)
    ensures
        r.is_ok() ==> r.unwrap().wf() && encode_session(r.unwrap()) == b@,
        r.is_ok() <==> decodable(b@),
        r.is_err() ==> r == Err::<SessionState, Error>(Error::DeserializationFailed),
{
    let n = b.len();
    if n < 128 {
        proof {
            assert forall|s: SessionState|
                s.wf() && #[trigger] encode_session(s) == b@ implies false by {
                lemma_encode_len(s);
            }
        }
        return Err(Error::DeserializationFailed);
    }
    let tau = match take_scalar(b, 0) {
        Ok(x) => x,
        Err(_) => {
            proof {
                assert forall|s: SessionState|
                    s.wf() && #[trigger] encode_session(s) == b@ implies false by {
                    lemma_encode_slices(s);
                    assert(scalar_le_bytes(s.tau) == b@.subrange(0, 32));
                }
            }
            return Err(Error::DeserializationFailed);
        },
    };
    let sk = match take_scalar(b, 32) {
        Ok(x) => x,
        Err(_) => {
            proof {
                assert forall|s: SessionState|
                    s.wf() && #[trigger] encode_session(s) == b@ implies false by {
                    lemma_encode_slices(s);
                    assert(scalar_le_bytes(s.sk) == b@.subrange(32, 64));
                }
            }
            return Err(Error::DeserializationFailed);
        },
    };
    let pk = match take_point(b, 64) {
        Ok(x) => x,
        Err(_) => {
            proof {
                assert forall|s: SessionState|
                    s.wf() && #[trigger] encode_session(s) == b@ implies false by {
                    lemma_encode_slices(s);
                    assert(s.pk@ == b@.subrange(64, 112));
                }
            }
            return Err(Error::DeserializationFailed);
        },
    };
    let dl64 = read_u64_le(b, 112);
    let dend128: u128 = 120u128 + 32u128 * (dl64 as u128);
    if (n as u128) < dend128 + 8 {
        proof {
            assert forall|s: SessionState|
                s.wf() && #[trigger] encode_session(s) == b@ implies false by {
                lemma_encode_slices(s);
                lemma_encode_len(s);
                let sl = s.data@.len() as u64;
                assert forall|j: int| 0 <= j < 8 implies u64_le_byte(sl, j) == u64_le_byte(
                    dl64,
                    j,
                ) by {
                    assert(enc_u64(sl)[j] == u64_le_byte(sl, j));
                    assert(encode_session(s).subrange(112, 120)[j] == b@[112 + j]);
                }
                lemma_u64_le_bytes_inj(sl, dl64);
            }
        }
        return Err(Error::DeserializationFailed);
    }
    proof {
        assert(32 * (dl64 as int) <= n);
    }
    let dl = dl64 as usize;
    let dend = (dend128 as u64) as usize;
    proof {
        assert(dend == 120 + 32 * (dl as int));
    }
    let ni64 = read_u64_le(b, dend);
    let expected128: u128 = dend128 + 8u128 + 912u128 * (ni64 as u128);
    if (n as u128) != expected128 {
        proof {
            lemma_counts_determined(b@, dl64, ni64, dend as int);
            assert forall|s: SessionState|
                s.wf() && #[trigger] encode_session(s) == b@ implies false by {
                lemma_encode_len(s);
            }
        }
        return Err(Error::DeserializationFailed);
    }
    let ni = ni64 as usize;
    proof {
        lemma_counts_determined(b@, dl64, ni64, dend as int);
        assert(n == 128 + 32 * (dl as int) + 912 * (ni as int));
    }
    // data vector
    let mut data: Vec<Scalar> = Vec::new();
    let mut off: usize = 120;
    let mut i: usize = 0;
    while i < dl
        invariant
            i <= dl,
            off == 120 + 32 * i,
            n == b@.len(),
            n == 128 + 32 * (dl as int) + 912 * (ni as int),
            data@.len() == i,
            forall|j: int| 0 <= j < i ==> (#[trigger] data@[j]).wf(),
            enc_scalars(data@) == b@.subrange(120, off as int),
            forall|s: SessionState|
                s.wf() && #[trigger] encode_session(s) == b@ ==> s.data@.len() == dl
                    && s.encryption.ciphers@.len() == ni,
        decreases dl - i,
    {
        let x = match take_scalar(b, off) {
            Ok(x) => x,
            Err(_) => {
                proof {
                    assert forall|s: SessionState|
                        s.wf() && #[trigger] encode_session(s) == b@ implies false by {
                        lemma_encode_slices(s);
                        assert(scalar_le_bytes(s.data@[i as int]) == b@.subrange(
                            120 + 32 * (i as int),
                            152 + 32 * (i as int),
                        ));
                    }
                }
                return Err(Error::DeserializationFailed);
            },
        };
        let ghost prev = data@;
        data.push(x);
        off += 32;
        proof {
            let d = data@;
            assert(d.drop_last() =~= prev);
            assert(d.last() == x);
            assert(enc_scalars(d) == enc_scalars(prev) + scalar_le_bytes(x));
            assert(enc_scalars(d) =~= b@.subrange(120, off as int));
        }
        i += 1;
    }
    // encrypted items
    let items_base = dend + 8;
    let mut ciphers: Vec<Cipher> = Vec::new();
    let mut short_ciphers: Vec<Vec<Cipher>> = Vec::new();
    let mut points: Vec<G1Point> = Vec::new();
    let mut off: usize = items_base;
    let mut i: usize = 0;
    while i < ni
        invariant
            i <= ni,
            off == items_base + 912 * i,
            items_base == 128 + 32 * (dl as int),
            n == b@.len(),
            n == 128 + 32 * (dl as int) + 912 * (ni as int),
            ciphers@.len() == i,
            short_ciphers@.len() == i,
            points@.len() == i,
            forall|j: int| 0 <= j < i ==> (#[trigger] ciphers@[j]).wf(),
            forall|j: int| 0 <= j < i ==> (#[trigger] short_ciphers@[j])@.len() == N_CHUNKS,
            forall|j: int, t: int|
                0 <= j < i && 0 <= t < N_CHUNKS ==> (#[trigger] short_ciphers@[j]@[t]).wf(),
            forall|j: int| 0 <= j < i ==> (#[trigger] points@[j]).wf(),
            enc_items(
                (EncryptionProof {
                    ciphers: ciphers,
                    short_ciphers: short_ciphers,
                    random_encryption_points: points,
                }),
                i as int,
            ) == b@.subrange(items_base as int, off as int),
            forall|s: SessionState|
                s.wf() && #[trigger] encode_session(s) == b@ ==> s.data@.len() == dl
                    && s.encryption.ciphers@.len() == ni,
        decreases ni - i,
    {
        let ghost prev_ep = EncryptionProof {
            ciphers: ciphers,
            short_ciphers: short_ciphers,
            random_encryption_points: points,
        };
        let c = match take_cipher(b, off) {
            Ok(x) => x,
            Err(_) => {
                proof {
                    assert forall|s: SessionState|
                        s.wf() && #[trigger] encode_session(s) == b@ implies false by {
                        lemma_encode_slices(s);
                        lemma_enc_item_slices(s.encryption, i as int);
                        let item = enc_item(s.encryption, i as int);
                        assert(item == b@.subrange(off as int, off + 912));
                        assert(enc_cipher(s.encryption.ciphers@[i as int]) =~= b@.subrange(
                            off as int,
                            off + 96,
                        ));
                    }
                }
                return Err(Error::DeserializationFailed);
            },
        };
        let mut inner: Vec<Cipher> = Vec::new();
        let mut t: usize = 0;
        while t < N_CHUNKS
            invariant
                t <= N_CHUNKS,
                off == items_base + 912 * i,
                i < ni,
                n == b@.len(),
                n == 128 + 32 * (dl as int) + 912 * (ni as int),
                items_base == 128 + 32 * (dl as int),
                inner@.len() == t,
                forall|u: int| 0 <= u < t ==> (#[trigger] inner@[u]).wf(),
                enc_ciphers(inner@) == b@.subrange(off + 96, off + 96 + 96 * t),
                forall|s: SessionState|
                    s.wf() && #[trigger] encode_session(s) == b@ ==> s.data@.len() == dl
                        && s.encryption.ciphers@.len() == ni,
            decreases N_CHUNKS - t,
        {
            let sc = match take_cipher(b, off + 96 + 96 * t) {
                Ok(x) => x,
                Err(_) => {
                    proof {
                        assert forall|s: SessionState|
                            s.wf() && #[trigger] encode_session(s) == b@ implies false by {
                            lemma_encode_slices(s);
                            lemma_enc_item_slices(s.encryption, i as int);
                            let item = enc_item(s.encryption, i as int);
                            assert(item == b@.subrange(off as int, off + 912));
                            let tc = s.encryption.short_ciphers@[i as int]@[t as int];
                            assert(tc.c0@ == item.subrange(96 + 96 * (t as int), 144 + 96 * (
                            t as int)));
                            assert(enc_cipher(tc) =~= b@.subrange(
                                off + 96 + 96 * (t as int),
                                off + 192 + 96 * (t as int),
                            ));
                        }
                    }
                    return Err(Error::DeserializationFailed);
                },
            };
            let ghost prev = inner@;
            inner.push(sc);
            proof {
                assert(inner@.drop_last() =~= prev);
                assert(enc_ciphers(inner@) == enc_ciphers(prev) + enc_cipher(sc));
                assert(enc_ciphers(inner@) =~= b@.subrange(off + 96, off + 96 + 96 * (t + 1)));
            }
            t += 1;
        }
        let rep = match take_point(b, off + 864) {
            Ok(x) => x,
            Err(_) => {
                proof {
                    assert forall|s: SessionState|
                        s.wf() && #[trigger] encode_session(s) == b@ implies false by {
                        lemma_encode_slices(s);
                        lemma_enc_item_slices(s.encryption, i as int);
                        let item = enc_item(s.encryption, i as int);
                        assert(item == b@.subrange(off as int, off + 912));
                        assert(s.encryption.random_encryption_points@[i as int]@ =~= b@.subrange(
                            off + 864,
                            off + 912,
                        ));
                    }
                }
                return Err(Error::DeserializationFailed);
            },
        };
        ciphers.push(c);
        short_ciphers.push(inner);
        points.push(rep);
        off += 912;
        proof {
            let ep = EncryptionProof {
                ciphers: ciphers,
                short_ciphers: short_ciphers,
                random_encryption_points: points,
            };
            lemma_enc_items_congruent(prev_ep, ep, i as int);
            assert(ep.ciphers@[i as int] == c);
            assert(ep.short_ciphers@[i as int]@ == inner@);
            assert(ep.random_encryption_points@[i as int] == rep);
            assert(enc_item(ep, i as int) =~= b@.subrange(
                items_base + 912 * (i as int),
                items_base + 912 * (i as int) + 912,
            ));
            assert(enc_items(ep, i + 1) == enc_items(ep, i as int) + enc_item(ep, i as int));
            assert(enc_items(ep, i + 1) =~= b@.subrange(items_base as int, off as int));
        }
        i += 1;
    }
    let encryption = EncryptionProof { ciphers, short_ciphers, random_encryption_points: points };
    let result = SessionState { tau, data, encryption, sk, pk };
    proof {
        assert(result.wf());
        let e = encode_session(result);
        lemma_encode_len(result);
        assert(enc_head(result) =~= b@.subrange(0, 112));
        assert(enc_u64(result.data@.len() as u64) =~= b@.subrange(112, 120));
        assert(enc_u64(result.encryption.ciphers@.len() as u64) =~= b@.subrange(
            dend as int,
            dend + 8,
        ));
        assert(enc_scalars(result.data@) == b@.subrange(120, dend as int));
        assert(enc_items(result.encryption, ni as int) == b@.subrange(items_base as int, n as int));
        assert(e =~= b@);
        assert(decodable(b@));
    }
    Ok(result)
}

/// Two encryption proofs holding the same values, item by item.
pub open spec fn ep_eqv(a: EncryptionProof, b: EncryptionProof) -> bool {
    &&& a.ciphers@.len() == b.ciphers@.len()
    &&& a.short_ciphers@.len() == b.short_ciphers@.len()
    &&& a.random_encryption_points@.len() == b.random_encryption_points@.len()
    &&& forall|i: int| 0 <= i < a.ciphers@.len() ==> cipher_eqv(#[trigger] a.ciphers@[i], b.ciphers@[i])
    &&& forall|i: int|
        0 <= i < a.short_ciphers@.len() ==> (#[trigger] a.short_ciphers@[i])@.len()
            == b.short_ciphers@[i]@.len()
    &&& forall|i: int, t: int|
        0 <= i < a.short_ciphers@.len() && 0 <= t < a.short_ciphers@[i]@.len() ==> cipher_eqv(
            #[trigger] a.short_ciphers@[i]@[t],
            b.short_ciphers@[i]@[t],
        )
    &&& forall|i: int|
        0 <= i < a.random_encryption_points@.len() ==> (#[trigger] a.random_encryption_points@[i])@
            == b.random_encryption_points@[i]@
}

/// Two sessions holding the same values in every field.
pub open spec fn session_eqv(a: SessionState, b: SessionState) -> bool {
    &&& a.tau == b.tau
    &&& a.sk == b.sk
    &&& a.data@ == b.data@
    &&& a.pk@ == b.pk@
    &&& ep_eqv(a.encryption, b.encryption)
}

/// The encoding pins the session down: two well-formed sessions with the
/// same blob hold the same values, which is what makes `load` after
/// `save` reproduce the session exactly.
pub proof fn lemma_codec_injective(s1: SessionState, s2: SessionState)
    requires
        s1.wf(),
        s2.wf(),
        encode_session(s1) == encode_session(s2),
    ensures
        session_eqv(s1, s2),
{
    lemma_encode_slices(s1);
    lemma_encode_slices(s2);
    lemma_encode_len(s1);
    lemma_encode_len(s2);
    let b = encode_session(s1);
    assert(s1.data.len() == s1.data@.len());
    assert(s2.data.len() == s2.data@.len());
    assert(s1.encryption.ciphers.len() == s1.encryption.ciphers@.len());
    assert(s2.encryption.ciphers.len() == s2.encryption.ciphers@.len());
    let dl1 = s1.data@.len() as u64;
    let dl2 = s2.data@.len() as u64;
    assert forall|j: int| 0 <= j < 8 implies u64_le_byte(dl1, j) == u64_le_byte(dl2, j) by {
        assert(enc_u64(dl1)[j] == u64_le_byte(dl1, j));
        assert(enc_u64(dl2)[j] == u64_le_byte(dl2, j));
        assert(b.subrange(112, 120)[j] == enc_u64(dl1)[j]);
    }
    lemma_u64_le_bytes_inj(dl1, dl2);
    assert(s1.data@.len() == s2.data@.len());
    let dl = s1.data@.len() as int;
    let nl1 = s1.encryption.ciphers@.len() as u64;
    let nl2 = s2.encryption.ciphers@.len() as u64;
    assert forall|j: int| 0 <= j < 8 implies u64_le_byte(nl1, j) == u64_le_byte(nl2, j) by {
        assert(enc_u64(nl1)[j] == u64_le_byte(nl1, j));
        assert(enc_u64(nl2)[j] == u64_le_byte(nl2, j));
        assert(b.subrange(120 + 32 * dl, 128 + 32 * dl)[j] == enc_u64(nl1)[j]);
    }
    lemma_u64_le_bytes_inj(nl1, nl2);
    assert(s1.encryption.ciphers@.len() == s2.encryption.ciphers@.len());
    let nl = s1.encryption.ciphers@.len() as int;
    lemma_scalar_le_bytes_inj(s1.tau, s2.tau);
    lemma_scalar_le_bytes_inj(s1.sk, s2.sk);
    assert(s1.pk@ == s2.pk@);
    assert forall|i: int| 0 <= i < dl implies s1.data@[i] == #[trigger] s2.data@[i] by {
        assert(scalar_le_bytes(s1.data@[i]) == b.subrange(120 + 32 * i, 152 + 32 * i));
        assert(scalar_le_bytes(s2.data@[i]) == b.subrange(120 + 32 * i, 152 + 32 * i));
        lemma_scalar_le_bytes_inj(s1.data@[i], s2.data@[i]);
    }
    assert(s1.data@ =~= s2.data@);
    assert forall|i: int| 0 <= i < nl implies #[trigger] enc_item(s1.encryption, i) == enc_item(
        s2.encryption,
        i,
    ) by {
        assert(enc_item(s1.encryption, i) == b.subrange(
            128 + 32 * dl + 912 * i,
            128 + 32 * dl + 912 * i + 912,
        ));
        assert(enc_item(s2.encryption, i) == b.subrange(
            128 + 32 * dl + 912 * i,
            128 + 32 * dl + 912 * i + 912,
        ));
    }
    assert forall|i: int| 0 <= i < nl implies cipher_eqv(
        #[trigger] s1.encryption.ciphers@[i],
        s2.encryption.ciphers@[i],
    ) && s1.encryption.random_encryption_points@[i]@
        == s2.encryption.random_encryption_points@[i]@ by {
        lemma_enc_item_slices(s1.encryption, i);
        lemma_enc_item_slices(s2.encryption, i);
        assert(enc_item(s1.encryption, i) == enc_item(s2.encryption, i));
    }
    assert forall|i: int, t: int|
        0 <= i < nl && 0 <= t < s1.encryption.short_ciphers@[i]@.len() implies cipher_eqv(
        #[trigger] s1.encryption.short_ciphers@[i]@[t],
        s2.encryption.short_ciphers@[i]@[t],
    ) by {
        lemma_enc_item_slices(s1.encryption, i);
        lemma_enc_item_slices(s2.encryption, i);
        assert(enc_item(s1.encryption, i) == enc_item(s2.encryption, i));
        assert(s1.encryption.short_ciphers@[i]@[t].c0@ == enc_item(s1.encryption, i).subrange(
            96 + 96 * t,
            144 + 96 * t,
        ));
        assert(s2.encryption.short_ciphers@[i]@[t].c0@ == enc_item(s2.encryption, i).subrange(
            96 + 96 * t,
            144 + 96 * t,
        ));
        assert(s1.encryption.short_ciphers@[i]@[t].c1@ == enc_item(s1.encryption, i).subrange(
            144 + 96 * t,
            192 + 96 * t,
        ));
        assert(s2.encryption.short_ciphers@[i]@[t].c1@ == enc_item(s2.encryption, i).subrange(
            144 + 96 * t,
            192 + 96 * t,
        ));
    }
    assert forall|i: int| 0 <= i < nl implies (#[trigger] s1.encryption.short_ciphers@[i])@.len()
        == s2.encryption.short_ciphers@[i]@.len() by {
        assert(s1.encryption.short_ciphers@[i]@.len() == N_CHUNKS);
        assert(s2.encryption.short_ciphers@[i]@.len() == N_CHUNKS);
    }
    assert forall|i: int|
        0 <= i < nl implies (#[trigger] s1.encryption.random_encryption_points@[i])@
        == s2.encryption.random_encryption_points@[i]@ by {
        lemma_enc_item_slices(s1.encryption, i);
        lemma_enc_item_slices(s2.encryption, i);
        assert(enc_item(s1.encryption, i) == enc_item(s2.encryption, i));
        assert(s1.encryption.random_encryption_points@[i]@ == enc_item(s1.encryption, i).subrange(
            864,
            912,
        ));
        assert(s2.encryption.random_encryption_points@[i]@ == enc_item(s2.encryption, i).subrange(
            864,
            912,
        ));
    }
    assert(session_eqv(s1, s2));
}

/// Round trip: saving a session and loading the bytes back reproduces
/// the session, field for field, arrays and nested arrays included.
pub fn reload(s: &SessionState) -> (r: SessionState)
    requires
        s.wf(),
    ensures
        r.wf(),
        session_eqv(r, *s),
{
    let bytes = save(s);
    match load(&bytes) {
        Ok(r) => {
            proof {
                lemma_codec_injective(r, *s);
            }
            r
        },
        Err(_) => {
            proof {
                assert(decodable(bytes@));
                assert(false);
            }
            vstd::pervasive::unreached()
        },
    }
}

} // verus!

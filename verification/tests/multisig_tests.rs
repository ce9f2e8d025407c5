use fastcrypto::bls12381::min_sig::BLS12381KeyPair;
use fastcrypto::ed25519::Ed25519KeyPair;
use fastcrypto::secp256k1::Secp256k1KeyPair;
use fastcrypto::secp256r1::Secp256r1KeyPair;
use fastcrypto::traits::{KeyPair, Signer};
use rand::rngs::StdRng;
use rand::SeedableRng;

use multisig::committee::MultiPublicKey;
use multisig::crypto::{PublicKey, Scheme, Signature};
use multisig::errors::{CombineError, ConfigError, VerifyError};
use multisig::multisig::{
    identity_of, identity_of_single, AuthenticatorTrait, GenericSignature, Identity,
    MultiSignature,
};

fn ed_kp(seed: u64) -> Ed25519KeyPair {
    Ed25519KeyPair::generate(&mut StdRng::seed_from_u64(seed))
}

fn k1_kp(seed: u64) -> Secp256k1KeyPair {
    Secp256k1KeyPair::generate(&mut StdRng::seed_from_u64(seed))
}

fn r1_kp(seed: u64) -> Secp256r1KeyPair {
    Secp256r1KeyPair::generate(&mut StdRng::seed_from_u64(seed))
}

fn bls_kp(seed: u64) -> BLS12381KeyPair {
    BLS12381KeyPair::generate(&mut StdRng::seed_from_u64(seed))
}

fn pk_of(scheme: Scheme, bytes: &[u8]) -> PublicKey {
    PublicKey { scheme, bytes: bytes.to_vec() }
}

fn sig_of(scheme: Scheme, sig_bytes: &[u8], pk_bytes: &[u8]) -> Signature {
    Signature { scheme, sig_bytes: sig_bytes.to_vec(), pk_bytes: pk_bytes.to_vec() }
}

struct Fixture {
    multi_pk: MultiPublicKey,
    addr: Identity,
    msg: Vec<u8>,
    sig1: Signature,
    sig2: Signature,
    sig3: Signature,
}

fn fixture() -> Fixture {
    let ed = ed_kp(1);
    let k1 = k1_kp(2);
    let r1 = r1_kp(3);

    let pk1 = pk_of(Scheme::Ed25519, ed.public().as_ref());
    let pk2 = pk_of(Scheme::Secp256k1, k1.public().as_ref());
    let pk3 = pk_of(Scheme::Secp256r1, r1.public().as_ref());

    let multi_pk = MultiPublicKey::new(vec![pk1, pk2, pk3], 2).unwrap();
    let addr = identity_of(&multi_pk);
    let msg = "Hello".as_bytes().to_vec();

    let sig1 = sig_of(Scheme::Ed25519, ed.sign(&msg).as_ref(), ed.public().as_ref());
    let sig2 = sig_of(Scheme::Secp256k1, k1.sign(&msg).as_ref(), k1.public().as_ref());
    let sig3 = sig_of(Scheme::Secp256r1, r1.sign(&msg).as_ref(), r1.public().as_ref());

    Fixture { multi_pk, addr, msg, sig1, sig2, sig3 }
}

#[test]
fn multisig_2_of_3() {
    let f = fixture();

    let multisig1 =
        MultiSignature::combine(vec![f.sig1.clone(), f.sig2.clone()], f.multi_pk.clone()).unwrap();
    assert!(multisig1.verify_secure_generic(&f.msg, &f.addr).is_ok());

    let multisig2 =
        MultiSignature::combine(vec![f.sig1, f.sig3.clone()], f.multi_pk.clone()).unwrap();
    assert!(multisig2.verify_secure_generic(&f.msg, &f.addr).is_ok());

    let multisig3 =
        MultiSignature::combine(vec![f.sig2.clone(), f.sig3], f.multi_pk.clone()).unwrap();
    assert!(multisig3.verify_secure_generic(&f.msg, &f.addr).is_ok());

    let multisig3 = MultiSignature::combine(vec![f.sig2], f.multi_pk).unwrap();
    assert!(multisig3.verify_secure_generic(&f.msg, &f.addr).is_err());
}

#[test]
fn single_signature_insufficient() {
    let f = fixture();
    let ms = MultiSignature::combine(vec![f.sig2], f.multi_pk).unwrap();
    assert_eq!(ms.size(), 1);
    assert!(ms.is_valid().is_ok());
    assert_eq!(
        ms.verify_secure_generic(&f.msg, &f.addr),
        Err(VerifyError::InsufficientSignatures)
    );
}

#[test]
fn combine_rejects_duplicate_signer() {
    let f = fixture();
    let r = MultiSignature::combine(vec![f.sig2.clone(), f.sig2], f.multi_pk);
    assert_eq!(r.err(), Some(CombineError::DuplicateSigner));
}

#[test]
fn combine_rejects_unknown_signer() {
    let f = fixture();
    let stranger = ed_kp(99);
    let sig = sig_of(
        Scheme::Ed25519,
        stranger.sign(&f.msg).as_ref(),
        stranger.public().as_ref(),
    );
    let r = MultiSignature::combine(vec![sig], f.multi_pk);
    assert_eq!(r.err(), Some(CombineError::SignerNotFound));
}

#[test]
fn combine_sorts_by_member_index() {
    let f = fixture();
    // Inputs arrive in descending member order; verification still pairs
    // each stored signature with its own member.
    let ms = MultiSignature::combine(vec![f.sig3, f.sig1], f.multi_pk).unwrap();
    assert!(ms.verify_secure_generic(&f.msg, &f.addr).is_ok());
}

#[test]
fn identity_mismatch_rejected() {
    let f = fixture();
    let other = ed_kp(7);
    let other_pk = pk_of(Scheme::Ed25519, other.public().as_ref());
    let other_committee = MultiPublicKey::new(vec![other_pk], 1).unwrap();
    let wrong_addr = identity_of(&other_committee);
    let ms = MultiSignature::combine(vec![f.sig1, f.sig2], f.multi_pk).unwrap();
    assert_eq!(f.addr.0.len(), 32);
    assert_eq!(wrong_addr.0.len(), 32);
    assert_ne!(f.addr.0, wrong_addr.0);
    assert_eq!(
        ms.verify_secure_generic(&f.msg, &wrong_addr),
        Err(VerifyError::IdentityMismatch)
    );
}

#[test]
fn wrong_message_rejected() {
    let f = fixture();
    let ms = MultiSignature::combine(vec![f.sig1, f.sig2], f.multi_pk).unwrap();
    let other_msg = "Hullo".as_bytes().to_vec();
    assert_eq!(
        ms.verify_secure_generic(&other_msg, &f.addr),
        Err(VerifyError::InsufficientSignatures)
    );
}

#[test]
fn committee_validation() {
    let f = fixture();
    let pks: Vec<PublicKey> = f.multi_pk.pks.clone();
    assert_eq!(
        MultiPublicKey::new(vec![], 1).err(),
        Some(ConfigError::EmptyMembership)
    );
    assert_eq!(
        MultiPublicKey::new(pks.clone(), 0).err(),
        Some(ConfigError::ThresholdOutOfRange)
    );
    assert_eq!(
        MultiPublicKey::new(pks.clone(), 4).err(),
        Some(ConfigError::ThresholdOutOfRange)
    );
    assert!(MultiPublicKey::new(pks, 3).is_ok());
}

#[test]
fn get_index_finds_members() {
    let f = fixture();
    let pk0 = f.multi_pk.pks[0].clone();
    let pk1 = f.multi_pk.pks[1].clone();
    let pk2 = f.multi_pk.pks[2].clone();
    assert_eq!(f.multi_pk.get_index(pk0), Some(0));
    assert_eq!(f.multi_pk.get_index(pk1), Some(1));
    assert_eq!(f.multi_pk.get_index(pk2), Some(2));
    let stranger = ed_kp(42);
    let absent = pk_of(Scheme::Ed25519, stranger.public().as_ref());
    assert_eq!(f.multi_pk.get_index(absent), None);
}

#[test]
fn encode_decode_round_trip() {
    let f = fixture();
    let ms = MultiSignature::combine(vec![f.sig1, f.sig3], f.multi_pk).unwrap();
    let bytes = ms.encode();
    let back = MultiSignature::decode(&bytes).unwrap();
    assert!(back.equals(&ms));
    assert!(back == ms);
    assert!(back.verify_secure_generic(&f.msg, &f.addr).is_ok());
}

#[test]
fn decode_rejects_garbage() {
    assert!(MultiSignature::decode(&vec![]).is_none());
    assert!(MultiSignature::decode(&vec![1, 2, 3]).is_none());
    let f = fixture();
    let ms = MultiSignature::combine(vec![f.sig1, f.sig2], f.multi_pk).unwrap();
    let mut bytes = ms.encode();
    bytes.pop();
    assert!(MultiSignature::decode(&bytes).is_none());
}

fn push_u64_le(out: &mut Vec<u8>, n: u64) {
    out.extend_from_slice(&n.to_le_bytes());
}

fn push_u32_le(out: &mut Vec<u8>, n: u32) {
    out.extend_from_slice(&n.to_le_bytes());
}

fn push_tagged(out: &mut Vec<u8>, tag: u8, bytes: &[u8]) {
    out.push(tag);
    push_u64_le(out, bytes.len() as u64);
    out.extend_from_slice(bytes);
}

#[test]
fn encoding_has_exact_layout() {
    let f = fixture();
    let ms = MultiSignature::combine(
        vec![f.sig1.clone(), f.sig2.clone()],
        f.multi_pk.clone(),
    )
    .unwrap();
    let mut expected = Vec::new();
    push_u64_le(&mut expected, 2);
    push_tagged(&mut expected, 0, &f.sig1.sig_bytes);
    push_tagged(&mut expected, 1, &f.sig2.sig_bytes);
    push_u64_le(&mut expected, 2);
    push_u32_le(&mut expected, 0);
    push_u32_le(&mut expected, 1);
    push_u64_le(&mut expected, 3);
    push_tagged(&mut expected, 0, &f.multi_pk.pks[0].bytes);
    push_tagged(&mut expected, 1, &f.multi_pk.pks[1].bytes);
    push_tagged(&mut expected, 2, &f.multi_pk.pks[2].bytes);
    push_u64_le(&mut expected, 2);
    assert_eq!(ms.encode(), expected);
}

#[test]
fn out_of_range_index_is_malformed_not_a_crash() {
    let f = fixture();
    // Hand-build an authorization whose second entry claims member index 5
    // of a 3-member committee.
    let mut bytes = Vec::new();
    push_u64_le(&mut bytes, 2);
    push_tagged(&mut bytes, 0, &f.sig1.sig_bytes);
    push_tagged(&mut bytes, 1, &f.sig2.sig_bytes);
    push_u64_le(&mut bytes, 2);
    push_u32_le(&mut bytes, 0);
    push_u32_le(&mut bytes, 5);
    push_u64_le(&mut bytes, 3);
    push_tagged(&mut bytes, 0, &f.multi_pk.pks[0].bytes);
    push_tagged(&mut bytes, 1, &f.multi_pk.pks[1].bytes);
    push_tagged(&mut bytes, 2, &f.multi_pk.pks[2].bytes);
    push_u64_le(&mut bytes, 2);

    let ms = MultiSignature::decode(&bytes).expect("structurally parseable");
    assert_eq!(
        ms.verify_secure_generic(&f.msg, &f.addr),
        Err(VerifyError::MalformedAuthorization)
    );
}

#[test]
fn generic_signature_dispatch() {
    let f = fixture();
    let ms = MultiSignature::combine(
        vec![f.sig1.clone(), f.sig2.clone()],
        f.multi_pk.clone(),
    )
    .unwrap();
    let agg = GenericSignature::MultiSignature(ms);
    assert!(agg.verify_secure_generic(&f.msg, &f.addr).is_ok());

    let single_addr = identity_of_single(&f.sig1.to_public_key());
    let bare = GenericSignature::Signature(f.sig1);
    assert!(bare.verify_secure_generic(&f.msg, &single_addr).is_ok());
    assert_eq!(
        bare.verify_secure_generic(&f.msg, &f.addr),
        Err(VerifyError::IdentityMismatch)
    );
}

#[test]
fn bls_member_participates() {
    let ed = ed_kp(11);
    let bls = bls_kp(12);
    let pk1 = pk_of(Scheme::Ed25519, ed.public().as_ref());
    let pk2 = pk_of(Scheme::BLS12381, bls.public().as_ref());
    let multi_pk = MultiPublicKey::new(vec![pk1, pk2], 2).unwrap();
    let addr = identity_of(&multi_pk);
    let msg = "Hello".as_bytes().to_vec();
    let sig1 = sig_of(Scheme::Ed25519, ed.sign(&msg).as_ref(), ed.public().as_ref());
    let sig2 = sig_of(Scheme::BLS12381, bls.sign(&msg).as_ref(), bls.public().as_ref());
    let ms = MultiSignature::combine(vec![sig2, sig1], multi_pk).unwrap();
    assert!(ms.verify_secure_generic(&msg, &addr).is_ok());
}

#[test]
fn wrong_scheme_signature_counts_as_failed() {
    let f = fixture();
    // The first member's key is Ed25519; a signature claiming Secp256k1
    // under that member fails its individual check, so only one success
    // remains and the threshold is missed.
    let ed = ed_kp(1);
    let mislabeled = sig_of(Scheme::Secp256k1, ed.sign(&f.msg).as_ref(), ed.public().as_ref());
    let r = MultiSignature::combine(vec![mislabeled, f.sig2], f.multi_pk);
    // The mislabeled signature's public key no longer matches any member
    // (the scheme tag is part of the key), so combine already rejects it.
    assert_eq!(r.err(), Some(CombineError::SignerNotFound));
}

use vstd::prelude::*;
use fastcrypto::hash::HashFunction;
use fastcrypto::traits::{ToFromBytes, VerifyingKey};

verus! {

/// The signature algorithm of a member key or of a compressed signature.
#[derive(Clone, Copy, Debug, PartialEq, Eq, Structural)]
pub enum Scheme {
    Ed25519,
    Secp256k1,
    Secp256r1,
    BLS12381,
}

/// A committee member's public key: its algorithm tag and its raw key bytes.
#[derive(Clone, Debug)]
pub struct PublicKey {
    pub scheme: Scheme,
    pub bytes: Vec<u8>,
}

/// Mathematical model of a [`PublicKey`].
#[verifier::ext_equal]
pub ghost struct PublicKeyView {
    pub scheme: Scheme,
    pub bytes: Seq<u8>,
}

impl View for PublicKey {
    type V = PublicKeyView;

    open spec fn view(&self) -> PublicKeyView {
        PublicKeyView { scheme: self.scheme, bytes: self.bytes@ }
    }
}

/// One signature's raw bytes tagged by its algorithm: a full signature with
/// public key and recovery metadata stripped.
#[derive(Clone, Debug)]
pub enum CompressedSignature {
    Ed25519(Vec<u8>),
    Secp256k1(Vec<u8>),
    Secp256r1(Vec<u8>),
    BLS12381(Vec<u8>),
}

/// Mathematical model of a [`CompressedSignature`].
#[verifier::ext_equal]
pub ghost struct SigView {
    pub scheme: Scheme,
    pub bytes: Seq<u8>,
}

impl View for CompressedSignature {
    type V = SigView;

    open spec fn view(&self) -> SigView {
        match self {
            CompressedSignature::Ed25519(b) => SigView { scheme: Scheme::Ed25519, bytes: b@ },
            CompressedSignature::Secp256k1(b) => SigView { scheme: Scheme::Secp256k1, bytes: b@ },
            CompressedSignature::Secp256r1(b) => SigView { scheme: Scheme::Secp256r1, bytes: b@ },
            CompressedSignature::BLS12381(b) => SigView { scheme: Scheme::BLS12381, bytes: b@ },
        }
    }
}

/// A full, individually produced signature: the algorithm, the raw signature
/// bytes, and the signer's raw public key bytes (so the signer can be
/// resolved against a committee).
#[derive(Clone, Debug)]
pub struct Signature {
    pub scheme: Scheme,
    pub sig_bytes: Vec<u8>,
    pub pk_bytes: Vec<u8>,
}

/// Mathematical model of a full [`Signature`].
#[verifier::ext_equal]
pub ghost struct SignatureView {
    pub scheme: Scheme,
    pub sig_bytes: Seq<u8>,
    pub pk_bytes: Seq<u8>,
}

impl View for Signature {
    type V = SignatureView;

    open spec fn view(&self) -> SignatureView {
        SignatureView {
            scheme: self.scheme,
            sig_bytes: self.sig_bytes@,
            pk_bytes: self.pk_bytes@,
        }
    }
}

/// The public key a full signature claims to have been produced with.
pub open spec fn sig_pk(s: SignatureView) -> PublicKeyView {
    PublicKeyView { scheme: s.scheme, bytes: s.pk_bytes }
}

/// What compressing a full signature keeps: the algorithm tag and the raw
/// signature bytes.
pub open spec fn compress_spec(s: SignatureView) -> SigView {
    SigView { scheme: s.scheme, bytes: s.sig_bytes }
}

/// Copies a byte vector.
pub fn copy_bytes(v: &Vec<u8>) -> (r: Vec<u8>)
    ensures
        r@ == v@,
{
    let mut out: Vec<u8> = Vec::new();
    let mut i: usize = 0;
    while i < v.len()
        invariant
            i <= v.len(),
            out@ == v@.take(i as int),
        decreases v.len() - i,
    {
        out.push(v[i]);
        proof {
            assert(out@ =~= v@.take(i as int + 1));
        }
        i = i + 1;
    }
    proof {
        assert(v@.take(v@.len() as int) =~= v@);
    }
    out
}

/// Whether two byte vectors hold the same bytes.
pub fn bytes_eq(a: &Vec<u8>, b: &Vec<u8>) -> (r: bool)
    ensures
        r == (a@ == b@),
{
    if a.len() != b.len() {
        proof {
            assert(a@ != b@);
        }
        return false;
    }
    let mut i: usize = 0;
    while i < a.len()
        invariant
            i <= a.len(),
            a@.len() == b@.len(),
            forall|j: int| 0 <= j < i ==> a@[j] == b@[j],
        decreases a.len() - i,
    {
        if a[i] != b[i] {
            proof {
                assert(a@ != b@);
            }
            return false;
        }
        i = i + 1;
    }
    proof {
        assert(a@ =~= b@);
    }
    true
}

impl Signature {
    /// The signer's public key carried in the signature.
    pub fn to_public_key(&self) -> (r: PublicKey)
        ensures
            r@ == sig_pk(self@),
    {
        let r = PublicKey { scheme: self.scheme, bytes: copy_bytes(&self.pk_bytes) };
        proof {
            assert(r@ =~= sig_pk(self@));
        }
        r
    }

    /// Compresses the full signature to its algorithm tag and raw bytes.
    /// Total and non-failing for every well-formed signature value.
    pub fn to_compressed(&self) -> (r: CompressedSignature)
        ensures
            r@ == compress_spec(self@),
    {
        let b = copy_bytes(&self.sig_bytes);
        let r = match self.scheme {
            Scheme::Ed25519 => CompressedSignature::Ed25519(b),
            Scheme::Secp256k1 => CompressedSignature::Secp256k1(b),
            Scheme::Secp256r1 => CompressedSignature::Secp256r1(b),
            Scheme::BLS12381 => CompressedSignature::BLS12381(b),
        };
        proof {
            assert(r@ =~= compress_spec(self@));
        }
        r
    }
}

/// Whether Ed25519 accepts `sig` as a signature on `msg` under the key
/// encoded by `pk`; false whenever `pk` or `sig` do not decode.
pub uninterp spec fn ed25519_accepts(pk: Seq<u8>, msg: Seq<u8>, sig: Seq<u8>) -> bool;

/// Whether Secp256k1 accepts `sig` as a signature on `msg` under `pk`.
pub uninterp spec fn secp256k1_accepts(pk: Seq<u8>, msg: Seq<u8>, sig: Seq<u8>) -> bool;

/// Whether Secp256r1 accepts `sig` as a signature on `msg` under `pk`.
pub uninterp spec fn secp256r1_accepts(pk: Seq<u8>, msg: Seq<u8>, sig: Seq<u8>) -> bool;

/// Whether BLS12-381 (min-sig) accepts `sig` as a signature on `msg` under `pk`.
pub uninterp spec fn bls12381_accepts(pk: Seq<u8>, msg: Seq<u8>, sig: Seq<u8>) -> bool;

/// The 32-byte SHA3-256 digest of `data`.
pub uninterp spec fn digest_of(data: Seq<u8>) -> Seq<u8>;

/// Whether the given algorithm accepts `sig` on `msg` under the raw key `pk`.
pub open spec fn scheme_accepts(scheme: Scheme, pk: Seq<u8>, msg: Seq<u8>, sig: Seq<u8>) -> bool {
    match scheme {
        Scheme::Ed25519 => ed25519_accepts(pk, msg, sig),
        Scheme::Secp256k1 => secp256k1_accepts(pk, msg, sig),
        Scheme::Secp256r1 => secp256r1_accepts(pk, msg, sig),
        Scheme::BLS12381 => bls12381_accepts(pk, msg, sig),
    }
}

/// Relies on fastcrypto's ed25519: `ToFromBytes::from_bytes` for the key and
/// signature and `VerifyingKey::verify`, all functions of their byte inputs
/// alone; a decode failure counts as a failed check.
#[verifier::external_body]
fn ed25519_verify(pk: &Vec<u8>, msg: &Vec<u8>, sig: &Vec<u8>) -> (r: bool)
    ensures
        r == ed25519_accepts(pk@, msg@, sig@),
{
    let p = fastcrypto::ed25519::Ed25519PublicKey::from_bytes(pk);
    let s = <fastcrypto::ed25519::Ed25519Signature as ToFromBytes>::from_bytes(sig);
    match (p, s) {
        (Ok(p), Ok(s)) => p.verify(msg, &s).is_ok(),
        _ => false,
    }
}

/// Relies on fastcrypto's secp256k1: `ToFromBytes::from_bytes` and
/// `VerifyingKey::verify`, functions of their byte inputs alone; a decode
/// failure counts as a failed check.
#[verifier::external_body]
fn secp256k1_verify(pk: &Vec<u8>, msg: &Vec<u8>, sig: &Vec<u8>) -> (r: bool)
    ensures
        r == secp256k1_accepts(pk@, msg@, sig@),
{
    let p = fastcrypto::secp256k1::Secp256k1PublicKey::from_bytes(pk);
    let s = <fastcrypto::secp256k1::Secp256k1Signature as ToFromBytes>::from_bytes(sig);
    match (p, s) {
        (Ok(p), Ok(s)) => p.verify(msg, &s).is_ok(),
        _ => false,
    }
}

/// Relies on fastcrypto's secp256r1: `ToFromBytes::from_bytes` and
/// `VerifyingKey::verify`, functions of their byte inputs alone; a decode
/// failure counts as a failed check.
#[verifier::external_body]
fn secp256r1_verify(pk: &Vec<u8>, msg: &Vec<u8>, sig: &Vec<u8>) -> (r: bool)
    ensures
        r == secp256r1_accepts(pk@, msg@, sig@),
{
    let p = fastcrypto::secp256r1::Secp256r1PublicKey::from_bytes(pk);
    let s = <fastcrypto::secp256r1::Secp256r1Signature as ToFromBytes>::from_bytes(sig);
    match (p, s) {
        (Ok(p), Ok(s)) => p.verify(msg, &s).is_ok(),
        _ => false,
    }
}

/// Relies on fastcrypto's bls12381 (min-sig): `ToFromBytes::from_bytes` and
/// `VerifyingKey::verify`, functions of their byte inputs alone; a decode
/// failure counts as a failed check.
#[verifier::external_body]
fn bls12381_verify(pk: &Vec<u8>, msg: &Vec<u8>, sig: &Vec<u8>) -> (r: bool)
    ensures
        r == bls12381_accepts(pk@, msg@, sig@),
{
    let p = fastcrypto::bls12381::min_sig::BLS12381PublicKey::from_bytes(pk);
    let s = <fastcrypto::bls12381::min_sig::BLS12381Signature as ToFromBytes>::from_bytes(sig);
    match (p, s) {
        (Ok(p), Ok(s)) => p.verify(msg, &s).is_ok(),
        _ => false,
    }
}

/// Relies on fastcrypto's `hash::Sha3_256::digest`: a 32-byte digest that is
/// a function of the input bytes alone.
#[verifier::external_body]
pub fn sha3_digest(data: &Vec<u8>) -> (r: Vec<u8>)
    ensures
        r@ == digest_of(data@),
        r@.len() == 32,
{
    fastcrypto::hash::Sha3_256::digest(data.as_slice()).to_vec()
}

/// Runs the algorithm-specific verification for one compressed signature
/// against one member key's raw bytes; the check fails (rather than erring)
/// when the key's declared algorithm differs from the signature's.
pub fn check_one(pk: &PublicKey, msg: &Vec<u8>, sig: &CompressedSignature) -> (r: bool)
    ensures
        r == (pk@.scheme == sig@.scheme && scheme_accepts(sig@.scheme, pk@.bytes, msg@, sig@.bytes)),
{
    match sig {
        CompressedSignature::Ed25519(b) => {
            matches!(pk.scheme, Scheme::Ed25519) && ed25519_verify(&pk.bytes, msg, b)
        }
        CompressedSignature::Secp256k1(b) => {
            matches!(pk.scheme, Scheme::Secp256k1) && secp256k1_verify(&pk.bytes, msg, b)
        }
        CompressedSignature::Secp256r1(b) => {
            matches!(pk.scheme, Scheme::Secp256r1) && secp256r1_verify(&pk.bytes, msg, b)
        }
        CompressedSignature::BLS12381(b) => {
            matches!(pk.scheme, Scheme::BLS12381) && bls12381_verify(&pk.bytes, msg, b)
        }
    }
}

} // verus!

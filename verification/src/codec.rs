use vstd::prelude::*;
use crate::committee::{MultiPublicKey, MultiPublicKeyView};
use crate::bitmap::sorted_strict;
use crate::crypto::{CompressedSignature, PublicKey, PublicKeyView, Scheme, SigView};
use crate::multisig::MultiSignatureView;

verus! {

// --- Canonical binary encoding ---
//
// All counts and byte lengths are 8-byte little-endian integers; member
// indices are 4-byte little-endian integers; an algorithm is one tag byte.

/// `k` little-endian bytes of `n` (the low `8 * k` bits).
pub open spec fn enc_le(n: nat, k: nat) -> Seq<u8>
    decreases k,
{
    if k == 0 {
        Seq::<u8>::empty()
    } else {
        seq![(n % 256) as u8] + enc_le(n / 256, (k - 1) as nat)
    }
}

/// The 8-byte little-endian encoding of `n`.
pub open spec fn enc_u64(n: u64) -> Seq<u8> {
    enc_le(n as nat, 8)
}

/// The 4-byte little-endian encoding of `n`.
pub open spec fn enc_u32(n: u32) -> Seq<u8> {
    enc_le(n as nat, 4)
}

/// A length-prefixed byte string.
pub open spec fn enc_bytes(b: Seq<u8>) -> Seq<u8> {
    enc_u64(b.len() as u64) + b
}

/// The tag byte of an algorithm.
pub open spec fn scheme_tag(s: Scheme) -> u8 {
    match s {
        Scheme::Ed25519 => 0,
        Scheme::Secp256k1 => 1,
        Scheme::Secp256r1 => 2,
        Scheme::BLS12381 => 3,
    }
}

/// The algorithm of a tag byte, if any.
pub open spec fn tag_scheme(t: u8) -> Option<Scheme> {
    if t == 0 {
        Some(Scheme::Ed25519)
    } else if t == 1 {
        Some(Scheme::Secp256k1)
    } else if t == 2 {
        Some(Scheme::Secp256r1)
    } else if t == 3 {
        Some(Scheme::BLS12381)
    } else {
        None
    }
}

/// A public key: tag byte, then length-prefixed key bytes.
pub open spec fn enc_pk(p: PublicKeyView) -> Seq<u8> {
    seq![scheme_tag(p.scheme)] + enc_bytes(p.bytes)
}

/// The first `n` public keys, concatenated.
pub open spec fn enc_pks(pks: Seq<PublicKeyView>, n: int) -> Seq<u8>
    decreases n,
{
    if n <= 0 {
        Seq::<u8>::empty()
    } else {
        enc_pks(pks, n - 1) + enc_pk(pks[n - 1])
    }
}

/// A committee: member count, members in order, then the threshold.
pub open spec fn committee_bytes(c: MultiPublicKeyView) -> Seq<u8> {
    enc_u64(c.pks.len() as u64) + enc_pks(c.pks, c.pks.len() as int) + enc_u64(c.threshold as u64)
}

/// A compressed signature: tag byte, then length-prefixed signature bytes.
pub open spec fn enc_sig(s: SigView) -> Seq<u8> {
    seq![scheme_tag(s.scheme)] + enc_bytes(s.bytes)
}

/// The first `n` compressed signatures, concatenated.
pub open spec fn enc_sigs(sigs: Seq<SigView>, n: int) -> Seq<u8>
    decreases n,
{
    if n <= 0 {
        Seq::<u8>::empty()
    } else {
        enc_sigs(sigs, n - 1) + enc_sig(sigs[n - 1])
    }
}

/// The first `n` member indices, concatenated.
pub open spec fn enc_indices(idx: Seq<u32>, n: int) -> Seq<u8>
    decreases n,
{
    if n <= 0 {
        Seq::<u8>::empty()
    } else {
        enc_indices(idx, n - 1) + enc_u32(idx[n - 1])
    }
}

/// `enc_le` yields exactly `k` bytes.
pub proof fn lemma_enc_le_len(n: nat, k: nat)
    ensures
        enc_le(n, k).len() == k,
    decreases k,
{
    if k > 0 {
        lemma_enc_le_len(n / 256, (k - 1) as nat);
    }
}

// --- Verified encoders ---

/// Appends the 8-byte little-endian encoding of `n`.
pub fn push_u64(out: &mut Vec<u8>, n: u64)
    ensures
        final(out)@ == old(out)@ + enc_u64(n),
{
    let ghost base = out@;
    let mut m: u64 = n;
    let mut i: usize = 0;
    while i < 8
        invariant
            i <= 8,
            out@ == base + enc_le(n as nat, 8).take(i as int),
            enc_le(n as nat, 8) == enc_le(n as nat, 8).take(i as int) + enc_le(
                m as nat,
                (8 - i) as nat,
            ),
        decreases 8 - i,
    {
        let b = (m % 256) as u8;
        out.push(b);
        proof {
            assert(enc_le(m as nat, (8 - i) as nat) == seq![b] + enc_le(
                m as nat / 256,
                (8 - (i + 1)) as nat,
            ));
            lemma_enc_le_len(n as nat, 8);
            lemma_enc_le_len(m as nat / 256, (8 - (i + 1)) as nat);
            assert(enc_le(n as nat, 8)[i as int] == b) by {
                assert(enc_le(n as nat, 8) == enc_le(n as nat, 8).take(i as int) + enc_le(
                    m as nat,
                    (8 - i) as nat,
                ));
                assert(enc_le(m as nat, (8 - i) as nat)[0] == b);
            }
            assert(enc_le(n as nat, 8).take(i as int + 1) =~= enc_le(n as nat, 8).take(i as int)
                + seq![b]);
            assert(out@ =~= base + enc_le(n as nat, 8).take(i as int + 1));
            assert(enc_le(n as nat, 8) =~= enc_le(n as nat, 8).take(i as int + 1) + enc_le(
                m as nat / 256,
                (8 - (i + 1)) as nat,
            ));
        }
        m = m / 256;
        i = i + 1;
    }
    proof {
        assert(enc_le(n as nat, 8).take(8) =~= enc_le(n as nat, 8));
    }
}

/// Appends the 4-byte little-endian encoding of `n`.
pub fn push_u32(out: &mut Vec<u8>, n: u32)
    ensures
        final(out)@ == old(out)@ + enc_u32(n),
{
    let ghost base = out@;
    let mut m: u32 = n;
    let mut i: usize = 0;
    while i < 4
        invariant
            i <= 4,
            out@ == base + enc_le(n as nat, 4).take(i as int),
            enc_le(n as nat, 4) == enc_le(n as nat, 4).take(i as int) + enc_le(
                m as nat,
                (4 - i) as nat,
            ),
        decreases 4 - i,
    {
        let b = (m % 256) as u8;
        out.push(b);
        proof {
            assert(enc_le(m as nat, (4 - i) as nat) == seq![b] + enc_le(
                m as nat / 256,
                (4 - (i + 1)) as nat,
            ));
            lemma_enc_le_len(n as nat, 4);
            lemma_enc_le_len(m as nat / 256, (4 - (i + 1)) as nat);
            assert(enc_le(n as nat, 4)[i as int] == b) by {
                assert(enc_le(n as nat, 4) == enc_le(n as nat, 4).take(i as int) + enc_le(
                    m as nat,
                    (4 - i) as nat,
                ));
                assert(enc_le(m as nat, (4 - i) as nat)[0] == b);
            }
            assert(enc_le(n as nat, 4).take(i as int + 1) =~= enc_le(n as nat, 4).take(i as int)
                + seq![b]);
            assert(out@ =~= base + enc_le(n as nat, 4).take(i as int + 1));
            assert(enc_le(n as nat, 4) =~= enc_le(n as nat, 4).take(i as int + 1) + enc_le(
                m as nat / 256,
                (4 - (i + 1)) as nat,
            ));
        }
        m = m / 256;
        i = i + 1;
    }
    proof {
        assert(enc_le(n as nat, 4).take(4) =~= enc_le(n as nat, 4));
    }
}

/// Appends a length-prefixed byte string.
pub fn push_bytes(out: &mut Vec<u8>, b: &Vec<u8>)
    ensures
        final(out)@ == old(out)@ + enc_bytes(b@),
{
    let ghost base = out@;
    push_u64(out, b.len() as u64);
    let ghost mid = out@;
    let mut i: usize = 0;
    while i < b.len()
        invariant
            i <= b.len(),
            mid == base + enc_u64(b@.len() as u64),
            out@ == mid + b@.take(i as int),
        decreases b.len() - i,
    {
        out.push(b[i]);
        proof {
            assert(out@ =~= mid + b@.take(i as int + 1));
        }
        i = i + 1;
    }
    proof {
        assert(b@.take(b@.len() as int) =~= b@);
        assert(out@ =~= base + enc_bytes(b@));
    }
}

/// The tag byte of an algorithm.
pub fn scheme_tag_of(s: Scheme) -> (r: u8)
    ensures
        r == scheme_tag(s),
{
    match s {
        Scheme::Ed25519 => 0,
        Scheme::Secp256k1 => 1,
        Scheme::Secp256r1 => 2,
        Scheme::BLS12381 => 3,
    }
}

/// Appends the encoding of one public key.
pub fn push_pk(out: &mut Vec<u8>, p: &PublicKey)
    ensures
        final(out)@ == old(out)@ + enc_pk(p@),
{
    let ghost base = out@;
    let t = scheme_tag_of(p.scheme);
    out.push(t);
    push_bytes(out, &p.bytes);
    proof {
        assert(out@ =~= base + enc_pk(p@));
    }
}

/// Appends the encoding of one compressed signature.
pub fn push_sig(out: &mut Vec<u8>, s: &CompressedSignature)
    ensures
        final(out)@ == old(out)@ + enc_sig(s@),
{
    let ghost base = out@;
    let (t, b): (u8, &Vec<u8>) = match s {
        CompressedSignature::Ed25519(b) => (0, b),
        CompressedSignature::Secp256k1(b) => (1, b),
        CompressedSignature::Secp256r1(b) => (2, b),
        CompressedSignature::BLS12381(b) => (3, b),
    };
    out.push(t);
    push_bytes(out, b);
    proof {
        assert(out@ =~= base + enc_sig(s@));
    }
}

/// The canonical encoding of a committee.
pub fn encode_committee(c: &MultiPublicKey) -> (r: Vec<u8>)
    ensures
        r@ == committee_bytes(c@),
{
    let mut out: Vec<u8> = Vec::new();
    push_u64(&mut out, c.pks.len() as u64);
    let ghost head = out@;
    let mut i: usize = 0;
    while i < c.pks.len()
        invariant
            i <= c.pks.len(),
            head == enc_u64(c.pks@.len() as u64),
            c@.pks.len() == c.pks@.len(),
            out@ == head + enc_pks(c@.pks, i as int),
        decreases c.pks.len() - i,
    {
        push_pk(&mut out, &c.pks[i]);
        proof {
            assert(c@.pks[i as int] == c.pks@[i as int]@);
            assert(out@ =~= head + enc_pks(c@.pks, i as int + 1));
        }
        i = i + 1;
    }
    push_u64(&mut out, c.threshold as u64);
    proof {
        assert(out@ =~= committee_bytes(c@));
    }
    out
}


// --- Canonical binary decoding ---
//
// Each parser takes the remaining input and yields the parsed value and the
// input left over, or nothing when the input does not start with a valid
// encoding.

/// The little-endian value of a byte string.
pub open spec fn dec_le(b: Seq<u8>) -> nat
    decreases b.len(),
{
    if b.len() == 0 {
        0
    } else {
        b[0] as nat + 256 * dec_le(b.drop_first())
    }
}

/// `256 ^ k`.
pub open spec fn pow256(k: nat) -> nat
    decreases k,
{
    if k == 0 {
        1
    } else {
        256 * pow256((k - 1) as nat)
    }
}

/// Decoding inverts encoding, modulo the encoded width.
pub proof fn lemma_dec_enc_le(n: nat, k: nat)
    ensures
        dec_le(enc_le(n, k)) == n % pow256(k),
    decreases k,
{
    if k == 0 {
        assert(enc_le(n, k) =~= Seq::<u8>::empty());
        assert(n % 1 == 0);
    } else {
        lemma_dec_enc_le(n / 256, (k - 1) as nat);
        let e = enc_le(n, k);
        assert(e =~= seq![(n % 256) as u8] + enc_le(n / 256, (k - 1) as nat));
        assert(e.drop_first() =~= enc_le(n / 256, (k - 1) as nat));
        assert(dec_le(e) == (n % 256) + 256 * ((n / 256) % pow256((k - 1) as nat)));
        assert(pow256(k) == 256 * pow256((k - 1) as nat));
        assert(pow256((k - 1) as nat) > 0) by {
            lemma_pow256_pos((k - 1) as nat);
        }
        assert(n % (256 * pow256((k - 1) as nat)) == 256 * ((n / 256) % pow256((k - 1) as nat)) + n
            % 256) by {
            vstd::arithmetic::div_mod::lemma_breakdown(
                n as int,
                256int,
                pow256((k - 1) as nat) as int,
            );
        }
    }
}

/// `256 ^ k` is positive.
pub proof fn lemma_pow256_pos(k: nat)
    ensures
        pow256(k) > 0,
    decreases k,
{
    if k > 0 {
        lemma_pow256_pos((k - 1) as nat);
    }
}

/// The numeric bounds of the fixed widths used by this format.
pub proof fn lemma_pow256_values()
    ensures
        pow256(4) == 0x1_0000_0000,
        pow256(8) == 0x1_0000_0000_0000_0000,
{
    assert(pow256(0) == 1);
    assert(pow256(1) == 256);
    assert(pow256(2) == 0x1_0000);
    assert(pow256(3) == 0x100_0000);
    assert(pow256(4) == 0x1_0000_0000);
    assert(pow256(5) == 0x100_0000_0000);
    assert(pow256(6) == 0x1_0000_0000_0000);
    assert(pow256(7) == 0x100_0000_0000_0000);
    assert(pow256(8) == 0x1_0000_0000_0000_0000);
}

/// An 8-byte little-endian integer off the front of the input.
pub open spec fn take_u64(b: Seq<u8>) -> Option<(u64, Seq<u8>)> {
    if b.len() >= 8 {
        Some(((dec_le(b.take(8)) as u64), b.skip(8)))
    } else {
        None
    }
}

/// A 4-byte little-endian integer off the front of the input.
pub open spec fn take_u32(b: Seq<u8>) -> Option<(u32, Seq<u8>)> {
    if b.len() >= 4 {
        Some(((dec_le(b.take(4)) as u32), b.skip(4)))
    } else {
        None
    }
}

/// A length-prefixed byte string off the front of the input.
pub open spec fn take_bytes(b: Seq<u8>) -> Option<(Seq<u8>, Seq<u8>)> {
    match take_u64(b) {
        None => None,
        Some((n, r)) => if n <= r.len() {
            Some((r.take(n as int), r.skip(n as int)))
        } else {
            None
        },
    }
}

/// Parsing undoes `enc_u64`.
pub proof fn lemma_take_u64(n: u64, rest: Seq<u8>)
    ensures
        take_u64(enc_u64(n) + rest) == Some((n, rest)),
{
    lemma_enc_le_len(n as nat, 8);
    let b = enc_u64(n) + rest;
    assert(b.take(8) =~= enc_u64(n));
    assert(b.skip(8) =~= rest);
    lemma_dec_enc_le(n as nat, 8);
    lemma_pow256_values();
    assert(n as nat % pow256(8) == n as nat) by {
        assert((n as nat) < pow256(8));
        vstd::arithmetic::div_mod::lemma_small_mod(n as nat, pow256(8));
    }
}

/// Parsing undoes `enc_u32`.
pub proof fn lemma_take_u32(n: u32, rest: Seq<u8>)
    ensures
        take_u32(enc_u32(n) + rest) == Some((n, rest)),
{
    lemma_enc_le_len(n as nat, 4);
    let b = enc_u32(n) + rest;
    assert(b.take(4) =~= enc_u32(n));
    assert(b.skip(4) =~= rest);
    lemma_dec_enc_le(n as nat, 4);
    lemma_pow256_values();
    assert(n as nat % pow256(4) == n as nat) by {
        assert((n as nat) < pow256(4));
        vstd::arithmetic::div_mod::lemma_small_mod(n as nat, pow256(4));
    }
}

/// Parsing undoes `enc_bytes`.
pub proof fn lemma_take_bytes(s: Seq<u8>, rest: Seq<u8>)
    requires
        (s.len() <= u64::MAX),
    ensures
        (take_bytes(enc_bytes(s) + rest) == Some((s, rest))),
{
    let b = enc_bytes(s) + rest;
    assert(b =~= enc_u64(s.len() as u64) + (s + rest));
    lemma_take_u64(s.len() as u64, s + rest);
    assert((s + rest).take(s.len() as int) =~= s);
    assert((s + rest).skip(s.len() as int) =~= rest);
}


/// A compressed signature off the front of the input.
pub open spec fn take_sig(b: Seq<u8>) -> Option<(SigView, Seq<u8>)> {
    if b.len() >= 1 {
        match tag_scheme(b[0]) {
            None => None,
            Some(s) => match take_bytes(b.skip(1)) {
                None => None,
                Some((bytes, r)) => Some((SigView { scheme: s, bytes }, r)),
            },
        }
    } else {
        None
    }
}

/// `n` compressed signatures off the front of the input.
pub open spec fn take_sigs(b: Seq<u8>, n: int) -> Option<(Seq<SigView>, Seq<u8>)>
    decreases n,
{
    if n <= 0 {
        Some((Seq::<SigView>::empty(), b))
    } else {
        match take_sig(b) {
            None => None,
            Some((s, r)) => match take_sigs(r, n - 1) {
                None => None,
                Some((ss, r2)) => Some((seq![s] + ss, r2)),
            },
        }
    }
}

/// A public key off the front of the input.
pub open spec fn take_pk(b: Seq<u8>) -> Option<(PublicKeyView, Seq<u8>)> {
    if b.len() >= 1 {
        match tag_scheme(b[0]) {
            None => None,
            Some(s) => match take_bytes(b.skip(1)) {
                None => None,
                Some((bytes, r)) => Some((PublicKeyView { scheme: s, bytes }, r)),
            },
        }
    } else {
        None
    }
}

/// `n` public keys off the front of the input.
pub open spec fn take_pks(b: Seq<u8>, n: int) -> Option<(Seq<PublicKeyView>, Seq<u8>)>
    decreases n,
{
    if n <= 0 {
        Some((Seq::<PublicKeyView>::empty(), b))
    } else {
        match take_pk(b) {
            None => None,
            Some((p, r)) => match take_pks(r, n - 1) {
                None => None,
                Some((ps, r2)) => Some((seq![p] + ps, r2)),
            },
        }
    }
}

/// `n` member indices off the front of the input.
pub open spec fn take_indices(b: Seq<u8>, n: int) -> Option<(Seq<u32>, Seq<u8>)>
    decreases n,
{
    if n <= 0 {
        Some((Seq::<u32>::empty(), b))
    } else {
        match take_u32(b) {
            None => None,
            Some((x, r)) => match take_indices(r, n - 1) {
                None => None,
                Some((xs, r2)) => Some((seq![x] + xs, r2)),
            },
        }
    }
}

/// A committee off the front of the input.
pub open spec fn take_committee(b: Seq<u8>) -> Option<(MultiPublicKeyView, Seq<u8>)> {
    match take_u64(b) {
        None => None,
        Some((npk, r1)) => match take_pks(r1, npk as int) {
            None => None,
            Some((pks, r2)) => match take_u64(r2) {
                None => None,
                Some((th, r3)) => Some(
                    (MultiPublicKeyView { pks, threshold: th as int }, r3),
                ),
            },
        },
    }
}

/// The first `n` public keys split as head plus the rest.
pub proof fn lemma_enc_pks_first(pks: Seq<PublicKeyView>, n: int)
    requires
        1 <= n <= pks.len(),
    ensures
        (enc_pks(pks, n) == enc_pk(pks[0]) + enc_pks(pks.drop_first(), n - 1)),
    decreases n,
{
    if n == 1 {
        assert(enc_pks(pks, 0) == Seq::<u8>::empty());
        assert(enc_pks(pks.drop_first(), 0) == Seq::<u8>::empty());
        assert(enc_pks(pks, 1) =~= enc_pk(pks[0]) + enc_pks(pks.drop_first(), 0));
    } else {
        lemma_enc_pks_first(pks, n - 1);
        assert(pks.drop_first()[n - 2] == pks[n - 1]);
        assert(enc_pks(pks, n) =~= enc_pk(pks[0]) + enc_pks(pks.drop_first(), n - 1));
    }
}

/// The first `n` compressed signatures split as head plus the rest.
pub proof fn lemma_enc_sigs_first(sigs: Seq<SigView>, n: int)
    requires
        1 <= n <= sigs.len(),
    ensures
        (enc_sigs(sigs, n) == enc_sig(sigs[0]) + enc_sigs(sigs.drop_first(), n - 1)),
    decreases n,
{
    if n == 1 {
        assert(enc_sigs(sigs, 0) == Seq::<u8>::empty());
        assert(enc_sigs(sigs.drop_first(), 0) == Seq::<u8>::empty());
        assert(enc_sigs(sigs, 1) =~= enc_sig(sigs[0]) + enc_sigs(sigs.drop_first(), 0));
    } else {
        lemma_enc_sigs_first(sigs, n - 1);
        assert(sigs.drop_first()[n - 2] == sigs[n - 1]);
        assert(enc_sigs(sigs, n) =~= enc_sig(sigs[0]) + enc_sigs(sigs.drop_first(), n - 1));
    }
}

/// The first `n` member indices split as head plus the rest.
pub proof fn lemma_enc_indices_first(idx: Seq<u32>, n: int)
    requires
        1 <= n <= idx.len(),
    ensures
        (enc_indices(idx, n) == enc_u32(idx[0]) + enc_indices(idx.drop_first(), n - 1)),
    decreases n,
{
    if n == 1 {
        assert(enc_indices(idx, 0) == Seq::<u8>::empty());
        assert(enc_indices(idx.drop_first(), 0) == Seq::<u8>::empty());
        assert(enc_indices(idx, 1) =~= enc_u32(idx[0]) + enc_indices(idx.drop_first(), 0));
    } else {
        lemma_enc_indices_first(idx, n - 1);
        assert(idx.drop_first()[n - 2] == idx[n - 1]);
        assert(enc_indices(idx, n) =~= enc_u32(idx[0]) + enc_indices(idx.drop_first(), n - 1));
    }
}

/// Parsing undoes `enc_sig`.
pub proof fn lemma_take_sig(sv: SigView, rest: Seq<u8>)
    requires
        (sv.bytes.len() <= u64::MAX),
    ensures
        (take_sig(enc_sig(sv) + rest) == Some((sv, rest))),
{
    let b = enc_sig(sv) + rest;
    assert(b[0] == scheme_tag(sv.scheme));
    assert(tag_scheme(scheme_tag(sv.scheme)) == Some(sv.scheme));
    assert(b.skip(1) =~= enc_bytes(sv.bytes) + rest);
    lemma_take_bytes(sv.bytes, rest);
    assert(SigView { scheme: sv.scheme, bytes: sv.bytes } =~= sv);
}

/// Parsing undoes `enc_pk`.
pub proof fn lemma_take_pk(p: PublicKeyView, rest: Seq<u8>)
    requires
        (p.bytes.len() <= u64::MAX),
    ensures
        (take_pk(enc_pk(p) + rest) == Some((p, rest))),
{
    let b = enc_pk(p) + rest;
    assert(b[0] == scheme_tag(p.scheme));
    assert(tag_scheme(scheme_tag(p.scheme)) == Some(p.scheme));
    assert(b.skip(1) =~= enc_bytes(p.bytes) + rest);
    lemma_take_bytes(p.bytes, rest);
    assert(PublicKeyView { scheme: p.scheme, bytes: p.bytes } =~= p);
}

/// Parsing undoes `enc_sigs`.
pub proof fn lemma_take_sigs(sigs: Seq<SigView>, rest: Seq<u8>)
    requires
        forall|k: int| 0 <= k < sigs.len() ==> (#[trigger] sigs[k]).bytes.len() <= u64::MAX,
    ensures
        (take_sigs(enc_sigs(sigs, sigs.len() as int) + rest, sigs.len() as int) == Some(
            (sigs, rest),
        )),
    decreases sigs.len(),
{
    if sigs.len() == 0 {
        assert(enc_sigs(sigs, 0) + rest =~= rest);
        assert(sigs =~= Seq::<SigView>::empty());
    } else {
        lemma_enc_sigs_first(sigs, sigs.len() as int);
        let tail = sigs.drop_first();
        let b = enc_sigs(sigs, sigs.len() as int) + rest;
        assert(b =~= enc_sig(sigs[0]) + (enc_sigs(tail, tail.len() as int) + rest));
        lemma_take_sig(sigs[0], enc_sigs(tail, tail.len() as int) + rest);
        lemma_take_sigs(tail, rest);
        assert(seq![sigs[0]] + tail =~= sigs);
    }
}

/// Parsing undoes `enc_pks`.
pub proof fn lemma_take_pks(pks: Seq<PublicKeyView>, rest: Seq<u8>)
    requires
        forall|k: int| 0 <= k < pks.len() ==> (#[trigger] pks[k]).bytes.len() <= u64::MAX,
    ensures
        (take_pks(enc_pks(pks, pks.len() as int) + rest, pks.len() as int) == Some((pks, rest))),
    decreases pks.len(),
{
    if pks.len() == 0 {
        assert(enc_pks(pks, 0) + rest =~= rest);
        assert(pks =~= Seq::<PublicKeyView>::empty());
    } else {
        lemma_enc_pks_first(pks, pks.len() as int);
        let tail = pks.drop_first();
        let b = enc_pks(pks, pks.len() as int) + rest;
        assert(b =~= enc_pk(pks[0]) + (enc_pks(tail, tail.len() as int) + rest));
        lemma_take_pk(pks[0], enc_pks(tail, tail.len() as int) + rest);
        lemma_take_pks(tail, rest);
        assert(seq![pks[0]] + tail =~= pks);
    }
}

/// Parsing undoes `enc_indices`.
pub proof fn lemma_take_indices(idx: Seq<u32>, rest: Seq<u8>)
    ensures
        (take_indices(enc_indices(idx, idx.len() as int) + rest, idx.len() as int) == Some(
            (idx, rest),
        )),
    decreases idx.len(),
{
    if idx.len() == 0 {
        assert(enc_indices(idx, 0) + rest =~= rest);
        assert(idx =~= Seq::<u32>::empty());
    } else {
        lemma_enc_indices_first(idx, idx.len() as int);
        let tail = idx.drop_first();
        let b = enc_indices(idx, idx.len() as int) + rest;
        assert(b =~= enc_u32(idx[0]) + (enc_indices(tail, tail.len() as int) + rest));
        lemma_take_u32(idx[0], enc_indices(tail, tail.len() as int) + rest);
        lemma_take_indices(tail, rest);
        assert(seq![idx[0]] + tail =~= idx);
    }
}

/// Parsing undoes `committee_bytes`.
pub proof fn lemma_take_committee(c: MultiPublicKeyView, rest: Seq<u8>)
    requires
        (c.pks.len() <= u64::MAX),
        forall|k: int| 0 <= k < c.pks.len() ==> (#[trigger] c.pks[k]).bytes.len() <= u64::MAX,
        0 <= c.threshold <= u64::MAX,
    ensures
        (take_committee(committee_bytes(c) + rest) == Some((c, rest))),
{
    let b = committee_bytes(c) + rest;
    let mid = enc_pks(c.pks, c.pks.len() as int) + (enc_u64(c.threshold as u64) + rest);
    assert(b =~= enc_u64(c.pks.len() as u64) + mid);
    lemma_take_u64(c.pks.len() as u64, mid);
    lemma_take_pks(c.pks, enc_u64(c.threshold as u64) + rest);
    lemma_take_u64(c.threshold as u64, rest);
    assert(MultiPublicKeyView { pks: c.pks, threshold: (c.threshold as u64) as int } =~= c);
}


/// A whole aggregate authorization: signature count, signatures, index
/// count, indices, then the committee.
pub open spec fn multisig_bytes(v: MultiSignatureView) -> Seq<u8> {
    enc_u64(v.sigs.len() as u64) + enc_sigs(v.sigs, v.sigs.len() as int) + enc_u64(
        v.indices.len() as u64,
    ) + enc_indices(v.indices, v.indices.len() as int) + committee_bytes(v.multi_pk)
}

/// Parses a whole aggregate authorization: the two counts must agree, the
/// indices must be strictly ascending, the threshold must be representable,
/// and no input may be left over.
pub open spec fn dec_multisig(b: Seq<u8>) -> Option<MultiSignatureView> {
    match take_u64(b) {
        None => None,
        Some((nsig, r1)) => match take_sigs(r1, nsig as int) {
            None => None,
            Some((sigs, r2)) => match take_u64(r2) {
                None => None,
                Some((nidx, r3)) => if nidx != nsig {
                    None
                } else {
                    match take_indices(r3, nidx as int) {
                        None => None,
                        Some((idx, r4)) => if !sorted_strict(idx) {
                            None
                        } else {
                            match take_committee(r4) {
                                None => None,
                                Some((c, r5)) => if r5.len() == 0 && c.threshold <= usize::MAX {
                                    Some(MultiSignatureView { sigs, indices: idx, multi_pk: c })
                                } else {
                                    None
                                },
                            }
                        },
                    }
                },
            },
        },
    }
}

/// Round-trip law: decoding the canonical encoding of a well-formed
/// aggregate authorization yields it back, structurally equal.
pub proof fn lemma_round_trip(v: MultiSignatureView)
    requires
        v.wf(),
        (v.sigs.len() <= u64::MAX),
        forall|k: int| 0 <= k < v.sigs.len() ==> (#[trigger] v.sigs[k]).bytes.len() <= u64::MAX,
        (v.multi_pk.pks.len() <= u64::MAX),
        forall|k: int|
            0 <= k < v.multi_pk.pks.len() ==> (#[trigger] v.multi_pk.pks[k]).bytes.len()
                <= u64::MAX,
        0 <= v.multi_pk.threshold <= usize::MAX,
    ensures
        (dec_multisig(multisig_bytes(v)) == Some(v)),
{
    let b = multisig_bytes(v);
    let ns = v.sigs.len() as u64;
    let tail1 = enc_sigs(v.sigs, v.sigs.len() as int) + (enc_u64(v.indices.len() as u64)
        + (enc_indices(v.indices, v.indices.len() as int) + committee_bytes(v.multi_pk)));
    assert(b =~= enc_u64(ns) + tail1);
    lemma_take_u64(ns, tail1);
    let tail2 = enc_u64(v.indices.len() as u64) + (enc_indices(v.indices, v.indices.len() as int)
        + committee_bytes(v.multi_pk));
    lemma_take_sigs(v.sigs, tail2);
    let tail3 = enc_indices(v.indices, v.indices.len() as int) + committee_bytes(v.multi_pk);
    lemma_take_u64(v.indices.len() as u64, tail3);
    let tail4 = committee_bytes(v.multi_pk);
    lemma_take_indices(v.indices, tail4);
    assert(tail4 =~= committee_bytes(v.multi_pk) + Seq::<u8>::empty());
    lemma_take_committee(v.multi_pk, Seq::<u8>::empty());
    assert(MultiSignatureView { sigs: v.sigs, indices: v.indices, multi_pk: v.multi_pk } =~~= v);
}

/// Monotonicity of `pow256`.
pub proof fn lemma_pow256_le(a: nat, b: nat)
    requires
        a <= b,
    ensures
        pow256(a) <= pow256(b),
    decreases b,
{
    if a < b {
        lemma_pow256_le(a, (b - 1) as nat);
        lemma_pow256_pos((b - 1) as nat);
    }
}

/// Reads an 8-byte little-endian integer at `p`.
pub fn read_u64(b: &Vec<u8>, p: usize) -> (r: Option<(u64, usize)>)
    requires
        p <= b@.len(),
    ensures
        match r {
            Some(v) => (take_u64(b@.skip(p as int)) == Some((v.0, b@.skip(v.1 as int)))) && v.1
                == p + 8 && p + 8 <= b@.len(),
            None => take_u64(b@.skip(p as int)) is None,
        },
{
    let blen = b.len();
    if blen - p < 8 {
        proof {
            assert(b@.skip(p as int).len() < 8);
        }
        return None;
    }
    let ghost t = b@.skip(p as int).take(8);
    let mut acc: u64 = 0;
    let mut i: usize = 8;
    proof {
        lemma_pow256_values();
        assert(t.skip(8) =~= Seq::<u8>::empty());
    }
    while i > 0
        invariant
            i <= 8,
            blen == b@.len(),
            p + 8 <= blen,
            t == b@.skip(p as int).take(8),
            t.len() == 8,
            acc as nat == dec_le(t.skip(i as int)),
            (acc as nat) < pow256((8 - i) as nat),
        decreases i,
    {
        i = i - 1;
        let byte = b[p + i];
        proof {
            assert(t[i as int] == b@[p + i]);
            assert(t.skip(i as int).drop_first() =~= t.skip(i as int + 1));
            assert(dec_le(t.skip(i as int)) == t[i as int] as nat + 256 * dec_le(
                t.skip(i as int + 1),
            ));
            lemma_pow256_le((7 - i) as nat, 7);
            lemma_pow256_values();
            assert((acc as nat) * 256 + 255 < pow256(8));
        }
        acc = acc * 256 + (byte as u64);
        proof {
            assert(pow256((8 - i) as nat) == 256 * pow256((7 - i) as nat));
        }
    }
    proof {
        assert(t.skip(0) =~= t);
        lemma_pow256_values();
        assert(b@.skip(p as int).len() >= 8);
        assert((dec_le(t) as u64) == acc);
        assert(b@.skip(p as int).skip(8) =~= b@.skip(p as int + 8));
    }
    Some((acc, p + 8))
}

/// Reads a 4-byte little-endian integer at `p`.
pub fn read_u32(b: &Vec<u8>, p: usize) -> (r: Option<(u32, usize)>)
    requires
        p <= b@.len(),
    ensures
        match r {
            Some(v) => (take_u32(b@.skip(p as int)) == Some((v.0, b@.skip(v.1 as int)))) && v.1
                == p + 4 && p + 4 <= b@.len(),
            None => take_u32(b@.skip(p as int)) is None,
        },
{
    let blen = b.len();
    if blen - p < 4 {
        proof {
            assert(b@.skip(p as int).len() < 4);
        }
        return None;
    }
    let ghost t = b@.skip(p as int).take(4);
    let mut acc: u32 = 0;
    let mut i: usize = 4;
    proof {
        lemma_pow256_values();
        assert(t.skip(4) =~= Seq::<u8>::empty());
    }
    while i > 0
        invariant
            i <= 4,
            blen == b@.len(),
            p + 4 <= blen,
            t == b@.skip(p as int).take(4),
            t.len() == 4,
            acc as nat == dec_le(t.skip(i as int)),
            (acc as nat) < pow256((4 - i) as nat),
        decreases i,
    {
        i = i - 1;
        let byte = b[p + i];
        proof {
            assert(t[i as int] == b@[p + i]);
            assert(t.skip(i as int).drop_first() =~= t.skip(i as int + 1));
            assert(dec_le(t.skip(i as int)) == t[i as int] as nat + 256 * dec_le(
                t.skip(i as int + 1),
            ));
            lemma_pow256_le((3 - i) as nat, 3);
            lemma_pow256_values();
            assert((acc as nat) * 256 + 255 < pow256(4));
        }
        acc = acc * 256 + (byte as u32);
        proof {
            assert(pow256((4 - i) as nat) == 256 * pow256((3 - i) as nat));
        }
    }
    proof {
        assert(t.skip(0) =~= t);
        lemma_pow256_values();
        assert((dec_le(t) as u32) == acc);
        assert(b@.skip(p as int).skip(4) =~= b@.skip(p as int + 4));
    }
    Some((acc, p + 4))
}

/// Reads a length-prefixed byte string at `p`.
pub fn read_bytes(b: &Vec<u8>, p: usize) -> (r: Option<(Vec<u8>, usize)>)
    requires
        p <= b@.len(),
    ensures
        match r {
            Some(v) => (take_bytes(b@.skip(p as int)) == Some((v.0@, b@.skip(v.1 as int)))) && p
                <= v.1 <= b@.len(),
            None => take_bytes(b@.skip(p as int)) is None,
        },
{
    match read_u64(b, p) {
        None => None,
        Some((n, p1)) => {
            if n > (b.len() - p1) as u64 {
                proof {
                    assert(b@.skip(p1 as int).len() < n);
                }
                return None;
            }
            let m = n as usize;
            let blen = b.len();
            let mut out: Vec<u8> = Vec::new();
            let mut q: usize = 0;
            while q < m
                invariant
                    q <= m,
                    blen == b@.len(),
                    p1 + m <= blen,
                    out@ == b@.subrange(p1 as int, p1 as int + q as int),
                decreases m - q,
            {
                out.push(b[p1 + q]);
                proof {
                    assert(out@ =~= b@.subrange(p1 as int, p1 as int + q as int + 1));
                }
                q = q + 1;
            }
            proof {
                assert(out@ =~= b@.skip(p1 as int).take(n as int));
                assert(b@.skip(p1 as int).skip(n as int) =~= b@.skip(p1 as int + n as int));
            }
            Some((out, p1 + m))
        },
    }
}

/// Reads a tag byte and its scheme at `p`.
pub fn read_tag(b: &Vec<u8>, p: usize) -> (r: Option<Scheme>)
    requires
        p <= b@.len(),
    ensures
        match r {
            Some(s) => p < b@.len() && tag_scheme(b@[p as int]) == Some(s),
            None => p >= b@.len() || tag_scheme(b@[p as int]) is None,
        },
{
    if p >= b.len() {
        return None;
    }
    let t = b[p];
    if t == 0 {
        Some(Scheme::Ed25519)
    } else if t == 1 {
        Some(Scheme::Secp256k1)
    } else if t == 2 {
        Some(Scheme::Secp256r1)
    } else if t == 3 {
        Some(Scheme::BLS12381)
    } else {
        None
    }
}

/// Reads one compressed signature at `p`.
pub fn read_sig(b: &Vec<u8>, p: usize) -> (r: Option<(CompressedSignature, usize)>)
    requires
        p <= b@.len(),
    ensures
        match r {
            Some(v) => (take_sig(b@.skip(p as int)) == Some((v.0@, b@.skip(v.1 as int)))) && p
                < v.1 <= b@.len(),
            None => take_sig(b@.skip(p as int)) is None,
        },
{
    match read_tag(b, p) {
        None => {
            proof {
                if p < b@.len() {
                    assert(b@.skip(p as int)[0] == b@[p as int]);
                }
            }
            None
        },
        Some(s) => {
            let blen = b.len();
            proof {
                assert(p < blen);
                assert(b@.skip(p as int)[0] == b@[p as int]);
                assert(b@.skip(p as int).skip(1) =~= b@.skip(p as int + 1));
            }
            match read_bytes(b, p + 1) {
                None => None,
                Some((bytes, p2)) => {
                    let cs = match s {
                        Scheme::Ed25519 => CompressedSignature::Ed25519(bytes),
                        Scheme::Secp256k1 => CompressedSignature::Secp256k1(bytes),
                        Scheme::Secp256r1 => CompressedSignature::Secp256r1(bytes),
                        Scheme::BLS12381 => CompressedSignature::BLS12381(bytes),
                    };
                    proof {
                        assert(cs@ =~= (SigView { scheme: s, bytes: cs@.bytes }));
                    }
                    Some((cs, p2))
                },
            }
        },
    }
}

/// Reads one public key at `p`.
pub fn read_pk(b: &Vec<u8>, p: usize) -> (r: Option<(PublicKey, usize)>)
    requires
        p <= b@.len(),
    ensures
        match r {
            Some(v) => (take_pk(b@.skip(p as int)) == Some((v.0@, b@.skip(v.1 as int)))) && p < v.1
                <= b@.len(),
            None => take_pk(b@.skip(p as int)) is None,
        },
{
    match read_tag(b, p) {
        None => {
            proof {
                if p < b@.len() {
                    assert(b@.skip(p as int)[0] == b@[p as int]);
                }
            }
            None
        },
        Some(s) => {
            let blen = b.len();
            proof {
                assert(p < blen);
                assert(b@.skip(p as int)[0] == b@[p as int]);
                assert(b@.skip(p as int).skip(1) =~= b@.skip(p as int + 1));
            }
            match read_bytes(b, p + 1) {
                None => None,
                Some((bytes, p2)) => {
                    let pk = PublicKey { scheme: s, bytes };
                    proof {
                        assert(pk@ =~= (PublicKeyView { scheme: s, bytes: pk@.bytes }));
                    }
                    Some((pk, p2))
                },
            }
        },
    }
}

} // verus!

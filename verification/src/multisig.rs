use vstd::prelude::*;
use roaring::RoaringBitmap;
use crate::bitmap::{
    bitmap_insert, bitmap_len, bitmap_new, bitmap_seq, bitmap_to_vec, lemma_insert_sorted_append,
    lemma_insert_sorted_contains, lemma_insert_sorted_preserves, sorted_strict,
};
use crate::codec::{
    committee_bytes, dec_multisig, enc_indices, enc_sigs, enc_u64, multisig_bytes, push_sig,
    push_u32, push_u64, read_pk, read_sig, read_u32, read_u64, take_committee, take_indices,
    take_pks, take_sigs, take_u64,
};
use crate::committee::{pk_found, pk_index, MultiPublicKey, MultiPublicKeyView};
use crate::crypto::{
    bytes_eq, check_one, compress_spec, digest_of, scheme_accepts, sha3_digest, sig_pk,
    CompressedSignature, PublicKeyView, Signature, SignatureView, SigView,
};
use crate::errors::{CombineError, VerifyError};

verus! {

/// The externally derived value that a committee is bound to: who is allowed
/// to use it. Derived deterministically and collision-resistantly from the
/// committee definition.
#[derive(Clone, Debug)]
pub struct Identity(pub Vec<u8>);

impl View for Identity {
    type V = Seq<u8>;

    open spec fn view(&self) -> Seq<u8> {
        self.0@
    }
}

/// The identity a committee is bound to: the digest of its canonical
/// encoding.
pub open spec fn identity_spec(c: MultiPublicKeyView) -> Seq<u8> {
    digest_of(committee_bytes(c))
}

/// Derives the identity of a committee.
pub fn identity_of(multi_pk: &MultiPublicKey) -> (r: Identity)
    ensures
        r@ == identity_spec(multi_pk@),
{
    let enc = crate::codec::encode_committee(multi_pk);
    Identity(sha3_digest(&enc))
}

/// An aggregate authorization: an ordered signature list, the ascending set
/// of committee positions that signed (paired positionally with the list),
/// and the committee itself.
pub struct MultiSignature {
    sigs: Vec<CompressedSignature>,
    bitmap: RoaringBitmap,
    multi_pk: MultiPublicKey,
}

/// Mathematical model of a [`MultiSignature`]: the signature views, the
/// ascending member indices, and the committee view.
#[verifier::ext_equal]
pub ghost struct MultiSignatureView {
    pub sigs: Seq<SigView>,
    pub indices: Seq<u32>,
    pub multi_pk: MultiPublicKeyView,
}

impl View for MultiSignature {
    type V = MultiSignatureView;

    closed spec fn view(&self) -> MultiSignatureView {
        MultiSignatureView {
            sigs: self.sigs@.map_values(|s: CompressedSignature| s@),
            indices: bitmap_seq(self.bitmap),
            multi_pk: self.multi_pk@,
        }
    }
}

impl MultiSignatureView {
    /// Structural invariant: one stored signature per signing member, and
    /// the member indices strictly ascending, so the i-th signature belongs
    /// to the i-th index of the ascending enumeration.
    pub open spec fn wf(self) -> bool {
        &&& self.sigs.len() == self.indices.len()
        &&& sorted_strict(self.indices)
    }
}

/// One member check of the verify loop: the index must name a member, the
/// member's key must use the signature's algorithm, and that algorithm must
/// accept the signature on the message under the member's key bytes.
pub open spec fn member_check(
    pks: Seq<PublicKeyView>,
    msg: Seq<u8>,
    i: u32,
    sig: SigView,
) -> bool {
    &&& (i as int) < pks.len()
    &&& pks[i as int].scheme == sig.scheme
    &&& scheme_accepts(sig.scheme, pks[i as int].bytes, msg, sig.bytes)
}

/// How many of the first `n` (index, signature) pairs pass their member
/// check.
pub open spec fn count_ok(
    pks: Seq<PublicKeyView>,
    msg: Seq<u8>,
    idx: Seq<u32>,
    sigs: Seq<SigView>,
    n: int,
) -> int
    decreases n,
{
    if n <= 0 {
        0
    } else {
        count_ok(pks, msg, idx, sigs, n - 1) + if member_check(pks, msg, idx[n - 1], sigs[n - 1]) {
            1int
        } else {
            0int
        }
    }
}

/// Whether every index names a committee member.
pub open spec fn indices_in_range(idx: Seq<u32>, n: int) -> bool {
    forall|j: int| 0 <= j < idx.len() ==> (idx[j] as int) < n
}

/// The verification protocol, gate by gate: the count gate, the identity
/// gate, the malformed-index gate, then the threshold gate over the
/// individual member checks.
pub open spec fn verify_spec(v: MultiSignatureView, msg: Seq<u8>, author: Seq<u8>) -> Result<
    (),
    VerifyError,
> {
    if v.multi_pk.threshold > v.sigs.len() {
        Err(VerifyError::InsufficientSignatures)
    } else if author != identity_spec(v.multi_pk) {
        Err(VerifyError::IdentityMismatch)
    } else if !indices_in_range(v.indices, v.multi_pk.pks.len() as int) {
        Err(VerifyError::MalformedAuthorization)
    } else if v.multi_pk.threshold <= count_ok(
        v.multi_pk.pks,
        msg,
        v.indices,
        v.sigs,
        v.indices.len() as int,
    ) {
        Ok(())
    } else {
        Err(VerifyError::InsufficientSignatures)
    }
}

/// A capability that unifies the aggregate authorization and the bare single
/// signature behind one verification operation.
pub trait AuthenticatorTrait {
    /// The well-formedness this authenticator demands of itself.
    spec fn au_wf(&self) -> bool;

    /// What verification returns, as a function of the canonical message
    /// bytes and the claimed identity.
    spec fn verify_model(&self, msg: Seq<u8>, author: Seq<u8>) -> Result<(), VerifyError>;

    /// Verifies this authenticator against the canonical message bytes and
    /// the claimed identity.
    fn verify_secure_generic(&self, value: &Vec<u8>, author: &Identity) -> (r: Result<
        (),
        VerifyError,
    >)
        requires
            self.au_wf(),
        ensures
            r == self.verify_model(value@, author@),
    ;
}

impl MultiSignature {
    /// The number of stored signatures.
    pub fn size(&self) -> (r: usize)
        ensures
            r == self@.sigs.len(),
    {
        self.sigs.len()
    }

    /// Checks the structural length invariant: one stored signature per
    /// member index.
    pub fn is_valid(&self) -> (r: Result<(), VerifyError>)
        ensures
            r is Ok <==> self@.sigs.len() == self@.indices.len(),
            r is Err ==> r == Err::<(), VerifyError>(VerifyError::MalformedAuthorization),
    {
        let n = bitmap_len(&self.bitmap);
        if self.sigs.len() as u64 == n {
            Ok(())
        } else {
            Err(VerifyError::MalformedAuthorization)
        }
    }

    /// The committee this authorization claims to speak for.
    pub fn committee(&self) -> (r: &MultiPublicKey)
        ensures
            r@ == self@.multi_pk,
    {
        &self.multi_pk
    }
}

impl AuthenticatorTrait for MultiSignature {
    open spec fn au_wf(&self) -> bool {
        self@.wf()
    }

    open spec fn verify_model(&self, msg: Seq<u8>, author: Seq<u8>) -> Result<(), VerifyError> {
        verify_spec(self@, msg, author)
    }

    fn verify_secure_generic(&self, value: &Vec<u8>, author: &Identity) -> (r: Result<
        (),
        VerifyError,
    >) {
        if self.multi_pk.threshold > self.sigs.len() {
            return Err(VerifyError::InsufficientSignatures);
        }
        let id = identity_of(&self.multi_pk);
        if !bytes_eq(&id.0, &author.0) {
            return Err(VerifyError::IdentityMismatch);
        }
        let idx = bitmap_to_vec(&self.bitmap);
        let n_members = self.multi_pk.pks.len();
        let mut j: usize = 0;
        while j < idx.len()
            invariant
                j <= idx.len(),
                idx@ == self@.indices,
                n_members == self@.multi_pk.pks.len(),
                self@.multi_pk.threshold <= self@.sigs.len(),
                author@ == identity_spec(self@.multi_pk),
                forall|j2: int| 0 <= j2 < j ==> (idx@[j2] as int) < n_members,
            decreases idx.len() - j,
        {
            if idx[j] as usize >= n_members {
                proof {
                    assert(!indices_in_range(self@.indices, self@.multi_pk.pks.len() as int));
                }
                return Err(VerifyError::MalformedAuthorization);
            }
            j = j + 1;
        }
        proof {
            assert(indices_in_range(self@.indices, self@.multi_pk.pks.len() as int));
        }
        let mut count: usize = 0;
        let mut j: usize = 0;
        while j < idx.len()
            invariant
                j <= idx.len(),
                count <= j,
                idx@ == self@.indices,
                self@.multi_pk.threshold <= self@.sigs.len(),
                author@ == identity_spec(self@.multi_pk),
                self@.wf(),
                self.sigs@.len() == idx@.len(),
                n_members == self@.multi_pk.pks.len(),
                n_members == self.multi_pk.pks@.len(),
                indices_in_range(self@.indices, self@.multi_pk.pks.len() as int),
                count as int == count_ok(self@.multi_pk.pks, value@, self@.indices, self@.sigs, j as int),
            decreases idx.len() - j,
        {
            let i = idx[j] as usize;
            proof {
                assert((self@.indices[j as int] as int) < self@.multi_pk.pks.len());
                assert(self@.multi_pk.pks[i as int] == self.multi_pk.pks@[i as int]@);
                assert(self@.sigs[j as int] == self.sigs@[j as int]@);
            }
            let ok = check_one(&self.multi_pk.pks[i], value, &self.sigs[j]);
            proof {
                assert(ok == member_check(
                    self@.multi_pk.pks,
                    value@,
                    self@.indices[j as int],
                    self@.sigs[j as int],
                ));
                assert(count_ok(self@.multi_pk.pks, value@, self@.indices, self@.sigs, j as int + 1)
                    == count_ok(self@.multi_pk.pks, value@, self@.indices, self@.sigs, j as int)
                    + if member_check(
                    self@.multi_pk.pks,
                    value@,
                    self@.indices[j as int],
                    self@.sigs[j as int],
                ) {
                    1int
                } else {
                    0int
                });
            }
            if ok {
                count = count + 1;
            }
            j = j + 1;
        }
        if count >= self.multi_pk.threshold {
            Ok(())
        } else {
            Err(VerifyError::InsufficientSignatures)
        }
    }
}

/// The views of a list of full signatures.
pub open spec fn sig_views(s: Seq<Signature>) -> Seq<SignatureView> {
    s.map_values(|x: Signature| x@)
}

/// The first error the combine algorithm meets while walking the first `n`
/// input signatures in order: a signer not in the committee, or a signer
/// index already taken by an earlier input.
pub open spec fn combine_scan(
    pks: Seq<PublicKeyView>,
    sv: Seq<SignatureView>,
    n: int,
) -> Option<CombineError>
    decreases n,
{
    if n <= 0 {
        None
    } else {
        let prev = combine_scan(pks, sv, n - 1);
        if prev is Some {
            prev
        } else if !pk_found(pks, sig_pk(sv[n - 1])) {
            Some(CombineError::SignerNotFound)
        } else if exists|k: int|
            0 <= k < n - 1 && #[trigger] pk_index(pks, sig_pk(sv[k])) == pk_index(
                pks,
                sig_pk(sv[n - 1]),
            ) {
            Some(CombineError::DuplicateSigner)
        } else {
            None
        }
    }
}

/// Once the scan has met an error, walking further inputs keeps it.
pub proof fn lemma_combine_scan_stable(
    pks: Seq<PublicKeyView>,
    sv: Seq<SignatureView>,
    n1: int,
    n2: int,
)
    requires
        0 <= n1 <= n2,
        combine_scan(pks, sv, n1) is Some,
    ensures
        combine_scan(pks, sv, n2) == combine_scan(pks, sv, n1),
    decreases n2 - n1,
{
    if n2 > n1 {
        lemma_combine_scan_stable(pks, sv, n1, n2 - 1);
    }
}

/// Positional pairing of an aggregate with its combine inputs: whenever a
/// stored index is an input's resolved committee position, the signature
/// stored beside that index is that same input, compressed.
pub open spec fn paired_with_inputs(
    ms: MultiSignatureView,
    pks: Seq<PublicKeyView>,
    sv: Seq<SignatureView>,
) -> bool {
    forall|j: int, k: int|
        0 <= j < ms.indices.len() && 0 <= k < sv.len() && #[trigger] pk_index(pks, sig_pk(sv[k]))
            == (#[trigger] ms.indices[j]) as int ==> ms.sigs[j] == compress_spec(sv[k])
}

/// While the scan meets no error, the inputs' resolved positions are
/// pairwise distinct: no signature has been silently collapsed with another.
pub proof fn lemma_scan_none_distinct(pks: Seq<PublicKeyView>, sv: Seq<SignatureView>, n: int)
    requires
        combine_scan(pks, sv, n) is None,
    ensures
        forall|k1: int, k2: int|
            0 <= k1 < k2 < n ==> #[trigger] pk_index(pks, sig_pk(sv[k1])) != #[trigger] pk_index(
                pks,
                sig_pk(sv[k2]),
            ),
    decreases n,
{
    if n > 0 {
        lemma_scan_none_distinct(pks, sv, n - 1);
        assert forall|k1: int, k2: int| 0 <= k1 < k2 < n implies #[trigger] pk_index(
            pks,
            sig_pk(sv[k1]),
        ) != #[trigger] pk_index(pks, sig_pk(sv[k2])) by {
            if k2 == n - 1 {
                assert(!(exists|k3: int|
                    0 <= k3 < n - 1 && #[trigger] pk_index(pks, sig_pk(sv[k3])) == pk_index(
                        pks,
                        sig_pk(sv[n - 1]),
                    )));
            }
        }
    }
}

impl MultiSignature {
    /// Builds an aggregate authorization from individually produced full
    /// signatures and a committee.
    ///
    /// Each input's signer is resolved to its first committee position; a
    /// signer outside the committee or two inputs resolving to the same
    /// position are errors (never silently collapsed). Stored signatures are
    /// ordered by resolved position, so the i-th signature always belongs to
    /// the i-th index of the ascending enumeration.
    #[verifier::rlimit(60)]
    pub fn combine(full_sigs: Vec<Signature>, multi_pk: MultiPublicKey) -> (r: Result<
        MultiSignature,
        CombineError,
    >)
        requires
            multi_pk@.pks.len() <= u32::MAX,
        ensures
            match r {
                Err(e) => combine_scan(
                    multi_pk@.pks,
                    sig_views(full_sigs@),
                    full_sigs@.len() as int,
                ) == Some(e),
                Ok(ms) => {
                    &&& combine_scan(
                        multi_pk@.pks,
                        sig_views(full_sigs@),
                        full_sigs@.len() as int,
                    ) is None
                    &&& ms@.multi_pk == multi_pk@
                    &&& ms@.wf()
                    &&& ms@.indices.len() == full_sigs@.len()
                    &&& forall|x: u32|
                        ms@.indices.contains(x) <==> exists|k: int|
                            0 <= k < full_sigs@.len() && #[trigger] pk_index(
                                multi_pk@.pks,
                                sig_pk(sig_views(full_sigs@)[k]),
                            ) == x as int
                    &&& paired_with_inputs(ms@, multi_pk@.pks, sig_views(full_sigs@))
                },
            },
    {
        let ghost pks = multi_pk@.pks;
        let ghost sv = sig_views(full_sigs@);
        let mut bitmap = bitmap_new();
        let mut idx_of: Vec<u32> = Vec::new();
        let mut k: usize = 0;
        while k < full_sigs.len()
            invariant
                k <= full_sigs.len(),
                pks == multi_pk@.pks,
                pks.len() <= u32::MAX,
                sv == sig_views(full_sigs@),
                sv.len() == full_sigs@.len(),
                full_sigs@.len() == full_sigs.len(),
                idx_of@.len() == k,
                combine_scan(pks, sv, k as int) is None,
                sorted_strict(bitmap_seq(bitmap)),
                bitmap_seq(bitmap).len() == k,
                forall|k2: int| 0 <= k2 < k ==> pk_found(pks, #[trigger] sig_pk(sv[k2])),
                forall|k2: int|
                    0 <= k2 < k ==> (#[trigger] idx_of@[k2]) as int == pk_index(
                        pks,
                        sig_pk(sv[k2]),
                    ),
                forall|k2: int|
                    0 <= k2 < k ==> bitmap_seq(bitmap).contains(#[trigger] idx_of@[k2]),
                forall|x: u32|
                    #[trigger] bitmap_seq(bitmap).contains(x) ==> exists|k2: int|
                        0 <= k2 < k && #[trigger] pk_index(pks, sig_pk(sv[k2])) == x as int,
            decreases full_sigs.len() - k,
        {
            proof {
                assert(sv[k as int] == full_sigs@[k as int]@);
            }
            let pk = full_sigs[k].to_public_key();
            match multi_pk.get_index(pk) {
                None => {
                    proof {
                        assert(pk@ == sig_pk(sv[k as int]));
                        assert(combine_scan(pks, sv, k as int + 1) == Some(
                            CombineError::SignerNotFound,
                        ));
                        lemma_combine_scan_stable(pks, sv, k as int + 1, sv.len() as int);
                    }
                    return Err(CombineError::SignerNotFound);
                },
                Some(i) => {
                    proof {
                        assert(pk@ == sig_pk(sv[k as int]));
                        assert(pk_found(pks, sig_pk(sv[k as int])));
                        assert(i as int == pk_index(pks, sig_pk(sv[k as int])));
                    }
                    let ghost old_bits = bitmap_seq(bitmap);
                    let ghost preidx = idx_of@;
                    let fresh = bitmap_insert(&mut bitmap, i);
                    proof {
                        lemma_insert_sorted_preserves(old_bits, i);
                    }
                    if !fresh {
                        proof {
                            assert(old_bits.contains(i));
                            assert(exists|k2: int|
                                0 <= k2 < k && #[trigger] pk_index(pks, sig_pk(sv[k2]))
                                    == i as int);
                            assert(combine_scan(pks, sv, k as int + 1) == Some(
                                CombineError::DuplicateSigner,
                            ));
                            lemma_combine_scan_stable(pks, sv, k as int + 1, sv.len() as int);
                        }
                        return Err(CombineError::DuplicateSigner);
                    }
                    idx_of.push(i);
                    proof {
                        assert(idx_of@ == preidx.push(i));
                        assert(!(exists|k2: int|
                            0 <= k2 < k && #[trigger] pk_index(pks, sig_pk(sv[k2])) == pk_index(
                                pks,
                                sig_pk(sv[k as int]),
                            ))) by {
                            if exists|k2: int|
                                0 <= k2 < k && #[trigger] pk_index(pks, sig_pk(sv[k2]))
                                    == pk_index(pks, sig_pk(sv[k as int])) {
                                let k2 = choose|k2: int|
                                    0 <= k2 < k && #[trigger] pk_index(pks, sig_pk(sv[k2]))
                                        == pk_index(pks, sig_pk(sv[k as int]));
                                assert(preidx[k2] as int == pk_index(pks, sig_pk(sv[k2])));
                                assert(preidx[k2] == i);
                                assert(old_bits.contains(preidx[k2]));
                                assert(false);
                            }
                        }
                        assert(combine_scan(pks, sv, k as int + 1) is None);
                        assert forall|k2: int| 0 <= k2 < k + 1 implies pk_found(
                            pks,
                            #[trigger] sig_pk(sv[k2]),
                        ) by {
                            if k2 < k {
                                assert(pk_found(pks, sig_pk(sv[k2])));
                            }
                        }
                        assert forall|k2: int| 0 <= k2 < k + 1 implies (
                        #[trigger] idx_of@[k2]) as int == pk_index(pks, sig_pk(sv[k2])) by {
                            if k2 < k {
                                assert(idx_of@[k2] == preidx[k2]);
                                assert(preidx[k2] as int == pk_index(pks, sig_pk(sv[k2])));
                            } else {
                                assert(idx_of@[k2] == i);
                            }
                        }
                        assert forall|k2: int| 0 <= k2 < k + 1 implies bitmap_seq(
                            bitmap,
                        ).contains(#[trigger] idx_of@[k2]) by {
                            if k2 < k {
                                assert(idx_of@[k2] == preidx[k2]);
                                assert(old_bits.contains(preidx[k2]));
                                lemma_insert_sorted_contains(old_bits, i, preidx[k2]);
                            } else {
                                assert(idx_of@[k2] == i);
                                lemma_insert_sorted_contains(old_bits, i, i);
                            }
                        }
                        assert forall|x: u32| #[trigger]
                        bitmap_seq(bitmap).contains(x) implies exists|k2: int|
                            0 <= k2 < k + 1 && #[trigger] pk_index(pks, sig_pk(sv[k2]))
                                == x as int by {
                            lemma_insert_sorted_contains(old_bits, i, x);
                            if old_bits.contains(x) {
                                let k2 = choose|k2: int|
                                    0 <= k2 < k && #[trigger] pk_index(pks, sig_pk(sv[k2]))
                                        == x as int;
                                assert(0 <= k2 < k + 1 && pk_index(pks, sig_pk(sv[k2]))
                                    == x as int);
                            } else {
                                assert(x == i);
                                assert(pk_index(pks, sig_pk(sv[k as int])) == x as int);
                            }
                        }
                    }
                },
            }
            k = k + 1;
        }
        proof {
            lemma_scan_none_distinct(pks, sv, sv.len() as int);
        }
        let sorted = bitmap_to_vec(&bitmap);
        let mut sigs: Vec<CompressedSignature> = Vec::new();
        let mut j: usize = 0;
        while j < sorted.len()
            invariant
                j <= sorted.len(),
                pks == multi_pk@.pks,
                sv == sig_views(full_sigs@),
                sv.len() == full_sigs@.len(),
                full_sigs@.len() == full_sigs.len(),
                idx_of@.len() == full_sigs@.len(),
                combine_scan(pks, sv, sv.len() as int) is None,
                sorted_strict(bitmap_seq(bitmap)),
                sorted@ == bitmap_seq(bitmap),
                sorted@.len() == sorted.len(),
                sigs@.len() == j,
                forall|k2: int|
                    0 <= k2 < idx_of@.len() ==> (#[trigger] idx_of@[k2]) as int == pk_index(
                        pks,
                        sig_pk(sv[k2]),
                    ),
                forall|x: u32|
                    #[trigger] bitmap_seq(bitmap).contains(x) ==> exists|k2: int|
                        0 <= k2 < idx_of@.len() && #[trigger] pk_index(pks, sig_pk(sv[k2]))
                            == x as int,
                forall|k1: int, k2: int|
                    0 <= k1 < k2 < sv.len() ==> #[trigger] pk_index(pks, sig_pk(sv[k1]))
                        != #[trigger] pk_index(pks, sig_pk(sv[k2])),
                forall|j2: int, k2: int|
                    0 <= j2 < j && 0 <= k2 < sv.len() && #[trigger] pk_index(pks, sig_pk(sv[k2]))
                        == (#[trigger] sorted@[j2]) as int ==> sigs@[j2]@ == compress_spec(
                        sv[k2],
                    ),
            decreases sorted.len() - j,
        {
            let target = sorted[j];
            proof {
                assert(bitmap_seq(bitmap).contains(target)) by {
                    assert(bitmap_seq(bitmap)[j as int] == target);
                }
            }
            let mut kk: usize = 0;
            while kk < idx_of.len() && idx_of[kk] != target
                invariant
                    kk <= idx_of.len(),
                    forall|k2: int| 0 <= k2 < kk ==> #[trigger] idx_of@[k2] != target,
                decreases idx_of.len() - kk,
            {
                kk = kk + 1;
            }
            if kk == idx_of.len() {
                proof {
                    let k2 = choose|k2: int|
                        0 <= k2 < idx_of@.len() && #[trigger] pk_index(pks, sig_pk(sv[k2]))
                            == target as int;
                    assert(idx_of@[k2] as int == pk_index(pks, sig_pk(sv[k2])));
                    assert(idx_of@[k2] == target);
                    assert(false);
                }
            }
            proof {
                assert(idx_of@[kk as int] == target);
                assert(pk_index(pks, sig_pk(sv[kk as int])) == target as int);
                assert(sv[kk as int] == full_sigs@[kk as int]@);
            }
            let ghost presigs = sigs@;
            let cs = full_sigs[kk].to_compressed();
            sigs.push(cs);
            proof {
                assert(sigs@ == presigs.push(cs));
                assert(sigs@[j as int]@ == compress_spec(sv[kk as int]));
                assert forall|j2: int, k2: int|
                    0 <= j2 < j + 1 && 0 <= k2 < sv.len() && #[trigger] pk_index(
                        pks,
                        sig_pk(sv[k2]),
                    ) == (#[trigger] sorted@[j2]) as int implies sigs@[j2]@ == compress_spec(
                    sv[k2],
                ) by {
                    if j2 < j {
                        assert(sigs@[j2] == presigs[j2]);
                        assert(presigs[j2]@ == compress_spec(sv[k2]));
                    } else {
                        assert(pk_index(pks, sig_pk(sv[kk as int])) == target as int);
                        assert(pk_index(pks, sig_pk(sv[k2])) == target as int);
                        assert(k2 == kk as int) by {
                            if k2 < kk as int {
                                assert(pk_index(pks, sig_pk(sv[k2])) != pk_index(
                                    pks,
                                    sig_pk(sv[kk as int]),
                                ));
                            }
                            if k2 > kk as int {
                                assert(pk_index(pks, sig_pk(sv[kk as int])) != pk_index(
                                    pks,
                                    sig_pk(sv[k2]),
                                ));
                            }
                        }
                    }
                }
            }
            j = j + 1;
        }
        let ms = MultiSignature { sigs, bitmap, multi_pk };
        proof {
            assert(ms@.indices == sorted@);
            assert(ms@.sigs.len() == sorted@.len());
            assert(ms@.wf());
            assert forall|x: u32| ms@.indices.contains(x) implies exists|k2: int|
                0 <= k2 < full_sigs@.len() && #[trigger] pk_index(
                    multi_pk@.pks,
                    sig_pk(sig_views(full_sigs@)[k2]),
                ) == x as int by {
                assert(bitmap_seq(ms.bitmap).contains(x));
            }
            assert forall|x: u32|
                (exists|k2: int|
                    0 <= k2 < full_sigs@.len() && #[trigger] pk_index(
                        multi_pk@.pks,
                        sig_pk(sig_views(full_sigs@)[k2]),
                    ) == x as int) implies ms@.indices.contains(x) by {
                let k2 = choose|k2: int|
                    0 <= k2 < full_sigs@.len() && #[trigger] pk_index(
                        multi_pk@.pks,
                        sig_pk(sig_views(full_sigs@)[k2]),
                    ) == x as int;
                assert(idx_of@[k2] as int == pk_index(pks, sig_pk(sv[k2])));
                assert(idx_of@[k2] == x);
                assert(bitmap_seq(ms.bitmap).contains(idx_of@[k2]));
            }
            assert forall|j2: int, k2: int|
                0 <= j2 < ms@.indices.len() && 0 <= k2 < sv.len() && #[trigger] pk_index(
                    pks,
                    sig_pk(sv[k2]),
                ) == (#[trigger] ms@.indices[j2]) as int implies ms@.sigs[j2] == compress_spec(
                sv[k2],
            ) by {
                assert(ms@.indices[j2] == sorted@[j2]);
                assert(sigs@[j2]@ == compress_spec(sv[k2]));
                assert(ms@.sigs[j2] == sigs@[j2]@);
            }
            assert(paired_with_inputs(ms@, pks, sv));
            assert(paired_with_inputs(ms@, multi_pk@.pks, sig_views(full_sigs@)));
        }
        Ok(ms)
    }
}

/// The identity a bare single-key signer is bound to: the digest of the
/// canonical encoding of its public key.
pub open spec fn single_identity_spec(pk: PublicKeyView) -> Seq<u8> {
    digest_of(crate::codec::enc_pk(pk))
}

/// Derives the identity of a single-key signer.
pub fn identity_of_single(pk: &crate::crypto::PublicKey) -> (r: Identity)
    ensures
        r@ == single_identity_spec(pk@),
{
    let mut enc: Vec<u8> = Vec::new();
    crate::codec::push_pk(&mut enc, pk);
    proof {
        assert(enc@ =~= crate::codec::enc_pk(pk@));
    }
    Identity(sha3_digest(&enc))
}

/// What verifying a bare single signature returns: the identity gate, then
/// the one algorithm-specific check.
pub open spec fn single_verify_spec(v: SignatureView, msg: Seq<u8>, author: Seq<u8>) -> Result<
    (),
    VerifyError,
> {
    if author != single_identity_spec(sig_pk(v)) {
        Err(VerifyError::IdentityMismatch)
    } else if scheme_accepts(v.scheme, v.pk_bytes, msg, v.sig_bytes) {
        Ok(())
    } else {
        Err(VerifyError::InsufficientSignatures)
    }
}

impl AuthenticatorTrait for Signature {
    open spec fn au_wf(&self) -> bool {
        true
    }

    open spec fn verify_model(&self, msg: Seq<u8>, author: Seq<u8>) -> Result<(), VerifyError> {
        single_verify_spec(self@, msg, author)
    }

    fn verify_secure_generic(&self, value: &Vec<u8>, author: &Identity) -> (r: Result<
        (),
        VerifyError,
    >) {
        let pk = self.to_public_key();
        let id = identity_of_single(&pk);
        if !bytes_eq(&id.0, &author.0) {
            return Err(VerifyError::IdentityMismatch);
        }
        let cs = self.to_compressed();
        if check_one(&pk, value, &cs) {
            Ok(())
        } else {
            Err(VerifyError::InsufficientSignatures)
        }
    }
}

/// The closed union of the two authenticator variants: an aggregate
/// authorization or a bare single signature.
pub enum GenericSignature {
    MultiSignature(MultiSignature),
    Signature(Signature),
}

impl AuthenticatorTrait for GenericSignature {
    open spec fn au_wf(&self) -> bool {
        match self {
            GenericSignature::MultiSignature(m) => m.au_wf(),
            GenericSignature::Signature(s) => s.au_wf(),
        }
    }

    open spec fn verify_model(&self, msg: Seq<u8>, author: Seq<u8>) -> Result<(), VerifyError> {
        match self {
            GenericSignature::MultiSignature(m) => m.verify_model(msg, author),
            GenericSignature::Signature(s) => s.verify_model(msg, author),
        }
    }

    fn verify_secure_generic(&self, value: &Vec<u8>, author: &Identity) -> (r: Result<
        (),
        VerifyError,
    >) {
        match self {
            GenericSignature::MultiSignature(m) => m.verify_secure_generic(value, author),
            GenericSignature::Signature(s) => s.verify_secure_generic(value, author),
        }
    }
}


/// A strictly ascending chain of adjacent comparisons orders every pair.
proof fn lemma_adjacent_sorted_chain(s: Seq<u32>, i: int, j: int)
    requires
        forall|q: int| 1 <= q < s.len() ==> s[q - 1] < #[trigger] s[q],
        0 <= i < j < s.len(),
    ensures
        s[i] < s[j],
    decreases j - i,
{
    if j > i + 1 {
        lemma_adjacent_sorted_chain(s, i, j - 1);
    }
}

/// Exec equality of compressed signatures, matching their views.
fn sig_eq(a: &CompressedSignature, b: &CompressedSignature) -> (r: bool)
    ensures
        r == (a@ == b@),
{
    let r = match (a, b) {
        (CompressedSignature::Ed25519(x), CompressedSignature::Ed25519(y)) => bytes_eq(x, y),
        (CompressedSignature::Secp256k1(x), CompressedSignature::Secp256k1(y)) => bytes_eq(x, y),
        (CompressedSignature::Secp256r1(x), CompressedSignature::Secp256r1(y)) => bytes_eq(x, y),
        (CompressedSignature::BLS12381(x), CompressedSignature::BLS12381(y)) => bytes_eq(x, y),
        _ => false,
    };
    proof {
        if a@.scheme == b@.scheme && a@.bytes == b@.bytes {
            assert(a@ =~= b@);
        }
    }
    r
}

impl MultiSignature {
    /// The canonical binary encoding of this aggregate authorization;
    /// decoding it yields this value back (the round-trip law).
    pub fn encode(&self) -> (r: Vec<u8>)
        ensures
            r@ == multisig_bytes(self@),
            self@.wf() ==> dec_multisig(r@) == Some(self@),
    {
        let mut out: Vec<u8> = Vec::new();
        push_u64(&mut out, self.sigs.len() as u64);
        let ghost h1 = out@;
        let mut i: usize = 0;
        while i < self.sigs.len()
            invariant
                i <= self.sigs.len(),
                h1 == enc_u64(self.sigs@.len() as u64),
                self@.sigs.len() == self.sigs@.len(),
                self@.sigs == self.sigs@.map_values(|s: CompressedSignature| s@),
                out@ == h1 + enc_sigs(self@.sigs, i as int),
            decreases self.sigs.len() - i,
        {
            push_sig(&mut out, &self.sigs[i]);
            proof {
                assert(self@.sigs[i as int] == self.sigs@[i as int]@);
                assert(out@ =~= h1 + enc_sigs(self@.sigs, i as int + 1));
            }
            i = i + 1;
        }
        let idx = bitmap_to_vec(&self.bitmap);
        push_u64(&mut out, idx.len() as u64);
        let ghost h2 = out@;
        let mut j: usize = 0;
        while j < idx.len()
            invariant
                j <= idx.len(),
                idx@ == self@.indices,
                out@ == h2 + enc_indices(self@.indices, j as int),
            decreases idx.len() - j,
        {
            push_u32(&mut out, idx[j]);
            proof {
                assert(out@ =~= h2 + enc_indices(self@.indices, j as int + 1));
            }
            j = j + 1;
        }
        let cb = crate::codec::encode_committee(&self.multi_pk);
        let ghost h3 = out@;
        let mut t: usize = 0;
        while t < cb.len()
            invariant
                t <= cb.len(),
                cb@ == committee_bytes(self@.multi_pk),
                out@ == h3 + cb@.take(t as int),
            decreases cb.len() - t,
        {
            out.push(cb[t]);
            proof {
                assert(out@ =~= h3 + cb@.take(t as int + 1));
            }
            t = t + 1;
        }
        proof {
            assert(cb@.take(cb@.len() as int) =~= cb@);
            assert(out@ =~= multisig_bytes(self@));
            if self@.wf() {
                assert forall|k: int| 0 <= k < self@.sigs.len() implies (
                #[trigger] self@.sigs[k]).bytes.len() <= u64::MAX by {
                    let cs = self.sigs@[k];
                    assert(self@.sigs[k] == cs@);
                    match cs {
                        CompressedSignature::Ed25519(b) => {
                            vstd::std_specs::vec::axiom_spec_len(&b);
                        },
                        CompressedSignature::Secp256k1(b) => {
                            vstd::std_specs::vec::axiom_spec_len(&b);
                        },
                        CompressedSignature::Secp256r1(b) => {
                            vstd::std_specs::vec::axiom_spec_len(&b);
                        },
                        CompressedSignature::BLS12381(b) => {
                            vstd::std_specs::vec::axiom_spec_len(&b);
                        },
                    }
                }
                assert forall|k: int| 0 <= k < self@.multi_pk.pks.len() implies (
                #[trigger] self@.multi_pk.pks[k]).bytes.len() <= u64::MAX by {
                    let pk = self.multi_pk.pks@[k];
                    assert(self@.multi_pk.pks[k] == pk@);
                    vstd::std_specs::vec::axiom_spec_len(&pk.bytes);
                }
                vstd::std_specs::vec::axiom_spec_len(&self.sigs);
                vstd::std_specs::vec::axiom_spec_len(&self.multi_pk.pks);
                crate::codec::lemma_round_trip(self@);
            }
        }
        out
    }

    /// Whether two aggregate authorizations are structurally equal over all
    /// three fields: signatures, member indices and committee.
    pub fn equals(&self, other: &Self) -> (r: bool)
        ensures
            r == (self@ == other@),
    {
        if self.sigs.len() != other.sigs.len() {
            proof {
                assert(self@.sigs.len() != other@.sigs.len());
            }
            return false;
        }
        let mut i: usize = 0;
        while i < self.sigs.len()
            invariant
                i <= self.sigs.len(),
                self.sigs@.len() == other.sigs@.len(),
                forall|k: int| 0 <= k < i ==> self@.sigs[k] == other@.sigs[k],
            decreases self.sigs.len() - i,
        {
            proof {
                assert(self@.sigs[i as int] == self.sigs@[i as int]@);
                assert(other@.sigs[i as int] == other.sigs@[i as int]@);
            }
            if !sig_eq(&self.sigs[i], &other.sigs[i]) {
                proof {
                    assert(self@.sigs[i as int] != other@.sigs[i as int]);
                }
                return false;
            }
            i = i + 1;
        }
        proof {
            assert(self@.sigs =~= other@.sigs);
        }
        let a_idx = bitmap_to_vec(&self.bitmap);
        let b_idx = bitmap_to_vec(&other.bitmap);
        if a_idx.len() != b_idx.len() {
            proof {
                assert(self@.indices.len() != other@.indices.len());
            }
            return false;
        }
        let mut j: usize = 0;
        while j < a_idx.len()
            invariant
                j <= a_idx.len(),
                a_idx@ == self@.indices,
                b_idx@ == other@.indices,
                a_idx@.len() == b_idx@.len(),
                forall|k: int| 0 <= k < j ==> a_idx@[k] == b_idx@[k],
            decreases a_idx.len() - j,
        {
            if a_idx[j] != b_idx[j] {
                proof {
                    assert(self@.indices[j as int] != other@.indices[j as int]);
                }
                return false;
            }
            j = j + 1;
        }
        proof {
            assert(self@.indices =~= other@.indices);
        }
        if self.multi_pk.threshold != other.multi_pk.threshold {
            return false;
        }
        if self.multi_pk.pks.len() != other.multi_pk.pks.len() {
            proof {
                assert(self@.multi_pk.pks.len() != other@.multi_pk.pks.len());
            }
            return false;
        }
        let mut t: usize = 0;
        while t < self.multi_pk.pks.len()
            invariant
                t <= self.multi_pk.pks.len(),
                self.multi_pk.pks@.len() == other.multi_pk.pks@.len(),
                forall|k: int| 0 <= k < t ==> self@.multi_pk.pks[k] == other@.multi_pk.pks[k],
            decreases self.multi_pk.pks.len() - t,
        {
            proof {
                assert(self@.multi_pk.pks[t as int] == self.multi_pk.pks@[t as int]@);
                assert(other@.multi_pk.pks[t as int] == other.multi_pk.pks@[t as int]@);
            }
            if !crate::committee::pk_eq(&self.multi_pk.pks[t], &other.multi_pk.pks[t]) {
                proof {
                    assert(self@.multi_pk.pks[t as int] != other@.multi_pk.pks[t as int]);
                }
                return false;
            }
            t = t + 1;
        }
        proof {
            assert(self@.multi_pk.pks =~= other@.multi_pk.pks);
            assert(self@.multi_pk =~= other@.multi_pk);
            assert(self@ =~~= other@);
        }
        true
    }
}


impl MultiSignature {
    /// Decodes an aggregate authorization from its canonical binary
    /// encoding. Enforces on the way in what the format owes: counts that
    /// agree, strictly ascending member indices, a representable threshold,
    /// and no trailing input. An out-of-range member index is not rejected
    /// here: verification returns `MalformedAuthorization` for it.
    #[verifier::rlimit(100)]
    pub fn decode(bytes: &Vec<u8>) -> (r: Option<MultiSignature>)
        ensures
            match r {
                Some(ms) => dec_multisig(bytes@) == Some(ms@) && ms@.wf(),
                None => dec_multisig(bytes@) is None,
            },
    {
        proof {
            assert(bytes@.skip(0) =~= bytes@);
        }
        let (nsig, p1) = match read_u64(bytes, 0) {
            None => {
                return None;
            },
            Some(v) => v,
        };
        let mut sigs: Vec<CompressedSignature> = Vec::new();
        let mut p: usize = p1;
        let mut i: u64 = 0;
        while i < nsig
            invariant
                i <= nsig,
                p <= bytes@.len(),
                sigs@.len() == i,
                take_u64(bytes@) == Some((nsig, bytes@.skip(p1 as int))),
                take_sigs(bytes@.skip(p1 as int), nsig as int) == (match take_sigs(
                    bytes@.skip(p as int),
                    (nsig - i) as int,
                ) {
                    None => None::<(Seq<crate::crypto::SigView>, Seq<u8>)>,
                    Some(t) => Some(
                        (sigs@.map_values(|s: CompressedSignature| s@) + t.0, t.1),
                    ),
                }),
            decreases nsig - i,
        {
            match read_sig(bytes, p) {
                None => {
                    return None;
                },
                Some((cs, p2)) => {
                    let ghost presigs = sigs@;
                    let ghost m = (nsig - i) as int;
                    sigs.push(cs);
                    proof {
                        assert(sigs@ == presigs.push(cs));
                        assert(sigs@.map_values(|s: CompressedSignature| s@) =~= presigs.map_values(
                            |s: CompressedSignature| s@,
                        ).push(cs@));
                        if take_sigs(bytes@.skip(p2 as int), m - 1) is Some {
                            let u = take_sigs(bytes@.skip(p2 as int), m - 1)->Some_0;
                            assert(presigs.map_values(|s: CompressedSignature| s@) + (seq![cs@]
                                + u.0) =~= sigs@.map_values(|s: CompressedSignature| s@) + u.0);
                        }
                    }
                    p = p2;
                    i = i + 1;
                },
            }
        }
        proof {
            assert(take_sigs(bytes@.skip(p as int), 0) == Some(
                (Seq::<crate::crypto::SigView>::empty(), bytes@.skip(p as int)),
            ));
            assert(sigs@.map_values(|s: CompressedSignature| s@) + Seq::<
                crate::crypto::SigView,
            >::empty() =~= sigs@.map_values(|s: CompressedSignature| s@));
        }
        let ghost sig_views_g = sigs@.map_values(|s: CompressedSignature| s@);
        let ghost p_sigs = p as int;
        let (nidx, p3) = match read_u64(bytes, p) {
            None => {
                return None;
            },
            Some(v) => v,
        };
        if nidx != nsig {
            return None;
        }
        let mut idxv: Vec<u32> = Vec::new();
        let mut p: usize = p3;
        let mut i: u64 = 0;
        while i < nidx
            invariant
                i <= nidx,
                p <= bytes@.len(),
                idxv@.len() == i,
                take_u64(bytes@) == Some((nsig, bytes@.skip(p1 as int))),
                take_sigs(bytes@.skip(p1 as int), nsig as int) == Some(
                    (sig_views_g, bytes@.skip(p_sigs)),
                ),
                take_u64(bytes@.skip(p_sigs)) == Some((nidx, bytes@.skip(p3 as int))),
                nidx == nsig,
                sig_views_g == sigs@.map_values(|s: CompressedSignature| s@),
                sigs@.len() == nsig,
                take_indices(bytes@.skip(p3 as int), nidx as int) == (match take_indices(
                    bytes@.skip(p as int),
                    (nidx - i) as int,
                ) {
                    None => None::<(Seq<u32>, Seq<u8>)>,
                    Some(t) => Some((idxv@ + t.0, t.1)),
                }),
            decreases nidx - i,
        {
            match read_u32(bytes, p) {
                None => {
                    return None;
                },
                Some((x, p2)) => {
                    let ghost preidx = idxv@;
                    let ghost m = (nidx - i) as int;
                    idxv.push(x);
                    proof {
                        assert(idxv@ == preidx.push(x));
                        if take_indices(bytes@.skip(p2 as int), m - 1) is Some {
                            let u = take_indices(bytes@.skip(p2 as int), m - 1)->Some_0;
                            assert(preidx + (seq![x] + u.0) =~= idxv@ + u.0);
                        }
                    }
                    p = p2;
                    i = i + 1;
                },
            }
        }
        proof {
            assert(take_indices(bytes@.skip(p as int), 0) == Some(
                (Seq::<u32>::empty(), bytes@.skip(p as int)),
            ));
            assert(idxv@ + Seq::<u32>::empty() =~= idxv@);
        }
        let ghost p_idx = p as int;
        proof {
            assert(dec_multisig(bytes@) == (if !sorted_strict(idxv@) {
                None::<MultiSignatureView>
            } else {
                match take_committee(bytes@.skip(p_idx)) {
                    None => None::<MultiSignatureView>,
                    Some(t) => if t.1.len() == 0 && t.0.threshold <= usize::MAX {
                        Some(
                            MultiSignatureView {
                                sigs: sig_views_g,
                                indices: idxv@,
                                multi_pk: t.0,
                            },
                        )
                    } else {
                        None::<MultiSignatureView>
                    },
                }
            }));
        }
        let mut q: usize = 1;
        while q < idxv.len()
            invariant
                1 <= q <= idxv.len() || idxv.len() == 0,
                (!sorted_strict(idxv@) ==> dec_multisig(bytes@) is None),
                forall|k: int| 1 <= k < q ==> idxv@[k - 1] < #[trigger] idxv@[k],
            decreases idxv.len() - q,
        {
            if idxv[q - 1] >= idxv[q] {
                proof {
                    assert(!sorted_strict(idxv@)) by {
                        assert(idxv@[q as int - 1] >= idxv@[q as int]);
                    }
                }
                return None;
            }
            q = q + 1;
        }
        proof {
            assert(sorted_strict(idxv@)) by {
                assert forall|a: int, b: int| 0 <= a < b < idxv@.len() implies idxv@[a]
                    < idxv@[b] by {
                    lemma_adjacent_sorted_chain(idxv@, a, b);
                }
            }
        }
        let (npk, p5) = match read_u64(bytes, p) {
            None => {
                return None;
            },
            Some(v) => v,
        };
        let mut pksv: Vec<crate::crypto::PublicKey> = Vec::new();
        let mut p: usize = p5;
        let mut i: u64 = 0;
        while i < npk
            invariant
                i <= npk,
                p <= bytes@.len(),
                pksv@.len() == i,
                sig_views_g == sigs@.map_values(|s: CompressedSignature| s@),
                sigs@.len() == nsig,
                nidx == nsig,
                sorted_strict(idxv@),
                dec_multisig(bytes@) == (match take_committee(bytes@.skip(p_idx)) {
                    None => None::<MultiSignatureView>,
                    Some(t) => if t.1.len() == 0 && t.0.threshold <= usize::MAX {
                        Some(
                            MultiSignatureView {
                                sigs: sig_views_g,
                                indices: idxv@,
                                multi_pk: t.0,
                            },
                        )
                    } else {
                        None::<MultiSignatureView>
                    },
                }),
                take_u64(bytes@.skip(p_idx)) == Some((npk, bytes@.skip(p5 as int))),
                take_pks(bytes@.skip(p5 as int), npk as int) == (match take_pks(
                    bytes@.skip(p as int),
                    (npk - i) as int,
                ) {
                    None => None::<(Seq<PublicKeyView>, Seq<u8>)>,
                    Some(t) => Some(
                        (pksv@.map_values(|x: crate::crypto::PublicKey| x@) + t.0, t.1),
                    ),
                }),
            decreases npk - i,
        {
            match read_pk(bytes, p) {
                None => {
                    return None;
                },
                Some((pk, p2)) => {
                    let ghost prepks = pksv@;
                    let ghost m = (npk - i) as int;
                    pksv.push(pk);
                    proof {
                        assert(pksv@ == prepks.push(pk));
                        assert(pksv@.map_values(|x: crate::crypto::PublicKey| x@) =~= prepks
                            .map_values(|x: crate::crypto::PublicKey| x@).push(pk@));
                        if take_pks(bytes@.skip(p2 as int), m - 1) is Some {
                            let u = take_pks(bytes@.skip(p2 as int), m - 1)->Some_0;
                            assert(prepks.map_values(|x: crate::crypto::PublicKey| x@) + (seq![pk@]
                                + u.0) =~= pksv@.map_values(|x: crate::crypto::PublicKey| x@)
                                + u.0);
                        }
                    }
                    p = p2;
                    i = i + 1;
                },
            }
        }
        proof {
            assert(take_pks(bytes@.skip(p as int), 0) == Some(
                (Seq::<PublicKeyView>::empty(), bytes@.skip(p as int)),
            ));
            assert(pksv@.map_values(|x: crate::crypto::PublicKey| x@) + Seq::<
                PublicKeyView,
            >::empty() =~= pksv@.map_values(|x: crate::crypto::PublicKey| x@));
        }
        let (th, p7) = match read_u64(bytes, p) {
            None => {
                return None;
            },
            Some(v) => v,
        };
        if th > usize::MAX as u64 {
            return None;
        }
        if p7 != bytes.len() {
            proof {
                assert(bytes@.skip(p7 as int).len() != 0);
            }
            return None;
        }
        let ghost cview = MultiPublicKeyView {
            pks: pksv@.map_values(|x: crate::crypto::PublicKey| x@),
            threshold: th as int,
        };
        let ghost decoded = MultiSignatureView {
            sigs: sig_views_g,
            indices: idxv@,
            multi_pk: cview,
        };
        proof {
            assert(bytes@.skip(p7 as int).len() == 0);
            assert(take_committee(bytes@.skip(p_idx)) == Some((cview, bytes@.skip(p7 as int))));
            assert(dec_multisig(bytes@) == Some(decoded));
        }
        let mut bm = bitmap_new();
        let mut q: usize = 0;
        while q < idxv.len()
            invariant
                q <= idxv.len(),
                sorted_strict(idxv@),
                dec_multisig(bytes@) == Some(decoded),
                decoded.sigs == sigs@.map_values(|s: CompressedSignature| s@),
                decoded.indices == idxv@,
                decoded.multi_pk.pks == pksv@.map_values(|x: crate::crypto::PublicKey| x@),
                decoded.multi_pk.threshold == th as int,
                decoded.sigs.len() == decoded.indices.len(),
                bitmap_seq(bm) == idxv@.take(q as int),
            decreases idxv.len() - q,
        {
            let ghost old_bits = bitmap_seq(bm);
            let _ = bitmap_insert(&mut bm, idxv[q]);
            proof {
                assert(sorted_strict(old_bits)) by {
                    assert(forall|a: int, b: int|
                        0 <= a < b < old_bits.len() ==> old_bits[a] == idxv@[a] && old_bits[b]
                            == idxv@[b] && idxv@[a] < idxv@[b]);
                }
                assert forall|t: int| 0 <= t < old_bits.len() implies old_bits[t]
                    < idxv@[q as int] by {
                    assert(old_bits[t] == idxv@[t]);
                }
                lemma_insert_sorted_append(old_bits, idxv@[q as int]);
                assert(old_bits.push(idxv@[q as int]) =~= idxv@.take(q as int + 1));
            }
            q = q + 1;
        }
        proof {
            assert(idxv@.take(idxv@.len() as int) =~= idxv@);
        }
        let ms = MultiSignature {
            sigs,
            bitmap: bm,
            multi_pk: MultiPublicKey { pks: pksv, threshold: th as usize },
        };
        proof {
            assert(ms@ =~~= decoded);
            assert(ms@.wf());
        }
        Some(ms)
    }
}


impl PartialEq for MultiSignature {
    fn eq(&self, other: &Self) -> (r: bool) {
        self.equals(other)
    }
}

impl vstd::std_specs::cmp::PartialEqSpecImpl for MultiSignature {
    open spec fn obeys_eq_spec() -> bool {
        true
    }

    open spec fn eq_spec(&self, other: &Self) -> bool {
        self@ == other@
    }
}

impl Eq for MultiSignature {

}

} // verus!

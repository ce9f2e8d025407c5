use vstd::prelude::*;
use crate::committee::{lemma_pk_index_char, pk_found, pk_index};
use crate::crypto::{compress_spec, scheme_accepts, sig_pk, PublicKeyView, SignatureView, SigView};
use crate::errors::{CombineError, VerifyError};
use crate::multisig::{
    combine_scan, count_ok, identity_spec, indices_in_range, lemma_scan_none_distinct,
    member_check, paired_with_inputs, verify_spec, MultiSignatureView,
};

verus! {

/// When every one of the first `n` (index, signature) pairs passes its
/// member check, the success count is exactly `n`.
pub proof fn lemma_count_ok_all(
    pks: Seq<PublicKeyView>,
    msg: Seq<u8>,
    idx: Seq<u32>,
    sigs: Seq<SigView>,
    n: int,
)
    requires
        0 <= n,
        forall|j: int| 0 <= j < n ==> #[trigger] member_check(pks, msg, idx[j], sigs[j]),
    ensures
        count_ok(pks, msg, idx, sigs, n) == n,
    decreases n,
{
    if n > 0 {
        lemma_count_ok_all(pks, msg, idx, sigs, n - 1);
    }
}

/// Threshold correctness, success side: an aggregate whose stored indices
/// and signatures come from individually valid signatures of at least
/// `threshold` distinct committee members (as `combine`'s contract states of
/// its output) verifies successfully against the committee's own identity
/// and that message.
pub proof fn lemma_threshold_success(
    ms: MultiSignatureView,
    sv: Seq<SignatureView>,
    msg: Seq<u8>,
    author: Seq<u8>,
)
    requires
        ms.wf(),
        author == identity_spec(ms.multi_pk),
        ms.multi_pk.threshold <= sv.len(),
        ms.indices.len() == sv.len(),
        forall|k: int| 0 <= k < sv.len() ==> pk_found(ms.multi_pk.pks, #[trigger] sig_pk(sv[k])),
        forall|k: int|
            0 <= k < sv.len() ==> #[trigger] scheme_accepts(
                sv[k].scheme,
                sv[k].pk_bytes,
                msg,
                sv[k].sig_bytes,
            ),
        forall|x: u32|
            ms.indices.contains(x) <==> exists|k: int|
                0 <= k < sv.len() && #[trigger] pk_index(ms.multi_pk.pks, sig_pk(sv[k]))
                    == x as int,
        paired_with_inputs(ms, ms.multi_pk.pks, sv),
    ensures
        verify_spec(ms, msg, author) == Ok::<(), VerifyError>(()),
{
    let pks = ms.multi_pk.pks;
    assert forall|j: int| 0 <= j < ms.indices.len() implies #[trigger] member_check(
        pks,
        msg,
        ms.indices[j],
        ms.sigs[j],
    ) by {
        assert(ms.indices.contains(ms.indices[j]));
        let k = choose|k: int|
            0 <= k < sv.len() && #[trigger] pk_index(pks, sig_pk(sv[k])) == ms.indices[j] as int;
        lemma_pk_index_char(pks, sig_pk(sv[k]));
        assert(pks[pk_index(pks, sig_pk(sv[k]))] == sig_pk(sv[k]));
        assert(ms.sigs[j] == compress_spec(sv[k]));
        assert(pks[ms.indices[j] as int].scheme == sv[k].scheme);
        assert(pks[ms.indices[j] as int].bytes == sv[k].pk_bytes);
        assert(scheme_accepts(sv[k].scheme, sv[k].pk_bytes, msg, sv[k].sig_bytes));
    }
    assert(indices_in_range(ms.indices, pks.len() as int)) by {
        assert forall|j: int| 0 <= j < ms.indices.len() implies (ms.indices[j] as int)
            < pks.len() by {
            assert(member_check(pks, msg, ms.indices[j], ms.sigs[j]));
        }
    }
    lemma_count_ok_all(pks, msg, ms.indices, ms.sigs, ms.indices.len() as int);
}

/// Threshold correctness, failure side: an aggregate holding fewer
/// signatures than the committee's threshold fails verification with
/// `InsufficientSignatures`, whatever the message and claimed identity.
pub proof fn lemma_threshold_insufficient(ms: MultiSignatureView, msg: Seq<u8>, author: Seq<u8>)
    requires
        ms.sigs.len() < ms.multi_pk.threshold,
    ensures
        verify_spec(ms, msg, author) == Err::<(), VerifyError>(VerifyError::InsufficientSignatures),
{
}

/// Identity binding: once the count gate passes, a claimed identity other
/// than the committee's own fails verification with `IdentityMismatch`,
/// whatever the signatures are worth. (With too few signatures the count
/// gate fires first, with `InsufficientSignatures`.)
pub proof fn lemma_identity_binding(ms: MultiSignatureView, msg: Seq<u8>, author: Seq<u8>)
    requires
        ms.multi_pk.threshold <= ms.sigs.len(),
        author != identity_spec(ms.multi_pk),
    ensures
        verify_spec(ms, msg, author) == Err::<(), VerifyError>(VerifyError::IdentityMismatch),
{
}

/// Whenever every signer is found, the scan never reports `SignerNotFound`:
/// its only possible error is a duplicate signer.
pub proof fn lemma_scan_all_found(pks: Seq<PublicKeyView>, sv: Seq<SignatureView>, n: int)
    requires
        forall|k: int| 0 <= k < n ==> pk_found(pks, #[trigger] sig_pk(sv[k])),
    ensures
        combine_scan(pks, sv, n) is None || combine_scan(pks, sv, n) == Some(
            CombineError::DuplicateSigner,
        ),
    decreases n,
{
    if n > 0 {
        lemma_scan_all_found(pks, sv, n - 1);
    }
}

/// No silent loss: two input signatures resolving to the same committee
/// position make the combine scan end in `DuplicateSigner`, so `combine`
/// rejects them rather than collapsing them into one entry.
pub proof fn lemma_no_silent_loss(
    pks: Seq<PublicKeyView>,
    sv: Seq<SignatureView>,
    n: int,
    k1: int,
    k2: int,
)
    requires
        forall|k: int| 0 <= k < n ==> pk_found(pks, #[trigger] sig_pk(sv[k])),
        0 <= k1 < k2 < n,
        pk_index(pks, sig_pk(sv[k1])) == pk_index(pks, sig_pk(sv[k2])),
    ensures
        combine_scan(pks, sv, n) == Some(CombineError::DuplicateSigner),
{
    if combine_scan(pks, sv, n) is None {
        lemma_scan_none_distinct(pks, sv, n);
        assert(pk_index(pks, sig_pk(sv[k1])) != pk_index(pks, sig_pk(sv[k2])));
    }
    lemma_scan_all_found(pks, sv, n);
}

} // verus!

use vstd::prelude::*;
use crate::crypto::{PublicKey, PublicKeyView, bytes_eq};
use crate::errors::ConfigError;

verus! {

/// An ordered committee of member public keys plus a threshold: the
/// definition of one multisig identity.
#[derive(Clone, Debug)]
pub struct MultiPublicKey {
    pub pks: Vec<PublicKey>,
    pub threshold: usize,
}

/// Mathematical model of a [`MultiPublicKey`].
#[verifier::ext_equal]
pub ghost struct MultiPublicKeyView {
    pub pks: Seq<PublicKeyView>,
    pub threshold: int,
}

impl View for MultiPublicKey {
    type V = MultiPublicKeyView;

    open spec fn view(&self) -> MultiPublicKeyView {
        MultiPublicKeyView {
            pks: self.pks@.map_values(|p: PublicKey| p@),
            threshold: self.threshold as int,
        }
    }
}

impl MultiPublicKeyView {
    /// Committee invariant: at least one member, a threshold between one and
    /// the member count, and few enough members for 32-bit member indices.
    pub open spec fn wf(self) -> bool {
        &&& 1 <= self.threshold <= self.pks.len()
        &&& self.pks.len() <= u32::MAX
    }
}

/// Whether `pk` occurs in `pks`.
pub open spec fn pk_found(pks: Seq<PublicKeyView>, pk: PublicKeyView) -> bool
    decreases pks.len(),
{
    pks.len() > 0 && (pks[0] == pk || pk_found(pks.drop_first(), pk))
}

/// The position of the first occurrence of `pk` in `pks` (meaningful only
/// when `pk_found` holds).
pub open spec fn pk_index(pks: Seq<PublicKeyView>, pk: PublicKeyView) -> int
    decreases pks.len(),
{
    if pks.len() == 0 {
        0
    } else if pks[0] == pk {
        0
    } else {
        1 + pk_index(pks.drop_first(), pk)
    }
}

/// `pk_found` holds exactly when some position holds `pk`, and `pk_index`
/// is then the first such position.
pub proof fn lemma_pk_index_char(pks: Seq<PublicKeyView>, pk: PublicKeyView)
    ensures
        pk_found(pks, pk) <==> exists|j: int| 0 <= j < pks.len() && pks[j] == pk,
        pk_found(pks, pk) ==> {
            let i = pk_index(pks, pk);
            &&& 0 <= i < pks.len()
            &&& pks[i] == pk
            &&& forall|j: int| 0 <= j < i ==> pks[j] != pk
        },
    decreases pks.len(),
{
    if pks.len() == 0 {
    } else {
        let tail = pks.drop_first();
        lemma_pk_index_char(tail, pk);
        assert forall|j: int| 0 <= j < tail.len() && tail[j] == pk implies exists|k: int|
            0 <= k < pks.len() && pks[k] == pk by {
            assert(pks[j + 1] == tail[j]);
        }
        if pks[0] != pk && exists|j: int| 0 <= j < pks.len() && pks[j] == pk {
            let j = choose|j: int| 0 <= j < pks.len() && pks[j] == pk;
            assert(j != 0);
            assert(tail[j - 1] == pk);
        }
        if pk_found(pks, pk) && pks[0] != pk {
            let i = pk_index(pks, pk);
            assert(i == 1 + pk_index(tail, pk));
            assert forall|j: int| 0 <= j < i implies pks[j] != pk by {
                if j > 0 {
                    assert(tail[j - 1] == pks[j]);
                }
            }
            assert(pks[i] == tail[i - 1]);
        }
    }
}

/// Exec equality of public keys, matching spec-level equality of their views.
pub fn pk_eq(a: &PublicKey, b: &PublicKey) -> (r: bool)
    ensures
        r == (a@ == b@),
{
    let r = a.scheme == b.scheme && bytes_eq(&a.bytes, &b.bytes);
    proof {
        if a@.scheme == b@.scheme && a@.bytes == b@.bytes {
            assert(a@ =~= b@);
        }
    }
    r
}

impl MultiPublicKey {
    /// Builds a committee from an ordered member list and a threshold.
    ///
    /// Fails with a `ConfigError` unless the member list is non-empty, the
    /// threshold lies between one and the member count, and the member count
    /// fits a 32-bit member index.
    pub fn new(pks: Vec<PublicKey>, threshold: usize) -> (r: Result<MultiPublicKey, ConfigError>)
        ensures
            match r {
                Ok(m) => {
                    &&& m@.pks == pks@.map_values(|p: PublicKey| p@)
                    &&& m@.threshold == threshold as int
                    &&& m@.wf()
                },
                Err(ConfigError::EmptyMembership) => pks@.len() == 0,
                Err(ConfigError::ThresholdOutOfRange) => pks@.len() > 0 && (threshold < 1
                    || threshold > pks@.len()),
                Err(ConfigError::TooManyMembers) => 1 <= threshold <= pks@.len()
                    && pks@.len() > u32::MAX,
            },
    {
        if pks.len() == 0 {
            return Err(ConfigError::EmptyMembership);
        }
        if threshold < 1 || threshold > pks.len() {
            return Err(ConfigError::ThresholdOutOfRange);
        }
        if pks.len() > u32::MAX as usize {
            return Err(ConfigError::TooManyMembers);
        }
        Ok(MultiPublicKey { pks, threshold })
    }

    /// The position of the first member equal to `pk`, or `None` when no
    /// member equals it.
    pub fn get_index(&self, pk: PublicKey) -> (r: Option<u32>)
        requires
            self@.pks.len() <= u32::MAX,
        ensures
            match r {
                Some(i) => pk_found(self@.pks, pk@) && i as int == pk_index(self@.pks, pk@),
                None => !pk_found(self@.pks, pk@),
            },
    {
        let ghost pks = self@.pks;
        let mut i: usize = 0;
        while i < self.pks.len()
            invariant
                i <= self.pks.len(),
                pks == self@.pks,
                pks.len() == self.pks@.len(),
                pks.len() <= u32::MAX,
                forall|j: int| 0 <= j < i ==> pks[j] != pk@,
            decreases self.pks.len() - i,
        {
            proof {
                assert(pks[i as int] == self.pks@[i as int]@);
            }
            if pk_eq(&self.pks[i], &pk) {
                proof {
                    lemma_pk_index_char(pks, pk@);
                    assert(pks[i as int] == pk@);
                    let f = pk_index(pks, pk@);
                    assert(pk_found(pks, pk@));
                    assert(f == i as int) by {
                        if f < i as int {
                            assert(pks[f] == pk@);
                        }
                        if f > i as int {
                            assert(pks[i as int] != pk@);
                        }
                    }
                }
                return Some(i as u32);
            }
            i = i + 1;
        }
        proof {
            lemma_pk_index_char(pks, pk@);
        }
        None
    }
}

} // verus!

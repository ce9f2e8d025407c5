use vstd::prelude::*;

verus! {

/// Failure to construct a committee.
#[derive(Clone, Copy, Debug, PartialEq, Eq, Structural)]
pub enum ConfigError {
    /// The member list is empty.
    EmptyMembership,
    /// The threshold is zero or exceeds the number of members.
    ThresholdOutOfRange,
    /// The member list is too large for 32-bit member indices.
    TooManyMembers,
}

/// Failure to combine individual signatures into an aggregate authorization.
#[derive(Clone, Copy, Debug, PartialEq, Eq, Structural)]
pub enum CombineError {
    /// A signature's public key is not a member of the committee.
    SignerNotFound,
    /// Two input signatures resolve to the same committee member.
    DuplicateSigner,
}

/// Failure to verify an authorization against a message and a claimed identity.
#[derive(Clone, Copy, Debug, PartialEq, Eq, Structural)]
pub enum VerifyError {
    /// The committee-derived identity does not match the claimed identity.
    IdentityMismatch,
    /// Fewer successful member verifications than the threshold requires.
    InsufficientSignatures,
    /// The authorization is structurally invalid (e.g. an out-of-range
    /// member index); always a returned error, never a crash.
    MalformedAuthorization,
}

} // verus!

//! Error kinds shared by the whole engine, and the failure policy for the
//! validation pipeline.

use vstd::prelude::*;

verus! {

/// Every failure the engine can report.
///
/// Structural and parse failures (`MalformedJwt`, `InvalidEncoding`) mark a
/// malformed artifact and are never worth retrying; transport failures
/// (`ResolutionFailed`, `Timeout`, `Cancelled`) are retryable by the caller.
#[derive(Clone, Copy, Debug, PartialEq, Eq, Structural)]
pub enum Error {
    /// A JWT whose segments are not well-formed.
    MalformedJwt,
    /// No verification method matches the token's key reference, or the
    /// signature does not verify against the resolved public key.
    SignatureInvalid,
    /// The credential's issuer field differs from the issuer document's DID.
    IssuerMismatch,
    /// A credential subject does not stand in the required relationship to
    /// the designated holder.
    SubjectHolderRelationshipViolation,
    /// The credential's expiration timestamp lies in the past.
    CredentialExpired,
    /// The credential's issuance timestamp lies in the future.
    IssuanceDateInFuture,
    /// The revocation bitmap has the credential's index set.
    Revoked,
    /// The presentation's nonce differs from the expected challenge.
    ChallengeMismatch,
    /// The presentation's expiration timestamp lies in the past.
    PresentationExpired,
    /// No verification method with the requested fragment exists.
    MethodNotFound,
    /// No service with the requested fragment exists.
    ServiceNotFound,
    /// A verification method or service with the same fragment already exists.
    DuplicateFragment,
    /// The requested capability scope is not supported by the key type.
    InvalidScope,
    /// The key identifier is unknown to the key store.
    KeyNotFound,
    /// The key-type/algorithm pair is not implemented.
    UnsupportedAlgorithm,
    /// Key material could not be generated.
    KeyGenerationFailed,
    /// A serialized payload (revocation service, base64 segment) is corrupt.
    InvalidEncoding,
    /// A required credential field (id, issuer, subject, type) is absent.
    MissingRequiredField,
    /// A subject claim uses a reserved claim key.
    ReservedClaimName,
    /// The id or issuer is not a well-formed URI.
    InvalidUrl,
    /// A presentation was built with zero credentials under a policy that
    /// requires at least one.
    EmptyCredentialSet,
    /// The key store failed to produce a signature.
    SigningFailed,
    /// No document is published for the DID.
    NotFound,
    /// The resolution collaborator failed in transport or parsing.
    ResolutionFailed,
    /// A suspended external call timed out.
    Timeout,
    /// A suspended external call was cancelled.
    Cancelled,
}

impl Error {
    /// A short human-readable tag for the error, for callers that report.
    pub fn describe(&self) -> (r: &'static str)
    {
        match self {
            Error::MalformedJwt => "malformed JWT",
            Error::SignatureInvalid => "signature invalid",
            Error::IssuerMismatch => "issuer mismatch",
            Error::SubjectHolderRelationshipViolation => "subject-holder relationship violation",
            Error::CredentialExpired => "credential expired",
            Error::IssuanceDateInFuture => "issuance date in future",
            Error::Revoked => "credential revoked",
            Error::ChallengeMismatch => "challenge mismatch",
            Error::PresentationExpired => "presentation expired",
            Error::MethodNotFound => "verification method not found",
            Error::ServiceNotFound => "service not found",
            Error::DuplicateFragment => "duplicate fragment",
            Error::InvalidScope => "invalid method scope",
            Error::KeyNotFound => "key not found",
            Error::UnsupportedAlgorithm => "unsupported algorithm",
            Error::KeyGenerationFailed => "key generation failed",
            Error::InvalidEncoding => "invalid encoding",
            Error::MissingRequiredField => "missing required field",
            Error::ReservedClaimName => "reserved claim name",
            Error::InvalidUrl => "invalid URL",
            Error::EmptyCredentialSet => "empty credential set",
            Error::SigningFailed => "signing failed",
            Error::NotFound => "DID not found",
            Error::ResolutionFailed => "resolution failed",
            Error::Timeout => "timed out",
            Error::Cancelled => "cancelled",
        }
    }
}

/// Failure policy for the validation pipeline: stop at the first failing
/// check, or accumulate every failing check into a compound error.
#[derive(Clone, Copy, Debug, PartialEq, Eq, Structural)]
pub enum FailFast {
    /// Return only the first failing check.
    FirstError,
    /// Return every failing check, in pipeline order.
    AllErrors,
}

} // verus!

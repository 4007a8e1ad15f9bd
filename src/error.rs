use vstd::prelude::*;

verus! {

/// Failure reasons shared by the DKIM verifier and the DMARC evaluator.
#[derive(Debug, Clone, Copy, PartialEq, Eq, Structural)]
pub enum Error {
    ParseError,
    MissingParameters,
    UnsupportedVersion,
    UnsupportedAlgorithm,
    UnsupportedCanonicalization,
    UnsupportedKeyType,
    FailedBodyHashMatch,
    BodyLengthMismatch,
    FailedVerification,
    RevokedPublicKey,
    IncompatibleAlgorithms,
    SignatureExpired,
    FromHeaderMissing,
    DNSError,
    DNSRecordNotFound,
    InvalidRecordType,
    DMARCNotAligned,
}

} // verus!

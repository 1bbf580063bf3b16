//! The error taxonomy shared by the client pipeline and the server.

use vstd::prelude::*;

verus! {

/// Everything that can go wrong between a client's weight vector and the
/// server's global model.
#[derive(Clone, Copy, Debug, PartialEq, Eq, Structural)]
pub enum FlError {
    /// The privacy budget `epsilon` was not strictly positive.
    InvalidPrivacyBudget,
    /// The share count and threshold cannot describe a sharing.
    ShareCountError,
    /// The symmetric key is not a well-formed Fernet key.
    InvalidKey,
    /// A ciphertext was tampered with, or decrypted with the wrong key.
    DecryptionFailed,
    /// An update was trained against a model version the server has left.
    VersionConflict,
    /// The transport could not reach the server.
    NetworkUnreachable,
    /// An update's payload could not be decoded into a contribution.
    MalformedUpdate,
}

impl FlError {
    /// The HTTP-equivalent status code under which the error travels.
    pub open spec fn spec_status(self) -> u16 {
        match self {
            FlError::VersionConflict => 409,
            FlError::NetworkUnreachable => 503,
            FlError::MalformedUpdate => 422,
            _ => 400,
        }
    }

    /// The status code a transport should answer with for this error.
    #[verifier::when_used_as_spec(spec_status)]
    pub fn status(self) -> (code: u16)
        ensures
            code == self.spec_status(),
    {
        match self {
            FlError::VersionConflict => 409,
            FlError::NetworkUnreachable => 503,
            FlError::MalformedUpdate => 422,
            _ => 400,
        }
    }
}

} // verus!

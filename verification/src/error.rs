use crate::field::FieldError;
use vstd::prelude::*;
use vstd::string::StringExecFns;

verus! {

/// Failure categories of the commitment scheme.
#[derive(Debug)]
pub enum CryptoError {
    FieldError(FieldError),
    InvalidParameters(String),
    VerificationError(String),
    EncodingError(String),
    DecodingError(String),
    ProofError(String),
    SystemError(String),
}

impl CryptoError {
    /// The text that `message` puts before the detail.
    pub open spec fn prefix(self) -> Seq<char> {
        match self {
            CryptoError::FieldError(_) => "Field arithmetic error: "@,
            CryptoError::InvalidParameters(_) => "Invalid parameters: "@,
            CryptoError::VerificationError(_) => "Protocol verification failed: "@,
            CryptoError::EncodingError(_) => "Encoding error: "@,
            CryptoError::DecodingError(_) => "Decoding error: "@,
            CryptoError::ProofError(_) => "Proof generation failed: "@,
            CryptoError::SystemError(_) => "System error: "@,
        }
    }

    /// The detail that the error carries.
    pub open spec fn detail(self) -> Seq<char> {
        match self {
            CryptoError::FieldError(e) => e.text(),
            CryptoError::InvalidParameters(s) => s@,
            CryptoError::VerificationError(s) => s@,
            CryptoError::EncodingError(s) => s@,
            CryptoError::DecodingError(s) => s@,
            CryptoError::ProofError(s) => s@,
            CryptoError::SystemError(s) => s@,
        }
    }

    /// The error in words: its category, then its detail.
    pub fn message(&self) -> (r: String)
        ensures
            r@ == self.prefix() + self.detail(),
    {
        match self {
            CryptoError::FieldError(e) => {
                let detail = e.message();
                String::from_str("Field arithmetic error: ").concat(detail.as_str())
            },
            CryptoError::InvalidParameters(s) => String::from_str("Invalid parameters: ").concat(
                s.as_str(),
            ),
            CryptoError::VerificationError(s) => String::from_str(
                "Protocol verification failed: ",
            ).concat(s.as_str()),
            CryptoError::EncodingError(s) => String::from_str("Encoding error: ").concat(
                s.as_str(),
            ),
            CryptoError::DecodingError(s) => String::from_str("Decoding error: ").concat(
                s.as_str(),
            ),
            CryptoError::ProofError(s) => String::from_str("Proof generation failed: ").concat(
                s.as_str(),
            ),
            CryptoError::SystemError(s) => String::from_str("System error: ").concat(s.as_str()),
        }
    }
}

impl From<FieldError> for CryptoError {
    fn from(e: FieldError) -> (r: Self) {
        CryptoError::FieldError(e)
    }
}

impl vstd::std_specs::convert::FromSpecImpl<FieldError> for CryptoError {
    open spec fn obeys_from_spec() -> bool {
        true
    }

    open spec fn from_spec(e: FieldError) -> Self {
        CryptoError::FieldError(e)
    }
}

} // verus!

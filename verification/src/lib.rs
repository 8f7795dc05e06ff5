pub mod basefold;
pub mod error;
pub mod field;
pub mod merkle;
pub mod reed_muller;
pub mod residues;

pub use basefold::BasefoldProtocol;
pub use error::CryptoError;
pub use field::FieldElement;
pub use reed_muller::ReedMullerCode;

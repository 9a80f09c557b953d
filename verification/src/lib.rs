//! Domain entities for an anonymous-credential issuance protocol:
//! decentralized identifiers with qualified/unqualified forms, structural
//! validation, versioned schema construction, credential requests, and a
//! canonical JSON wire codec.

pub mod error;
pub mod strutil;
pub mod validation;
pub mod ident;
pub mod schema;
pub mod request;
pub mod jsontext;
pub mod codec;

pub use error::Error;

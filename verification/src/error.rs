//! Error kinds reported by the domain layer.
//!
//! `Format` covers malformed identifier strings and unparseable or
//! non-canonical wire payloads (including an unknown schema version tag).
//! `Validation` reports a structural invariant violated on an otherwise
//! well-formed value, naming the offending entity and field.
//! `Build` reports a construction-time precondition violated.

use vstd::prelude::*;

verus! {

#[derive(Debug, Clone, PartialEq, Eq)]
pub enum Error {
    Format { reason: String },
    Validation { entity: String, field: String, reason: String },
    Build { reason: String },
}

impl Error {
    pub open spec fn is_format(&self) -> bool {
        matches!(self, Error::Format { .. })
    }

    pub open spec fn is_validation(&self) -> bool {
        matches!(self, Error::Validation { .. })
    }

    pub open spec fn is_build(&self) -> bool {
        matches!(self, Error::Build { .. })
    }
}

} // verus!

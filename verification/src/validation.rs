//! The validation capability shared by every domain entity.
//!
//! An entity is trusted as input to a protocol step only after `validate`
//! succeeds. Validation is side-effect-free and idempotent; composite
//! entities validate each owned sub-identifier in a fixed order and
//! short-circuit on the first failure.

use vstd::prelude::*;

use crate::error::Error;

verus! {

pub trait Validatable {
    /// The structural invariant the entity must satisfy to be trusted.
    spec fn valid(&self) -> bool;

    /// The entity, field, and reason that an invalid value is reported
    /// with: the report of the first failing check, in the entity's fixed
    /// validation order. Meaningless when the value is valid.
    spec fn failure(&self) -> (Seq<char>, Seq<char>, Seq<char>);

    /// Checks the structural invariant. A failure names the offending
    /// entity and field, and is the report of the first failing check, so
    /// error messages are reproducible.
    fn validate(&self) -> (r: Result<(), Error>)
        ensures
            r is Ok <==> self.valid(),
            r matches Err(e) ==> (e matches Error::Validation { entity, field, reason }
                && entity@ == self.failure().0 && field@ == self.failure().1 && reason@
                == self.failure().2),
    ;
}

} // verus!

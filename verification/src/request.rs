//! Credential requests and the requester-side metadata kept to unblind an
//! issued credential.
//!
//! The cryptographic artifacts a request carries — the blinded secret
//! commitment, its correctness proof, the nonce, and the blinding factors —
//! are produced by the proof library and are opaque here: this layer only
//! stores them, passes them through, and serializes them, never inspecting
//! their contents.

use vstd::prelude::*;

use crate::error::Error;
use crate::ident::{creddef_kind, did_kind, unq, CredentialDefinitionId, DidValue};
use crate::validation::Validatable;

verus! {

/// An opaque, externally produced cryptographic value, carried as its
/// serialized text.
#[derive(Debug, Clone, PartialEq, Eq)]
pub struct OpaqueValue(pub String);

impl View for OpaqueValue {
    type V = Seq<char>;

    open spec fn view(&self) -> Seq<char> {
        self.0@
    }
}

/// A holder's request to an issuer: prover identity, the credential
/// definition referenced, and the opaque commitment material.
#[derive(Debug, Clone, PartialEq, Eq)]
pub struct CredentialRequest {
    pub prover_did: DidValue,
    pub cred_def_id: CredentialDefinitionId,
    pub blinded_ms: OpaqueValue,
    pub blinded_ms_correctness_proof: OpaqueValue,
    pub nonce: OpaqueValue,
}

/// The private counterpart of a request, held by the requester only and
/// never transmitted.
#[derive(Debug, Clone, PartialEq, Eq)]
pub struct CredentialRequestMetadata {
    pub master_secret_blinding_data: OpaqueValue,
    pub nonce: OpaqueValue,
    pub master_secret_name: String,
}

impl CredentialRequest {
    /// A new request whose two identifiers are unqualified; the commitment,
    /// its correctness proof, and the nonce are passed through unchanged.
    pub fn to_unqualified(self) -> (r: CredentialRequest)
        ensures
            r.prover_did@ == unq(did_kind(), self.prover_did@),
            r.cred_def_id@ == unq(creddef_kind(), self.cred_def_id@),
            r.blinded_ms == self.blinded_ms,
            r.blinded_ms_correctness_proof == self.blinded_ms_correctness_proof,
            r.nonce == self.nonce,
    {
        CredentialRequest {
            prover_did: self.prover_did.to_unqualified(),
            cred_def_id: self.cred_def_id.to_unqualified(),
            blinded_ms: self.blinded_ms,
            blinded_ms_correctness_proof: self.blinded_ms_correctness_proof,
            nonce: self.nonce,
        }
    }
}

impl Validatable for CredentialRequest {
    /// Both identifiers are well-formed; the opaque cryptographic fields
    /// are accepted as they are.
    open spec fn valid(&self) -> bool {
        self.cred_def_id.valid() && self.prover_did.valid()
    }

    /// The credential-definition identifier is checked before the prover
    /// identifier; the first failure is reported.
    open spec fn failure(&self) -> (Seq<char>, Seq<char>, Seq<char>) {
        if !self.cred_def_id.valid() {
            self.cred_def_id.failure()
        } else {
            self.prover_did.failure()
        }
    }

    fn validate(&self) -> (r: Result<(), Error>)
        ensures
            r is Ok <==> self.valid(),
            r matches Err(e) ==> (e matches Error::Validation { entity, field, reason }
                && entity@ == self.failure().0 && field@ == self.failure().1 && reason@
                == self.failure().2),
    {
        match self.cred_def_id.validate() {
            Err(e) => {
                return Err(e);
            },
            Ok(_) => {},
        }
        match self.prover_did.validate() {
            Err(e) => {
                return Err(e);
            },
            Ok(_) => {},
        }
        Ok(())
    }
}

impl Validatable for CredentialRequestMetadata {
    /// The metadata has no structural invariants of its own.
    open spec fn valid(&self) -> bool {
        true
    }

    /// Never reported: the metadata is always valid.
    open spec fn failure(&self) -> (Seq<char>, Seq<char>, Seq<char>) {
        ("CredentialRequestMetadata"@, ""@, ""@)
    }

    fn validate(&self) -> (r: Result<(), Error>)
        ensures
            r is Ok <==> self.valid(),
            r matches Err(e) ==> (e matches Error::Validation { entity, field, reason }
                && entity@ == self.failure().0 && field@ == self.failure().1 && reason@
                == self.failure().2),
    {
        Ok(())
    }
}

} // verus!

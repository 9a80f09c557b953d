//! Canonical JSON wire interchange for the domain entities.
//!
//! Each entity encodes to one canonical JSON object whose field names equal
//! the entity's attribute names; text fields are escaped so quotes and
//! backslashes survive the wire. The canonical escape covers exactly those
//! two structural characters: every other character stands for itself.
//! The schema object is tagged with its version so future shapes can
//! coexist; an unknown tag is rejected rather than defaulted. Decoding
//! accepts exactly the canonical form and is loss-free: decoding the
//! encoding of any entity returns a value equal to the original.

use vstd::prelude::*;

use crate::error::Error;
use crate::jsontext::{
    append_json_str, append_str_list, append_u32, dec_rep, enc_list, enc_str, is_digit,
    lemma_subrange_join, lemma_subrange_split, list_at, num_at, parse_lit, parse_list,
    parse_string, parse_u32, str_at,
};
use crate::ident::{CredentialDefinitionId, DidValue};
use crate::request::{CredentialRequest, CredentialRequestMetadata, OpaqueValue};
use crate::schema::{AttributeNames, Schema, SchemaId, SchemaV1};
use crate::strutil::{all_distinct, str_eq};

verus! {

/// The canonical encoding of an optional sequence number.
pub open spec fn enc_opt_u32(o: Option<u32>) -> Seq<char> {
    match o {
        None => "null"@,
        Some(m) => dec_rep(m as nat),
    }
}

/// The canonical JSON encoding of the current schema shape, tagged with
/// version `1`.
pub open spec fn enc_schema(v: SchemaV1) -> Seq<char> {
    "{\"ver\":"@ + enc_str("1"@) + ",\"id\":"@ + enc_str(v.id@) + ",\"name\":"@ + enc_str(v.name@)
        + ",\"version\":"@ + enc_str(v.version@) + ",\"attrNames\":"@ + enc_list(v.attr_names@)
        + ",\"seqNo\":"@ + enc_opt_u32(v.seq_no) + "}"@
}

/// Where each field of a schema encoding stands inside `gs`.
spec fn schema_fields_at(gs: Seq<char>, v: SchemaV1) -> bool {
    let a0 = "{\"ver\":"@.len() as int;
    let a1 = a0 + enc_str("1"@).len();
    let a2 = a1 + ",\"id\":"@.len();
    let a3 = a2 + enc_str(v.id@).len();
    let a4 = a3 + ",\"name\":"@.len();
    let a5 = a4 + enc_str(v.name@).len();
    let a6 = a5 + ",\"version\":"@.len();
    let a7 = a6 + enc_str(v.version@).len();
    let a8 = a7 + ",\"attrNames\":"@.len();
    let a9 = a8 + enc_list(v.attr_names@).len();
    let a10 = a9 + ",\"seqNo\":"@.len();
    let a11 = a10 + enc_opt_u32(v.seq_no).len();
    gs.len() == a11 + "}"@.len() && gs.subrange(0, a0) == "{\"ver\":"@ && str_at(gs, a0, "1"@, a1)
        && gs.subrange(a1, a2) == ",\"id\":"@ && str_at(gs, a2, v.id@, a3) && gs.subrange(a3, a4)
        == ",\"name\":"@ && str_at(gs, a4, v.name@, a5) && gs.subrange(a5, a6) == ",\"version\":"@
        && str_at(gs, a6, v.version@, a7) && gs.subrange(a7, a8) == ",\"attrNames\":"@ && list_at(
        gs,
        a8,
        v.attr_names@,
        a9,
    ) && gs.subrange(a9, a10) == ",\"seqNo\":"@ && (v.seq_no is None ==> gs.subrange(a10, a11)
        == "null"@) && (v.seq_no matches Some(m) ==> num_at(gs, a10, m, a11)) && gs.subrange(
        a11,
        gs.len() as int,
    ) == "}"@
}

/// A schema encoding decomposes into its fields.
#[verifier::rlimit(100)]
proof fn lemma_schema_fields(gs: Seq<char>, v: SchemaV1)
    requires
        gs == enc_schema(v),
    ensures
        schema_fields_at(gs, v),
{
    let x1 = "{\"ver\":"@;
    let x2 = enc_str("1"@);
    let x3 = ",\"id\":"@;
    let x4 = enc_str(v.id@);
    let x5 = ",\"name\":"@;
    let x6 = enc_str(v.name@);
    let x7 = ",\"version\":"@;
    let x8 = enc_str(v.version@);
    let x9 = ",\"attrNames\":"@;
    let x10 = enc_list(v.attr_names@);
    let x11 = ",\"seqNo\":"@;
    let x12 = enc_opt_u32(v.seq_no);
    let x13 = "}"@;
    let r12 = x13;
    let r11 = x12 + r12;
    let r10 = x11 + r11;
    let r9 = x10 + r10;
    let r8 = x9 + r9;
    let r7 = x8 + r8;
    let r6 = x7 + r7;
    let r5 = x6 + r6;
    let r4 = x5 + r5;
    let r3 = x4 + r4;
    let r2 = x3 + r3;
    let r1 = x2 + r2;
    assert(gs.subrange(0, gs.len() as int) =~= x1 + r1);
    lemma_subrange_split(gs, 0, x1, r1);
    let a0 = x1.len() as int;
    assert(gs.subrange(a0, gs.len() as int) =~= x2 + r2);
    lemma_subrange_split(gs, a0, x2, r2);
    let a1 = a0 + x2.len();
    assert(gs.subrange(a1, gs.len() as int) =~= x3 + r3);
    lemma_subrange_split(gs, a1, x3, r3);
    let a2 = a1 + x3.len();
    assert(gs.subrange(a2, gs.len() as int) =~= x4 + r4);
    lemma_subrange_split(gs, a2, x4, r4);
    let a3 = a2 + x4.len();
    assert(gs.subrange(a3, gs.len() as int) =~= x5 + r5);
    lemma_subrange_split(gs, a3, x5, r5);
    let a4 = a3 + x5.len();
    assert(gs.subrange(a4, gs.len() as int) =~= x6 + r6);
    lemma_subrange_split(gs, a4, x6, r6);
    let a5 = a4 + x6.len();
    assert(gs.subrange(a5, gs.len() as int) =~= x7 + r7);
    lemma_subrange_split(gs, a5, x7, r7);
    let a6 = a5 + x7.len();
    assert(gs.subrange(a6, gs.len() as int) =~= x8 + r8);
    lemma_subrange_split(gs, a6, x8, r8);
    let a7 = a6 + x8.len();
    assert(gs.subrange(a7, gs.len() as int) =~= x9 + r9);
    lemma_subrange_split(gs, a7, x9, r9);
    let a8 = a7 + x9.len();
    assert(gs.subrange(a8, gs.len() as int) =~= x10 + r10);
    lemma_subrange_split(gs, a8, x10, r10);
    let a9 = a8 + x10.len();
    assert(gs.subrange(a9, gs.len() as int) =~= x11 + r11);
    lemma_subrange_split(gs, a9, x11, r11);
    let a10 = a9 + x11.len();
    assert(gs.subrange(a10, gs.len() as int) =~= x12 + r12);
    lemma_subrange_split(gs, a10, x12, r12);
    let a11 = a10 + x12.len();
    assert(gs.subrange(a11, gs.len() as int) == x13);
    assert(str_at(gs, a0, "1"@, a1));
    assert(str_at(gs, a2, v.id@, a3));
    assert(str_at(gs, a4, v.name@, a5));
    assert(str_at(gs, a6, v.version@, a7));
    assert(list_at(gs, a8, v.attr_names@, a9));
    match v.seq_no {
        Some(m) => {
            reveal_strlit("}");
            assert(gs[a11] == gs.subrange(a11, gs.len() as int)[0]);
            assert(gs[a11] == '}');
            assert(num_at(gs, a10, m, a11));
        },
        None => {},
    }
}

fn format_err() -> (r: Error)
    ensures
        r.is_format(),
{
    Error::Format { reason: String::from_str("payload is not a canonical encoding") }
}

impl Schema {
    /// The canonical JSON text of this schema.
    pub fn to_json(&self) -> (r: String)
        ensures
            r@ == enc_schema(self.v1()),
    {
        match self {
            Schema::SchemaV1(v) => {
                let mut out: String = String::new();
                out.append("{\"ver\":");
                append_json_str(&mut out, "1");
                out.append(",\"id\":");
                append_json_str(&mut out, v.id.0.as_str());
                out.append(",\"name\":");
                append_json_str(&mut out, v.name.as_str());
                out.append(",\"version\":");
                append_json_str(&mut out, v.version.as_str());
                out.append(",\"attrNames\":");
                let names: Vec<String> = v.attr_names.to_vec();
                append_str_list(&mut out, &names);
                out.append(",\"seqNo\":");
                match v.seq_no {
                    None => {
                        out.append("null");
                    },
                    Some(m) => {
                        append_u32(&mut out, m);
                    },
                }
                out.append("}");
                proof {
                    assert(out@ =~= enc_schema(self.v1()));
                }
                out
            },
        }
    }

    /// Decodes the canonical JSON text of a schema. Exact for the canonical
    /// form: the encoding of any schema decodes to a schema with the same
    /// identifier, name, version, attribute names, and sequence number;
    /// every failure is a format error; and a payload tagged with a version
    /// other than `1` is refused.
    #[verifier::rlimit(100)]
    pub fn from_json(s: &str) -> (r: Result<Schema, Error>)
        ensures
            r matches Ok(w) ==> s@ == enc_schema(w.v1()) && w.v1().attr_names.wf(),
            r matches Err(e) ==> e.is_format(),
            forall|v: SchemaV1|
                v.attr_names.wf() && s@ == #[trigger] enc_schema(v) ==> (r matches Ok(w)
                    && w.v1().id@ == v.id@ && w.v1().name@ == v.name@ && w.v1().version@
                    == v.version@ && w.v1().attr_names@ == v.attr_names@ && w.v1().seq_no
                    == v.seq_no),
            forall|t: Seq<char>, p: int|
                #[trigger] str_at(s@, "{\"ver\":"@.len() as int, t, p) && t != "1"@ && s@.subrange(
                    0,
                    "{\"ver\":"@.len() as int,
                ) == "{\"ver\":"@ ==> r is Err,
    {
        let ghost gs = s@;
        proof {
            assert forall|v: SchemaV1| gs == #[trigger] enc_schema(v) implies schema_fields_at(
                gs,
                v,
            ) by {
                lemma_schema_fields(gs, v);
            }
        }
        let n: usize = s.unicode_len();
        let p0 = match parse_lit(s, 0, "{\"ver\":") {
            Some(p) => p,
            None => {
                return Err(format_err());
            },
        };
        let (tag, p1) = match parse_string(s, p0) {
            Some(v) => v,
            None => {
                return Err(format_err());
            },
        };
        if !str_eq(tag.as_str(), "1") {
            return Err(
                Error::Format { reason: String::from_str("unrecognized schema version tag") },
            );
        }
        let p2 = match parse_lit(s, p1, ",\"id\":") {
            Some(p) => p,
            None => {
                return Err(format_err());
            },
        };
        let (idv, p3) = match parse_string(s, p2) {
            Some(v) => v,
            None => {
                return Err(format_err());
            },
        };
        let p4 = match parse_lit(s, p3, ",\"name\":") {
            Some(p) => p,
            None => {
                return Err(format_err());
            },
        };
        let (namev, p5) = match parse_string(s, p4) {
            Some(v) => v,
            None => {
                return Err(format_err());
            },
        };
        let p6 = match parse_lit(s, p5, ",\"version\":") {
            Some(p) => p,
            None => {
                return Err(format_err());
            },
        };
        let (verv, p7) = match parse_string(s, p6) {
            Some(v) => v,
            None => {
                return Err(format_err());
            },
        };
        let p8 = match parse_lit(s, p7, ",\"attrNames\":") {
            Some(p) => p,
            None => {
                return Err(format_err());
            },
        };
        let (attrs, p9) = match parse_list(s, p8) {
            Some(v) => v,
            None => {
                return Err(format_err());
            },
        };
        let p10 = match parse_lit(s, p9, ",\"seqNo\":") {
            Some(p) => p,
            None => {
                return Err(format_err());
            },
        };
        let (seq_no, p11): (Option<u32>, usize) = match parse_lit(s, p10, "null") {
            Some(p) => (None, p),
            None => {
                match parse_u32(s, p10) {
                    Some((m, p)) => (Some(m), p),
                    None => {
                        return Err(format_err());
                    },
                }
            },
        };
        proof {
            assert forall|v: SchemaV1|
                gs == #[trigger] enc_schema(v) implies seq_no == v.seq_no
                && p11 == p10 + enc_opt_u32(v.seq_no).len() by {
                reveal_strlit("null");
                match v.seq_no {
                    Some(m) => {
                        assert(num_at(gs, p10 as int, m, p10 + dec_rep(m as nat).len()));
                        crate::jsontext::lemma_dec_rep_shape(m as nat);
                        assert(gs[p10 as int] == dec_rep(m as nat)[0]) by {
                            assert(gs.subrange(p10 as int, p10 + dec_rep(m as nat).len())[0]
                                == dec_rep(m as nat)[0]);
                        }
                        assert(is_digit(gs[p10 as int]));
                        if seq_no is None {
                            assert(gs.subrange(p10 as int, p11 as int) == "null"@);
                            assert(gs[p10 as int] == 'n') by {
                                assert(gs.subrange(p10 as int, p11 as int)[0] == gs[p10 as int]);
                            }
                            assert(false);
                        }
                    },
                    None => {},
                }
            }
        }
        let p12 = match parse_lit(s, p11, "}") {
            Some(p) => p,
            None => {
                return Err(format_err());
            },
        };
        if p12 != n {
            return Err(format_err());
        }
        if !all_distinct(&attrs) {
            return Err(format_err());
        }
        let attr_names: AttributeNames = AttributeNames::from_vec(attrs);
        let built: SchemaV1 = SchemaV1 {
            id: SchemaId(idv),
            name: namev,
            version: verv,
            attr_names,
            seq_no,
        };
        proof {
            lemma_subrange_join(gs, 0, p0 as int, p1 as int);
            lemma_subrange_join(gs, 0, p1 as int, p2 as int);
            lemma_subrange_join(gs, 0, p2 as int, p3 as int);
            lemma_subrange_join(gs, 0, p3 as int, p4 as int);
            lemma_subrange_join(gs, 0, p4 as int, p5 as int);
            lemma_subrange_join(gs, 0, p5 as int, p6 as int);
            lemma_subrange_join(gs, 0, p6 as int, p7 as int);
            lemma_subrange_join(gs, 0, p7 as int, p8 as int);
            lemma_subrange_join(gs, 0, p8 as int, p9 as int);
            lemma_subrange_join(gs, 0, p9 as int, p10 as int);
            lemma_subrange_join(gs, 0, p10 as int, p11 as int);
            lemma_subrange_join(gs, 0, p11 as int, p12 as int);
            assert(gs.subrange(0, n as int) =~= gs);
            assert(gs =~= enc_schema(built));
        }
        Ok(Schema::SchemaV1(built))
    }
}

/// The canonical JSON encoding of a credential request.
pub open spec fn enc_request(c: CredentialRequest) -> Seq<char> {
    "{\"prover_did\":"@ + enc_str(c.prover_did@) + ",\"cred_def_id\":"@ + enc_str(c.cred_def_id@)
        + ",\"blinded_ms\":"@ + enc_str(c.blinded_ms@) + ",\"blinded_ms_correctness_proof\":"@
        + enc_str(c.blinded_ms_correctness_proof@) + ",\"nonce\":"@ + enc_str(c.nonce@) + "}"@
}

/// Where each field of a request encoding stands inside `gs`.
spec fn request_fields_at(gs: Seq<char>, c: CredentialRequest) -> bool {
    let a0 = "{\"prover_did\":"@.len() as int;
    let a1 = a0 + enc_str(c.prover_did@).len();
    let a2 = a1 + ",\"cred_def_id\":"@.len();
    let a3 = a2 + enc_str(c.cred_def_id@).len();
    let a4 = a3 + ",\"blinded_ms\":"@.len();
    let a5 = a4 + enc_str(c.blinded_ms@).len();
    let a6 = a5 + ",\"blinded_ms_correctness_proof\":"@.len();
    let a7 = a6 + enc_str(c.blinded_ms_correctness_proof@).len();
    let a8 = a7 + ",\"nonce\":"@.len();
    let a9 = a8 + enc_str(c.nonce@).len();
    gs.len() == a9 + "}"@.len() && gs.subrange(0, a0) == "{\"prover_did\":"@ && str_at(
        gs,
        a0,
        c.prover_did@,
        a1,
    ) && gs.subrange(a1, a2) == ",\"cred_def_id\":"@ && str_at(gs, a2, c.cred_def_id@, a3)
        && gs.subrange(a3, a4) == ",\"blinded_ms\":"@ && str_at(gs, a4, c.blinded_ms@, a5)
        && gs.subrange(a5, a6) == ",\"blinded_ms_correctness_proof\":"@ && str_at(
        gs,
        a6,
        c.blinded_ms_correctness_proof@,
        a7,
    ) && gs.subrange(a7, a8) == ",\"nonce\":"@ && str_at(gs, a8, c.nonce@, a9) && gs.subrange(
        a9,
        gs.len() as int,
    ) == "}"@
}

/// A request encoding decomposes into its fields.
proof fn lemma_request_fields(gs: Seq<char>, c: CredentialRequest)
    requires
        gs == enc_request(c),
    ensures
        request_fields_at(gs, c),
{
    let x1 = "{\"prover_did\":"@;
    let x2 = enc_str(c.prover_did@);
    let x3 = ",\"cred_def_id\":"@;
    let x4 = enc_str(c.cred_def_id@);
    let x5 = ",\"blinded_ms\":"@;
    let x6 = enc_str(c.blinded_ms@);
    let x7 = ",\"blinded_ms_correctness_proof\":"@;
    let x8 = enc_str(c.blinded_ms_correctness_proof@);
    let x9 = ",\"nonce\":"@;
    let x10 = enc_str(c.nonce@);
    let x11 = "}"@;
    let r10 = x11;
    let r9 = x10 + r10;
    let r8 = x9 + r9;
    let r7 = x8 + r8;
    let r6 = x7 + r7;
    let r5 = x6 + r6;
    let r4 = x5 + r5;
    let r3 = x4 + r4;
    let r2 = x3 + r3;
    let r1 = x2 + r2;
    assert(gs.subrange(0, gs.len() as int) =~= x1 + r1);
    lemma_subrange_split(gs, 0, x1, r1);
    let a0 = x1.len() as int;
    assert(gs.subrange(a0, gs.len() as int) =~= x2 + r2);
    lemma_subrange_split(gs, a0, x2, r2);
    let a1 = a0 + x2.len();
    assert(gs.subrange(a1, gs.len() as int) =~= x3 + r3);
    lemma_subrange_split(gs, a1, x3, r3);
    let a2 = a1 + x3.len();
    assert(gs.subrange(a2, gs.len() as int) =~= x4 + r4);
    lemma_subrange_split(gs, a2, x4, r4);
    let a3 = a2 + x4.len();
    assert(gs.subrange(a3, gs.len() as int) =~= x5 + r5);
    lemma_subrange_split(gs, a3, x5, r5);
    let a4 = a3 + x5.len();
    assert(gs.subrange(a4, gs.len() as int) =~= x6 + r6);
    lemma_subrange_split(gs, a4, x6, r6);
    let a5 = a4 + x6.len();
    assert(gs.subrange(a5, gs.len() as int) =~= x7 + r7);
    lemma_subrange_split(gs, a5, x7, r7);
    let a6 = a5 + x7.len();
    assert(gs.subrange(a6, gs.len() as int) =~= x8 + r8);
    lemma_subrange_split(gs, a6, x8, r8);
    let a7 = a6 + x8.len();
    assert(gs.subrange(a7, gs.len() as int) =~= x9 + r9);
    lemma_subrange_split(gs, a7, x9, r9);
    let a8 = a7 + x9.len();
    assert(gs.subrange(a8, gs.len() as int) =~= x10 + r10);
    lemma_subrange_split(gs, a8, x10, r10);
    let a9 = a8 + x10.len();
    assert(gs.subrange(a9, gs.len() as int) == x11);
}

impl CredentialRequest {
    /// The canonical JSON text of this request.
    pub fn to_json(&self) -> (r: String)
        ensures
            r@ == enc_request(*self),
    {
        let mut out: String = String::new();
        out.append("{\"prover_did\":");
        append_json_str(&mut out, self.prover_did.0.as_str());
        out.append(",\"cred_def_id\":");
        append_json_str(&mut out, self.cred_def_id.0.as_str());
        out.append(",\"blinded_ms\":");
        append_json_str(&mut out, self.blinded_ms.0.as_str());
        out.append(",\"blinded_ms_correctness_proof\":");
        append_json_str(&mut out, self.blinded_ms_correctness_proof.0.as_str());
        out.append(",\"nonce\":");
        append_json_str(&mut out, self.nonce.0.as_str());
        out.append("}");
        proof {
            assert(out@ =~= enc_request(*self));
        }
        out
    }

    /// Decodes the canonical JSON text of a request; exact for the
    /// canonical form, and every failure is a format error.
    #[verifier::rlimit(60)]
    pub fn from_json(s: &str) -> (r: Result<CredentialRequest, Error>)
        ensures
            r matches Ok(w) ==> s@ == enc_request(w),
            r matches Err(e) ==> e.is_format(),
            forall|c: CredentialRequest|
                s@ == #[trigger] enc_request(c) ==> (r matches Ok(w)
                    && w.prover_did@ == c.prover_did@ && w.cred_def_id@ == c.cred_def_id@
                    && w.blinded_ms@ == c.blinded_ms@ && w.blinded_ms_correctness_proof@
                    == c.blinded_ms_correctness_proof@ && w.nonce@ == c.nonce@),
    {
        let ghost gs = s@;
        proof {
            assert forall|c: CredentialRequest|
                gs == #[trigger] enc_request(c) implies request_fields_at(gs, c) by {
                lemma_request_fields(gs, c);
            }
        }
        let n: usize = s.unicode_len();
        let p0 = match parse_lit(s, 0, "{\"prover_did\":") {
            Some(p) => p,
            None => {
                return Err(format_err());
            },
        };
        let (did, p1) = match parse_string(s, p0) {
            Some(v) => v,
            None => {
                return Err(format_err());
            },
        };
        let p2 = match parse_lit(s, p1, ",\"cred_def_id\":") {
            Some(p) => p,
            None => {
                return Err(format_err());
            },
        };
        let (cdid, p3) = match parse_string(s, p2) {
            Some(v) => v,
            None => {
                return Err(format_err());
            },
        };
        let p4 = match parse_lit(s, p3, ",\"blinded_ms\":") {
            Some(p) => p,
            None => {
                return Err(format_err());
            },
        };
        let (bms, p5) = match parse_string(s, p4) {
            Some(v) => v,
            None => {
                return Err(format_err());
            },
        };
        let p6 = match parse_lit(s, p5, ",\"blinded_ms_correctness_proof\":") {
            Some(p) => p,
            None => {
                return Err(format_err());
            },
        };
        let (proof_v, p7) = match parse_string(s, p6) {
            Some(v) => v,
            None => {
                return Err(format_err());
            },
        };
        let p8 = match parse_lit(s, p7, ",\"nonce\":") {
            Some(p) => p,
            None => {
                return Err(format_err());
            },
        };
        let (nonce_v, p9) = match parse_string(s, p8) {
            Some(v) => v,
            None => {
                return Err(format_err());
            },
        };
        let p10 = match parse_lit(s, p9, "}") {
            Some(p) => p,
            None => {
                return Err(format_err());
            },
        };
        if p10 != n {
            return Err(format_err());
        }
        let built: CredentialRequest = CredentialRequest {
            prover_did: DidValue(did),
            cred_def_id: CredentialDefinitionId(cdid),
            blinded_ms: OpaqueValue(bms),
            blinded_ms_correctness_proof: OpaqueValue(proof_v),
            nonce: OpaqueValue(nonce_v),
        };
        proof {
            lemma_subrange_join(gs, 0, p0 as int, p1 as int);
            lemma_subrange_join(gs, 0, p1 as int, p2 as int);
            lemma_subrange_join(gs, 0, p2 as int, p3 as int);
            lemma_subrange_join(gs, 0, p3 as int, p4 as int);
            lemma_subrange_join(gs, 0, p4 as int, p5 as int);
            lemma_subrange_join(gs, 0, p5 as int, p6 as int);
            lemma_subrange_join(gs, 0, p6 as int, p7 as int);
            lemma_subrange_join(gs, 0, p7 as int, p8 as int);
            lemma_subrange_join(gs, 0, p8 as int, p9 as int);
            lemma_subrange_join(gs, 0, p9 as int, p10 as int);
            assert(gs.subrange(0, n as int) =~= gs);
            assert(gs =~= enc_request(built));
        }
        Ok(built)
    }
}

/// The canonical JSON encoding of credential-request metadata.
pub open spec fn enc_request_metadata(c: CredentialRequestMetadata) -> Seq<char> {
    "{\"master_secret_blinding_data\":"@ + enc_str(c.master_secret_blinding_data@) + ",\"nonce\":"@
        + enc_str(c.nonce@) + ",\"master_secret_name\":"@ + enc_str(c.master_secret_name@) + "}"@
}

/// Where each field of a metadata encoding stands inside `gs`.
spec fn request_metadata_fields_at(gs: Seq<char>, c: CredentialRequestMetadata) -> bool {
    let a0 = "{\"master_secret_blinding_data\":"@.len() as int;
    let a1 = a0 + enc_str(c.master_secret_blinding_data@).len();
    let a2 = a1 + ",\"nonce\":"@.len();
    let a3 = a2 + enc_str(c.nonce@).len();
    let a4 = a3 + ",\"master_secret_name\":"@.len();
    let a5 = a4 + enc_str(c.master_secret_name@).len();
    gs.len() == a5 + "}"@.len() && gs.subrange(0, a0) == "{\"master_secret_blinding_data\":"@
        && str_at(gs, a0, c.master_secret_blinding_data@, a1) && gs.subrange(a1, a2)
        == ",\"nonce\":"@ && str_at(gs, a2, c.nonce@, a3) && gs.subrange(a3, a4)
        == ",\"master_secret_name\":"@ && str_at(gs, a4, c.master_secret_name@, a5) && gs.subrange(
        a5,
        gs.len() as int,
    ) == "}"@
}

/// A metadata encoding decomposes into its fields.
proof fn lemma_request_metadata_fields(gs: Seq<char>, c: CredentialRequestMetadata)
    requires
        gs == enc_request_metadata(c),
    ensures
        request_metadata_fields_at(gs, c),
{
    let x1 = "{\"master_secret_blinding_data\":"@;
    let x2 = enc_str(c.master_secret_blinding_data@);
    let x3 = ",\"nonce\":"@;
    let x4 = enc_str(c.nonce@);
    let x5 = ",\"master_secret_name\":"@;
    let x6 = enc_str(c.master_secret_name@);
    let x7 = "}"@;
    let r6 = x7;
    let r5 = x6 + r6;
    let r4 = x5 + r5;
    let r3 = x4 + r4;
    let r2 = x3 + r3;
    let r1 = x2 + r2;
    assert(gs.subrange(0, gs.len() as int) =~= x1 + r1);
    lemma_subrange_split(gs, 0, x1, r1);
    let a0 = x1.len() as int;
    assert(gs.subrange(a0, gs.len() as int) =~= x2 + r2);
    lemma_subrange_split(gs, a0, x2, r2);
    let a1 = a0 + x2.len();
    assert(gs.subrange(a1, gs.len() as int) =~= x3 + r3);
    lemma_subrange_split(gs, a1, x3, r3);
    let a2 = a1 + x3.len();
    assert(gs.subrange(a2, gs.len() as int) =~= x4 + r4);
    lemma_subrange_split(gs, a2, x4, r4);
    let a3 = a2 + x4.len();
    assert(gs.subrange(a3, gs.len() as int) =~= x5 + r5);
    lemma_subrange_split(gs, a3, x5, r5);
    let a4 = a3 + x5.len();
    assert(gs.subrange(a4, gs.len() as int) =~= x6 + r6);
    lemma_subrange_split(gs, a4, x6, r6);
    let a5 = a4 + x6.len();
    assert(gs.subrange(a5, gs.len() as int) == x7);
}

impl CredentialRequestMetadata {
    /// The canonical JSON text of this metadata.
    pub fn to_json(&self) -> (r: String)
        ensures
            r@ == enc_request_metadata(*self),
    {
        let mut out: String = String::new();
        out.append("{\"master_secret_blinding_data\":");
        append_json_str(&mut out, self.master_secret_blinding_data.0.as_str());
        out.append(",\"nonce\":");
        append_json_str(&mut out, self.nonce.0.as_str());
        out.append(",\"master_secret_name\":");
        append_json_str(&mut out, self.master_secret_name.as_str());
        out.append("}");
        proof {
            assert(out@ =~= enc_request_metadata(*self));
        }
        out
    }

    /// Decodes the canonical JSON text of request metadata; exact for the
    /// canonical form, and every failure is a format error.
    pub fn from_json(s: &str) -> (r: Result<CredentialRequestMetadata, Error>)
        ensures
            r matches Ok(w) ==> s@ == enc_request_metadata(w),
            r matches Err(e) ==> e.is_format(),
            forall|c: CredentialRequestMetadata|
                s@ == #[trigger] enc_request_metadata(c) ==> (
                r matches Ok(w) && w.master_secret_blinding_data@ == c.master_secret_blinding_data@
                    && w.nonce@ == c.nonce@ && w.master_secret_name@ == c.master_secret_name@),
    {
        let ghost gs = s@;
        proof {
            assert forall|c: CredentialRequestMetadata|
                gs == #[trigger] enc_request_metadata(c) implies request_metadata_fields_at(
                gs,
                c,
            ) by {
                lemma_request_metadata_fields(gs, c);
            }
        }
        let n: usize = s.unicode_len();
        let p0 = match parse_lit(s, 0, "{\"master_secret_blinding_data\":") {
            Some(p) => p,
            None => {
                return Err(format_err());
            },
        };
        let (mbd, p1) = match parse_string(s, p0) {
            Some(v) => v,
            None => {
                return Err(format_err());
            },
        };
        let p2 = match parse_lit(s, p1, ",\"nonce\":") {
            Some(p) => p,
            None => {
                return Err(format_err());
            },
        };
        let (nonce_v, p3) = match parse_string(s, p2) {
            Some(v) => v,
            None => {
                return Err(format_err());
            },
        };
        let p4 = match parse_lit(s, p3, ",\"master_secret_name\":") {
            Some(p) => p,
            None => {
                return Err(format_err());
            },
        };
        let (msn, p5) = match parse_string(s, p4) {
            Some(v) => v,
            None => {
                return Err(format_err());
            },
        };
        let p6 = match parse_lit(s, p5, "}") {
            Some(p) => p,
            None => {
                return Err(format_err());
            },
        };
        if p6 != n {
            return Err(format_err());
        }
        let built: CredentialRequestMetadata = CredentialRequestMetadata {
            master_secret_blinding_data: OpaqueValue(mbd),
            nonce: OpaqueValue(nonce_v),
            master_secret_name: msn,
        };
        proof {
            lemma_subrange_join(gs, 0, p0 as int, p1 as int);
            lemma_subrange_join(gs, 0, p1 as int, p2 as int);
            lemma_subrange_join(gs, 0, p2 as int, p3 as int);
            lemma_subrange_join(gs, 0, p3 as int, p4 as int);
            lemma_subrange_join(gs, 0, p4 as int, p5 as int);
            lemma_subrange_join(gs, 0, p5 as int, p6 as int);
            assert(gs.subrange(0, n as int) =~= gs);
            assert(gs =~= enc_request_metadata(built));
        }
        Ok(built)
    }
}

} // verus!

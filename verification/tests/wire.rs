use credx_domain::error::Error;
use credx_domain::ident::{CredentialDefinitionId, DidValue};
use credx_domain::request::{CredentialRequest, CredentialRequestMetadata, OpaqueValue};
use credx_domain::schema::{new_schema, AttributeNames, Schema};
use credx_domain::validation::Validatable;

fn sample_schema() -> Schema {
    let origin = DidValue(String::from("NcYxiDXkpYi6ov5FcYDi1e"));
    let attrs = AttributeNames::from_vec(vec!["name".to_string(), "age".to_string()]);
    new_schema(&origin, "gvt", "1.0", attrs).unwrap()
}

fn sample_request() -> CredentialRequest {
    CredentialRequest {
        prover_did: DidValue(String::from("did:sov:VsKV7grR1BUE29mG2Fm2kX")),
        cred_def_id: CredentialDefinitionId(String::from(
            "NcYxiDXkpYi6ov5FcYDi1e:3:CL:14:TAG",
        )),
        blinded_ms: OpaqueValue(String::from("u-commitment-bytes")),
        blinded_ms_correctness_proof: OpaqueValue(String::from("proof-bytes")),
        nonce: OpaqueValue(String::from("871515154126")),
    }
}

#[test]
fn schema_encodes_to_the_canonical_text() {
    let schema = sample_schema();
    assert_eq!(
        schema.to_json(),
        "{\"ver\":\"1\",\"id\":\"NcYxiDXkpYi6ov5FcYDi1e:2:gvt:1.0\",\"name\":\"gvt\",\
         \"version\":\"1.0\",\"attrNames\":[\"name\",\"age\"],\"seqNo\":null}"
    );
}

#[test]
fn schema_round_trips_without_sequence_number() {
    let schema = sample_schema();
    let decoded = Schema::from_json(&schema.to_json()).unwrap();
    assert_eq!(decoded, schema);
}

#[test]
fn schema_round_trips_with_sequence_number() {
    let mut schema = sample_schema();
    schema.set_seq_no(Some(4294967295));
    let text = schema.to_json();
    assert!(text.ends_with("\"seqNo\":4294967295}"));
    let decoded = Schema::from_json(&text).unwrap();
    assert_eq!(decoded, schema);
}

#[test]
fn schema_wire_text_is_real_json() {
    let mut schema = sample_schema();
    schema.set_seq_no(Some(15));
    let value: serde_json::Value = serde_json::from_str(&schema.to_json()).unwrap();
    assert_eq!(value["ver"], "1");
    assert_eq!(value["id"], "NcYxiDXkpYi6ov5FcYDi1e:2:gvt:1.0");
    assert_eq!(value["name"], "gvt");
    assert_eq!(value["version"], "1.0");
    assert_eq!(value["attrNames"][0], "name");
    assert_eq!(value["attrNames"][1], "age");
    assert_eq!(value["seqNo"], 15);
}

#[test]
fn unknown_schema_version_tag_is_a_format_error() {
    let text = "{\"ver\":\"2\",\"id\":\"x:2:n:v\",\"name\":\"n\",\"version\":\"v\",\
                \"attrNames\":[\"a\"],\"seqNo\":null}";
    assert!(matches!(Schema::from_json(text), Err(Error::Format { .. })));
}

#[test]
fn malformed_schema_payloads_are_format_errors() {
    for text in [
        "",
        "{",
        "{\"ver\":\"1\"",
        "not json at all",
        "{\"ver\":\"1\",\"id\":\"i\",\"name\":\"n\",\"version\":\"v\",\"attrNames\":[],\"seqNo\":null} ",
        "{\"ver\":\"1\",\"id\":\"i\",\"name\":\"n\",\"version\":\"v\",\"attrNames\":[\"a\"],\"seqNo\":012}",
        "{\"ver\":\"1\",\"id\":\"i\",\"name\":\"n\",\"version\":\"v\",\"attrNames\":[\"a\"],\"seqNo\":4294967296}",
        "{\"ver\":\"1\",\"id\":\"i\",\"name\":\"n\",\"version\":\"v\",\"attrNames\":[\"a\",\"a\"],\"seqNo\":null}",
    ] {
        assert!(
            matches!(Schema::from_json(text), Err(Error::Format { .. })),
            "payload was accepted: {}",
            text
        );
    }
}

#[test]
fn schema_sequence_number_survives_the_wire() {
    let mut schema = sample_schema();
    schema.set_seq_no(Some(12345));
    let decoded = Schema::from_json(&schema.to_json()).unwrap();
    assert_eq!(decoded.get_seq_no(), Some(12345));
}

#[test]
fn quotes_and_backslashes_survive_the_wire() {
    let mut req = sample_request();
    req.blinded_ms = OpaqueValue(String::from("{\"u\":\"123\",\"path\":\"a\\\\b\"}"));
    let text = req.to_json();
    let decoded = CredentialRequest::from_json(&text).unwrap();
    assert_eq!(decoded, req);
    let value: serde_json::Value = serde_json::from_str(&text).unwrap();
    assert_eq!(value["blinded_ms"], "{\"u\":\"123\",\"path\":\"a\\\\b\"}");
}

#[test]
fn escaping_uses_the_canonical_form() {
    let meta = CredentialRequestMetadata {
        master_secret_blinding_data: OpaqueValue(String::from("a\"b\\c")),
        nonce: OpaqueValue(String::from("0")),
        master_secret_name: String::from("default"),
    };
    let text = meta.to_json();
    assert_eq!(
        text,
        "{\"master_secret_blinding_data\":\"a\\\"b\\\\c\",\"nonce\":\"0\",\
         \"master_secret_name\":\"default\"}"
    );
    assert_eq!(CredentialRequestMetadata::from_json(&text).unwrap(), meta);
}

#[test]
fn schema_with_quoted_name_round_trips() {
    let origin = DidValue(String::from("NcYxiDXkpYi6ov5FcYDi1e"));
    let attrs = AttributeNames::from_vec(vec!["a\"b".to_string(), "c\\d".to_string()]);
    let schema = new_schema(&origin, "say \"gvt\"", "1.0", attrs).unwrap();
    let text = schema.to_json();
    let decoded = Schema::from_json(&text).unwrap();
    assert_eq!(decoded, schema);
    let value: serde_json::Value = serde_json::from_str(&text).unwrap();
    assert_eq!(value["name"], "say \"gvt\"");
    assert_eq!(value["attrNames"][0], "a\"b");
    assert_eq!(value["attrNames"][1], "c\\d");
}

#[test]
fn stray_escape_is_a_format_error() {
    let text = "{\"master_secret_blinding_data\":\"a\\nb\",\"nonce\":\"0\",\
                \"master_secret_name\":\"default\"}";
    assert!(matches!(
        CredentialRequestMetadata::from_json(text),
        Err(Error::Format { .. })
    ));
}

#[test]
fn request_round_trips() {
    let req = sample_request();
    let decoded = CredentialRequest::from_json(&req.to_json()).unwrap();
    assert_eq!(decoded, req);
}

#[test]
fn request_wire_text_is_real_json() {
    let req = sample_request();
    let value: serde_json::Value = serde_json::from_str(&req.to_json()).unwrap();
    assert_eq!(value["prover_did"], "did:sov:VsKV7grR1BUE29mG2Fm2kX");
    assert_eq!(value["cred_def_id"], "NcYxiDXkpYi6ov5FcYDi1e:3:CL:14:TAG");
    assert_eq!(value["blinded_ms"], "u-commitment-bytes");
    assert_eq!(value["blinded_ms_correctness_proof"], "proof-bytes");
    assert_eq!(value["nonce"], "871515154126");
}

#[test]
fn request_metadata_round_trips() {
    let meta = CredentialRequestMetadata {
        master_secret_blinding_data: OpaqueValue(String::from("v-prime-bytes")),
        nonce: OpaqueValue(String::from("871515154126")),
        master_secret_name: String::from("default"),
    };
    let decoded = CredentialRequestMetadata::from_json(&meta.to_json()).unwrap();
    assert_eq!(decoded, meta);
    assert!(meta.validate().is_ok());
}

#[test]
fn truncated_request_payload_is_a_format_error() {
    let req = sample_request();
    let text = req.to_json();
    let cut = &text[..text.len() - 1];
    assert!(matches!(
        CredentialRequest::from_json(cut),
        Err(Error::Format { .. })
    ));
}

#[test]
fn to_unqualified_keeps_cryptographic_fields_byte_identical() {
    let req = sample_request();
    let blinded = req.blinded_ms.clone();
    let proof = req.blinded_ms_correctness_proof.clone();
    let nonce = req.nonce.clone();
    let bare = req.to_unqualified();
    assert_eq!(bare.prover_did.0, "VsKV7grR1BUE29mG2Fm2kX");
    assert_eq!(bare.cred_def_id.0, "NcYxiDXkpYi6ov5FcYDi1e:3:CL:14:TAG");
    assert_eq!(bare.blinded_ms, blinded);
    assert_eq!(bare.blinded_ms_correctness_proof, proof);
    assert_eq!(bare.nonce, nonce);
}

#[test]
fn request_validate_rejects_empty_prover_identifier() {
    let mut req = sample_request();
    req.prover_did = DidValue(String::new());
    match req.validate() {
        Err(Error::Validation { entity, field, .. }) => {
            assert_eq!(entity, "DidValue");
            assert_eq!(field, "did");
        }
        other => panic!("expected a validation error, got {:?}", other),
    }
}

#[test]
fn request_validate_reports_the_first_failing_check() {
    let mut req = sample_request();
    req.prover_did = DidValue(String::new());
    req.cred_def_id = CredentialDefinitionId(String::from("no-segments"));
    match req.validate() {
        Err(Error::Validation { entity, field, .. }) => {
            assert_eq!(entity, "CredentialDefinitionId");
            assert_eq!(field, "cred_def_id");
        }
        other => panic!("expected a validation error, got {:?}", other),
    }
}

#[test]
fn request_validate_ignores_opaque_field_contents() {
    let mut req = sample_request();
    req.blinded_ms = OpaqueValue(String::new());
    req.blinded_ms_correctness_proof = OpaqueValue(String::from("anything"));
    assert!(req.validate().is_ok());
}

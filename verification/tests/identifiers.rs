use credx_domain::error::Error;
use credx_domain::ident::{CredentialDefinitionId, DidValue};
use credx_domain::validation::Validatable;

#[test]
fn qualify_then_unqualify_restores_did() {
    let d = DidValue(String::from("NcYxiDXkpYi6ov5FcYDi1e"));
    let q = d.to_qualified("sov").unwrap();
    assert_eq!(q.0, "did:sov:NcYxiDXkpYi6ov5FcYDi1e");
    let back = q.to_unqualified();
    assert_eq!(back, d);
}

#[test]
fn qualify_rejects_empty_method() {
    let d = DidValue(String::from("NcYxiDXkpYi6ov5FcYDi1e"));
    let r = d.to_qualified("");
    assert!(matches!(r, Err(Error::Format { .. })));
}

#[test]
fn qualify_rejects_method_with_separator() {
    let d = DidValue(String::from("NcYxiDXkpYi6ov5FcYDi1e"));
    let r = d.to_qualified("so:v");
    assert!(matches!(r, Err(Error::Format { .. })));
}

#[test]
fn qualify_rejects_already_qualified() {
    let d = DidValue(String::from("did:sov:NcYxiDXkpYi6ov5FcYDi1e"));
    let r = d.to_qualified("sov");
    assert!(matches!(r, Err(Error::Format { .. })));
}

#[test]
fn qualify_rejects_empty_identifier() {
    let d = DidValue(String::new());
    let r = d.to_qualified("sov");
    assert!(matches!(r, Err(Error::Format { .. })));
}

#[test]
fn unqualify_is_noop_on_bare_identifier() {
    let d = DidValue(String::from("NcYxiDXkpYi6ov5FcYDi1e"));
    let u = d.to_unqualified();
    assert_eq!(u, d);
    assert_eq!(d.0, "NcYxiDXkpYi6ov5FcYDi1e");
}

#[test]
fn unqualify_is_idempotent_on_nested_prefixes() {
    let d = DidValue(String::from("did:alpha:did:beta:tail"));
    let once = d.to_unqualified();
    let twice = once.to_unqualified();
    assert_eq!(once, twice);
    assert_eq!(once.0, "tail");
}

#[test]
fn did_validate_rejects_empty() {
    let d = DidValue(String::new());
    match d.validate() {
        Err(Error::Validation { entity, field, .. }) => {
            assert_eq!(entity, "DidValue");
            assert_eq!(field, "did");
        }
        other => panic!("expected a validation error, got {:?}", other),
    }
}

#[test]
fn did_validate_accepts_nonempty() {
    let d = DidValue(String::from("NcYxiDXkpYi6ov5FcYDi1e"));
    assert!(d.validate().is_ok());
}

#[test]
fn cred_def_id_validate_needs_segments() {
    let good = CredentialDefinitionId(String::from("NcYxiDXkpYi6ov5FcYDi1e:3:CL:14:TAG"));
    assert!(good.validate().is_ok());
    let short = CredentialDefinitionId(String::from("NcYxiDXkpYi6ov5FcYDi1e:3:CL"));
    match short.validate() {
        Err(Error::Validation { entity, field, .. }) => {
            assert_eq!(entity, "CredentialDefinitionId");
            assert_eq!(field, "cred_def_id");
        }
        other => panic!("expected a validation error, got {:?}", other),
    }
    let empty = CredentialDefinitionId(String::new());
    assert!(matches!(empty.validate(), Err(Error::Validation { .. })));
}

#[test]
fn cred_def_id_validate_rejects_empty_segments() {
    let hollow = CredentialDefinitionId(String::from("::::"));
    assert!(matches!(hollow.validate(), Err(Error::Validation { .. })));
    let gap = CredentialDefinitionId(String::from("NcYxiDXkpYi6ov5FcYDi1e:3::14:TAG"));
    assert!(matches!(gap.validate(), Err(Error::Validation { .. })));
}

#[test]
fn cred_def_id_validate_sees_through_qualification() {
    let q = CredentialDefinitionId(String::from(
        "creddef:sov:NcYxiDXkpYi6ov5FcYDi1e:3:CL:14:TAG",
    ));
    assert!(q.validate().is_ok());
}

#[test]
fn cred_def_id_round_trip() {
    let c = CredentialDefinitionId(String::from("NcYxiDXkpYi6ov5FcYDi1e:3:CL:14:TAG"));
    let q = c.to_qualified("sov").unwrap();
    assert_eq!(q.0, "creddef:sov:NcYxiDXkpYi6ov5FcYDi1e:3:CL:14:TAG");
    assert_eq!(q.to_unqualified(), c);
}

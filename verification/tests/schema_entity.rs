use credx_domain::error::Error;
use credx_domain::ident::DidValue;
use credx_domain::schema::{new_schema, AttributeNames};
use credx_domain::validation::Validatable;

fn origin() -> DidValue {
    DidValue(String::from("NcYxiDXkpYi6ov5FcYDi1e"))
}

fn attrs(names: &[&str]) -> AttributeNames {
    AttributeNames::from_vec(names.iter().map(|s| s.to_string()).collect())
}

#[test]
fn duplicate_attributes_collapse() {
    let schema = new_schema(&origin(), "n", "v", attrs(&["a", "a", "b"])).unwrap();
    let names = schema.attr_names();
    assert_eq!(names.len(), 2);
    assert_eq!(names, vec!["a".to_string(), "b".to_string()]);
}

#[test]
fn empty_attribute_set_is_a_build_error() {
    let r = new_schema(&origin(), "n", "v", attrs(&[]));
    assert!(matches!(r, Err(Error::Build { .. })));
}

#[test]
fn invalid_origin_is_a_build_error() {
    let bad = DidValue(String::new());
    let r = new_schema(&bad, "n", "v", attrs(&["a"]));
    assert!(matches!(r, Err(Error::Build { .. })));
}

#[test]
fn empty_name_or_version_is_a_build_error() {
    assert!(matches!(
        new_schema(&origin(), "", "v", attrs(&["a"])),
        Err(Error::Build { .. })
    ));
    assert!(matches!(
        new_schema(&origin(), "n", "", attrs(&["a"])),
        Err(Error::Build { .. })
    ));
}

#[test]
fn schema_identifier_is_derived_deterministically() {
    let s1 = new_schema(&origin(), "gvt", "1.0", attrs(&["name", "age"])).unwrap();
    let s2 = new_schema(&origin(), "gvt", "1.0", attrs(&["name", "age"])).unwrap();
    assert_eq!(s1.schema_id(), s2.schema_id());
    assert_eq!(s1.schema_id(), "NcYxiDXkpYi6ov5FcYDi1e:2:gvt:1.0");
}

#[test]
fn schema_identifier_changes_with_version() {
    let s1 = new_schema(&origin(), "gvt", "1.0", attrs(&["name"])).unwrap();
    let s2 = new_schema(&origin(), "gvt", "2.0", attrs(&["name"])).unwrap();
    assert_ne!(s1.schema_id(), s2.schema_id());
}

#[test]
fn sequence_number_starts_unset_and_is_assigned_once() {
    let mut schema = new_schema(&origin(), "gvt", "1.0", attrs(&["name", "age"])).unwrap();
    assert_eq!(schema.get_seq_no(), None);
    schema.set_seq_no(Some(42));
    assert_eq!(schema.get_seq_no(), Some(42));
    assert_eq!(schema.name(), "gvt");
    assert_eq!(schema.version(), "1.0");
    assert_eq!(schema.schema_id(), "NcYxiDXkpYi6ov5FcYDi1e:2:gvt:1.0");
    assert_eq!(schema.attr_names(), vec!["name".to_string(), "age".to_string()]);
}

#[test]
fn constructed_schema_validates() {
    let schema = new_schema(&origin(), "gvt", "1.0", attrs(&["name"])).unwrap();
    assert!(schema.validate().is_ok());
}

#[test]
fn attribute_order_is_kept_stable() {
    let schema = new_schema(&origin(), "gvt", "1.0", attrs(&["z", "a", "m"])).unwrap();
    assert_eq!(
        schema.attr_names(),
        vec!["z".to_string(), "a".to_string(), "m".to_string()]
    );
}

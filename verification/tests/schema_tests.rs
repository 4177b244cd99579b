use sysctl_conf::{Schema, SchemaError, SchemaField, SchemaType, SysctlConfig, SysctlError};
use sysctl_conf::schema::{is_valid_bool, is_valid_float, is_valid_int, type_from_tag};

fn field(t: SchemaType, required: bool) -> SchemaField {
    SchemaField { field_type: t, required, description: None }
}

#[test]
fn validate_bool_accepts_yes() {
    let mut c = SysctlConfig::new();
    c.set("net.ipv4.forward".to_string(), "yes".to_string());
    let mut s = Schema::new();
    s.add_field("net.ipv4.forward".to_string(), field(SchemaType::Bool, true));
    assert!(s.validate(&c).is_ok());
}

#[test]
fn validate_bool_rejects_maybe() {
    let mut c = SysctlConfig::new();
    c.set("net.ipv4.forward".to_string(), "maybe".to_string());
    let mut s = Schema::new();
    s.add_field("net.ipv4.forward".to_string(), field(SchemaType::Bool, true));
    let errs = s.validate(&c).unwrap_err();
    assert_eq!(errs.len(), 1);
    match &errs[0] {
        SchemaError::Validation { key, message } => {
            assert_eq!(key, "net.ipv4.forward");
            assert_eq!(message, "expected boolean value, got 'maybe'");
        }
        _ => panic!("expected a type mismatch"),
    }
}

#[test]
fn validate_missing_required_key() {
    let c = SysctlConfig::new();
    let mut s = Schema::new();
    s.add_field("net.ipv4.forward".to_string(), field(SchemaType::Bool, true));
    let errs = s.validate(&c).unwrap_err();
    assert_eq!(errs.len(), 1);
    match &errs[0] {
        SchemaError::MissingKey { key } => assert_eq!(key, "net.ipv4.forward"),
        _ => panic!("expected a missing-key error"),
    }
}

#[test]
fn validate_reports_both_missing_keys() {
    let c = SysctlConfig::new();
    let mut s = Schema::new();
    s.add_field("first.key".to_string(), field(SchemaType::String, true));
    s.add_field("second.key".to_string(), field(SchemaType::Int, true));
    let errs = s.validate(&c).unwrap_err();
    assert_eq!(errs.len(), 2);
    assert!(matches!(&errs[0], SchemaError::MissingKey { key } if key == "first.key"));
    assert!(matches!(&errs[1], SchemaError::MissingKey { key } if key == "second.key"));
}

#[test]
fn validate_optional_absent_passes() {
    let c = SysctlConfig::new();
    let mut s = Schema::new();
    s.add_field("tunable".to_string(), field(SchemaType::Bool, false));
    assert!(s.validate(&c).is_ok());
}

#[test]
fn validate_optional_wrapper_delegates() {
    let mut c = SysctlConfig::new();
    c.set("tunable".to_string(), "notabool".to_string());
    let mut s = Schema::new();
    s.add_field(
        "tunable".to_string(),
        field(SchemaType::Optional(Box::new(SchemaType::Bool)), false),
    );
    let errs = s.validate(&c).unwrap_err();
    assert_eq!(errs.len(), 1);
    assert!(matches!(&errs[0], SchemaError::Validation { key, .. } if key == "tunable"));
}

#[test]
fn validate_ignores_undeclared_keys() {
    let mut c = SysctlConfig::new();
    c.set("declared".to_string(), "7".to_string());
    c.set("undeclared".to_string(), "!!! anything at all".to_string());
    let mut s = Schema::new();
    s.add_field("declared".to_string(), field(SchemaType::Int, true));
    assert!(s.validate(&c).is_ok());
}

#[test]
fn validate_string_accepts_everything() {
    let mut c = SysctlConfig::new();
    c.set("k".to_string(), "any value 42 # whatever".to_string());
    let mut s = Schema::new();
    s.add_field("k".to_string(), field(SchemaType::String, true));
    assert!(s.validate(&c).is_ok());
}

#[test]
fn int_validator_examples() {
    assert!(is_valid_int("-42"));
    assert!(is_valid_int("0"));
    assert!(!is_valid_int("4.2"));
    assert!(!is_valid_int("forty-two"));
}

#[test]
fn int_validator_bounds_and_signs() {
    assert!(is_valid_int("+42"));
    assert!(is_valid_int("9223372036854775807"));
    assert!(!is_valid_int("9223372036854775808"));
    assert!(is_valid_int("-9223372036854775808"));
    assert!(!is_valid_int("-9223372036854775809"));
    assert!(is_valid_int("00012"));
    assert!(!is_valid_int(""));
    assert!(!is_valid_int("-"));
    assert!(!is_valid_int(" 1"));
}

#[test]
fn float_validator_examples() {
    assert!(is_valid_float("3.14"));
    assert!(is_valid_float("-2"));
    assert!(!is_valid_float("abc"));
}

#[test]
fn float_validator_forms() {
    assert!(is_valid_float("1e5"));
    assert!(is_valid_float("-2.5E-3"));
    assert!(is_valid_float(".5"));
    assert!(is_valid_float("1."));
    assert!(is_valid_float("inf"));
    assert!(is_valid_float("-Infinity"));
    assert!(is_valid_float("NaN"));
    assert!(!is_valid_float("."));
    assert!(!is_valid_float("1e"));
    assert!(!is_valid_float("--1"));
    assert!(!is_valid_float("1.2.3"));
    assert!(!is_valid_float(""));
}

#[test]
fn bool_validator_case_insensitive() {
    assert!(is_valid_bool("TRUE"));
    assert!(is_valid_bool("On"));
    assert!(is_valid_bool("no"));
    assert!(is_valid_bool("0"));
    assert!(is_valid_bool("1"));
    assert!(!is_valid_bool("2"));
    assert!(!is_valid_bool("enabled"));
}

#[test]
fn type_tags_resolve() {
    assert!(matches!(type_from_tag("string"), Ok(SchemaType::String)));
    assert!(matches!(type_from_tag("bool"), Ok(SchemaType::Bool)));
    assert!(matches!(type_from_tag("int"), Ok(SchemaType::Int)));
    assert!(matches!(type_from_tag("float"), Ok(SchemaType::Float)));
    match type_from_tag("bogus") {
        Err(e @ SchemaError::UnknownType { .. }) => {
            assert_eq!(e.render(), "Unknown type 'bogus' in schema");
        }
        _ => panic!("expected an unknown-type error"),
    }
}

#[test]
fn validate_with_schema_joins_all_violations() {
    let c = SysctlConfig::new();
    let mut s = Schema::new();
    s.add_field("alpha".to_string(), field(SchemaType::Bool, true));
    s.add_field("beta".to_string(), field(SchemaType::Int, true));
    match c.validate_with_schema(&s) {
        Err(SysctlError::MultipleValidationErrors { errors }) => {
            assert_eq!(
                errors,
                "Required key 'alpha' is missing; Required key 'beta' is missing"
            );
        }
        _ => panic!("expected an aggregated validation failure"),
    }
}

#[test]
fn validate_with_schema_renders_mismatch() {
    let mut c = SysctlConfig::new();
    c.set("speed".to_string(), "fast".to_string());
    let mut s = Schema::new();
    s.add_field("speed".to_string(), field(SchemaType::Float, true));
    match c.validate_with_schema(&s) {
        Err(SysctlError::MultipleValidationErrors { errors }) => {
            assert_eq!(
                errors,
                "Validation error for key 'speed': expected float value, got 'fast'"
            );
        }
        _ => panic!("expected an aggregated validation failure"),
    }
}

#[test]
fn validate_with_schema_success() {
    let mut c = SysctlConfig::new();
    c.parse("net.ipv4.forward = yes\nvm.swappiness = 10\n").unwrap();
    let mut s = Schema::new();
    s.add_field("net.ipv4.forward".to_string(), field(SchemaType::Bool, true));
    s.add_field("vm.swappiness".to_string(), field(SchemaType::Int, false));
    assert!(c.validate_with_schema(&s).is_ok());
}

use sysctl_config::{ConfigType, Schema, SchemaFormatError, SysctlConfig};

#[test]
fn bool_key_with_true_passes() {
    let schema = Schema::load("{\"schema\": {\"x\": \"bool\"}}").unwrap();
    let mut config = SysctlConfig::new();
    config.parse_line("x = true");
    assert!(schema.validate(&config).is_ok());
}

#[test]
fn bool_key_with_false_passes() {
    let schema = Schema::load("{\"schema\": {\"x\": \"bool\"}}").unwrap();
    let mut config = SysctlConfig::new();
    config.parse_line("x = false");
    assert!(schema.validate(&config).is_ok());
}

#[test]
fn bool_key_with_other_text_fails() {
    let schema = Schema::load("{\"schema\": {\"x\": \"bool\"}}").unwrap();
    let mut config = SysctlConfig::new();
    config.parse_line("x = maybe");
    let err = schema.validate(&config).unwrap_err();
    assert_eq!(err, "Validation error: 'x' should be a boolean");
}

#[test]
fn undeclared_key_fails_as_unexpected() {
    let schema = Schema::load("{\"schema\": {\"x\": \"string\"}}").unwrap();
    let mut config = SysctlConfig::new();
    config.parse_line("y = 1");
    let err = schema.validate(&config).unwrap_err();
    assert_eq!(err, "Validation error: unexpected key 'y'");
}

#[test]
fn string_key_accepts_any_value() {
    let schema = Schema::load("{\"schema\": {\"x\": \"string\"}}").unwrap();
    let mut config = SysctlConfig::new();
    config.parse_line("x = anything at all");
    assert!(schema.validate(&config).is_ok());
}

#[test]
fn empty_configuration_is_valid_against_any_schema() {
    let schema = Schema::load("{\"schema\": {\"x\": \"bool\", \"y\": \"string\"}}").unwrap();
    let config = SysctlConfig::new();
    assert!(schema.validate(&config).is_ok());
}

#[test]
fn mixed_configuration_passes_matching_schema() {
    let schema = Schema::load(
        "{\"schema\": {\"net.ipv4.ip_forward\": \"bool\", \"kernel.hostname\": \"string\"}}",
    )
    .unwrap();
    let mut config = SysctlConfig::new();
    config.load("net.ipv4.ip_forward = true\nkernel.hostname = box01\n");
    assert!(schema.validate(&config).is_ok());
}

#[test]
fn schema_reports_declared_types() {
    let schema = Schema::load("{\"schema\": {\"x\": \"bool\", \"y\": \"string\"}}").unwrap();
    assert_eq!(schema.get_type("x"), Some(ConfigType::Bool));
    assert_eq!(schema.get_type("y"), Some(ConfigType::Str));
    assert_eq!(schema.get_type("z"), None);
}

#[test]
fn malformed_document_is_a_syntax_error() {
    assert_eq!(Schema::load("not json").unwrap_err(), SchemaFormatError::Syntax);
    assert_eq!(Schema::load("{\"schema\": 5}").unwrap_err(), SchemaFormatError::Syntax);
    assert_eq!(Schema::load("[1, 2]").unwrap_err(), SchemaFormatError::Syntax);
}

#[test]
fn document_without_schema_field_is_rejected() {
    assert_eq!(
        Schema::load("{\"other\": {\"x\": \"bool\"}}").unwrap_err(),
        SchemaFormatError::MissingSchemaField
    );
    assert_eq!(Schema::load("{}").unwrap_err(), SchemaFormatError::MissingSchemaField);
}

#[test]
fn unrecognized_type_tag_is_rejected() {
    assert_eq!(
        Schema::load("{\"schema\": {\"x\": \"int\"}}").unwrap_err(),
        SchemaFormatError::UnrecognizedType
    );
    assert_eq!(
        Schema::load("{\"schema\": {\"x\": \"Bool\"}}").unwrap_err(),
        SchemaFormatError::UnrecognizedType
    );
}

#[test]
fn empty_schema_rejects_every_key() {
    let schema = Schema::load("{\"schema\": {}}").unwrap();
    let mut config = SysctlConfig::new();
    config.parse_line("x = 1");
    let err = schema.validate(&config).unwrap_err();
    assert_eq!(err, "Validation error: unexpected key 'x'");
}

use celldb::validation::{
    get_indexed_fields, DataValue, FieldDefinition, FieldType, FieldValue, IndexDefinition,
    Operation, ValidationError, ValidationRule, Validator,
};

fn field(t: FieldType, required: bool, rules: Vec<ValidationRule>) -> FieldDefinition {
    FieldDefinition { field_type: t, required, validation_rules: rules }
}

fn schema() -> Vec<(String, FieldDefinition)> {
    vec![
        ("name".to_string(), field(FieldType::Text, true, vec![ValidationRule::MinLength(2), ValidationRule::MaxLength(5)])),
        ("age".to_string(), field(FieldType::Number, false, vec![])),
        ("active".to_string(), field(FieldType::Boolean, false, vec![])),
    ]
}

fn object(entries: Vec<(&str, FieldValue)>) -> DataValue {
    DataValue::Object(entries.into_iter().map(|(k, v)| (k.to_string(), v)).collect())
}

#[test]
fn valid_record_passes() {
    let data = object(vec![("name", FieldValue::Text("ana".to_string())), ("age", FieldValue::Number)]);
    assert_eq!(Validator::validate_data(&schema(), &data), Ok(()));
}

#[test]
fn non_object_is_rejected() {
    assert!(matches!(Validator::validate_data(&schema(), &DataValue::NotObject), Err(ValidationError::InvalidDataFormat(_))));
}

#[test]
fn missing_required_field() {
    let data = object(vec![("age", FieldValue::Number)]);
    assert_eq!(
        Validator::validate_data(&schema(), &data),
        Err(ValidationError::MissingRequiredField("name".to_string()))
    );
}

#[test]
fn wrong_type_is_a_mismatch() {
    let data = object(vec![("name", FieldValue::Text("ana".to_string())), ("active", FieldValue::Number)]);
    assert!(matches!(Validator::validate_data(&schema(), &data), Err(ValidationError::TypeMismatch(_))));
}

#[test]
fn length_rules_count_bytes() {
    let short = FieldValue::Text("a".to_string());
    assert!(matches!(Validator::apply_validation_rule(&short, &ValidationRule::MinLength(2)), Err(ValidationError::ValidationFailed(_))));
    let accented = FieldValue::Text("éé".to_string());
    assert!(Validator::apply_validation_rule(&accented, &ValidationRule::MinLength(4)).is_ok());
    assert!(matches!(Validator::apply_validation_rule(&accented, &ValidationRule::MaxLength(3)), Err(ValidationError::ValidationFailed(_))));
    assert!(Validator::apply_validation_rule(&FieldValue::Number, &ValidationRule::MaxLength(0)).is_ok());
    assert!(Validator::apply_validation_rule(&short, &ValidationRule::Pattern("x".to_string())).is_ok());
}

#[test]
fn field_checks_type_before_rules() {
    let rules = vec![ValidationRule::MinLength(10)];
    assert!(matches!(Validator::validate_field(&FieldValue::Boolean, &FieldType::Text, &rules), Err(ValidationError::TypeMismatch(_))));
    assert!(matches!(
        Validator::validate_field(&FieldValue::Text("abc".to_string()), &FieldType::Text, &rules),
        Err(ValidationError::ValidationFailed(_))
    ));
    assert_eq!(Validator::validate_field(&FieldValue::Other, &FieldType::Blob, &vec![]), Ok(()));
}

#[test]
fn indexed_fields_are_flattened() {
    let indexes = vec![
        IndexDefinition { name: "a".to_string(), fields: vec!["x".to_string(), "y".to_string()], unique: false },
        IndexDefinition { name: "b".to_string(), fields: vec![], unique: true },
        IndexDefinition { name: "c".to_string(), fields: vec!["z".to_string()], unique: false },
    ];
    assert_eq!(get_indexed_fields(&indexes), vec!["x".to_string(), "y".to_string(), "z".to_string()]);
}

#[test]
fn operation_names() {
    assert_eq!(Operation::Read.name(), "READ");
    assert_eq!(Operation::Write.name(), "WRITE");
    assert_eq!(Operation::Delete.name(), "DELETE");
    assert_eq!(Operation::Admin.name(), "ADMIN");
}

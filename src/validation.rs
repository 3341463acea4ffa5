//! Validation of a record against a data cell's schema.
use vstd::prelude::*;
use vstd::utf8::encode_utf8;

verus! {

/// Declared type of a schema field. Validation checks the first three; the
/// others are accepted as they come.
#[derive(Clone, Copy, Debug, PartialEq, Eq, Structural)]
pub enum FieldType {
    Text,
    Number,
    Boolean,
    Timestamp,
    Principal,
    Blob,
    Array,
    Object,
}

#[derive(Clone, Debug, PartialEq, Eq)]
pub enum ValidationRule {
    MinLength(u32),
    MaxLength(u32),
    Pattern(String),
    Range(i64, i64),
    Custom(String),
}

/// What validation needs of a schema field.
#[derive(Clone, Debug, PartialEq, Eq)]
pub struct FieldDefinition {
    pub field_type: FieldType,
    pub required: bool,
    pub validation_rules: Vec<ValidationRule>,
}

/// What validation reads of a field's value: its kind, and a text's content.
#[derive(Clone, Debug, PartialEq, Eq)]
pub enum FieldValue {
    Text(String),
    Number,
    Boolean,
    Other,
}

/// A record to validate: an object of named values, or anything else.
#[derive(Clone, Debug, PartialEq, Eq)]
pub enum DataValue {
    Object(Vec<(String, FieldValue)>),
    NotObject,
}

#[derive(Clone, Debug, PartialEq, Eq)]
pub enum ValidationError {
    MissingRequiredField(String),
    TypeMismatch(String),
    ValidationFailed(String),
    InvalidDataFormat(String),
    ConstraintViolation(String),
}

/// Length of a text in bytes of UTF-8.
pub open spec fn byte_len(s: Seq<char>) -> int {
    (encode_utf8(s).len() as usize) as int
}

pub open spec fn rule_holds(value: FieldValue, rule: ValidationRule) -> bool {
    match value {
        FieldValue::Text(s) => match rule {
            ValidationRule::MinLength(min) => byte_len(s@) >= min,
            ValidationRule::MaxLength(max) => byte_len(s@) <= max,
            _ => true,
        },
        _ => true,
    }
}

pub open spec fn type_matches(value: FieldValue, field_type: FieldType) -> bool {
    match field_type {
        FieldType::Text => value is Text,
        FieldType::Number => value is Number,
        FieldType::Boolean => value is Boolean,
        _ => true,
    }
}

pub open spec fn rules_hold(value: FieldValue, rules: Seq<ValidationRule>) -> bool {
    forall|k: int| 0 <= k < rules.len() ==> rule_holds(value, #[trigger] rules[k])
}

pub open spec fn field_valid(value: FieldValue, field_type: FieldType, rules: Seq<ValidationRule>) -> bool {
    type_matches(value, field_type) && rules_hold(value, rules)
}

/// Position of the entry named `name` in `obj`, or -1 when there is none.
pub open spec fn entry_index(obj: Seq<(String, FieldValue)>, name: Seq<char>) -> int
    decreases obj.len(),
{
    if obj.len() == 0 {
        -1
    } else if obj.last().0@ == name {
        obj.len() - 1
    } else {
        entry_index(obj.drop_last(), name)
    }
}

pub proof fn lemma_entry_index(obj: Seq<(String, FieldValue)>, name: Seq<char>)
    ensures
        -1 <= entry_index(obj, name) < obj.len(),
        entry_index(obj, name) >= 0 ==> obj[entry_index(obj, name)].0@ == name,
    decreases obj.len(),
{
    if obj.len() > 0 {
        lemma_entry_index(obj.drop_last(), name);
    }
}

/// The field `def` (named `name`) is satisfied by the object `obj`.
pub open spec fn field_satisfied(obj: Seq<(String, FieldValue)>, name: Seq<char>, def: FieldDefinition) -> bool {
    let i = entry_index(obj, name);
    &&& def.required ==> i >= 0
    &&& i >= 0 ==> field_valid(obj[i].1, def.field_type, def.validation_rules@)
}

/// The error that a field that is not satisfied gives.
pub open spec fn field_error_matches(
    obj: Seq<(String, FieldValue)>,
    name: Seq<char>,
    def: FieldDefinition,
    e: ValidationError,
) -> bool {
    let i = entry_index(obj, name);
    if i < 0 {
        e matches ValidationError::MissingRequiredField(f) && f@ == name
    } else if !type_matches(obj[i].1, def.field_type) {
        e is TypeMismatch
    } else {
        e is ValidationFailed
    }
}

pub struct Validator;

impl Validator {
    /// Checks `data` against the schema's fields, in the order given: the
    /// data must be an object, every required field must be present, and
    /// every present field must have its type and satisfy its rules. The
    /// first field that fails gives the error.
    pub fn validate_data(fields: &Vec<(String, FieldDefinition)>, data: &DataValue) -> (r: Result<(), ValidationError>)
        ensures
            match *data {
                DataValue::NotObject => r matches Err(ValidationError::InvalidDataFormat(_)),
                DataValue::Object(obj) => {
                    &&& r is Ok <==> forall|k: int|
                        0 <= k < fields@.len() ==> field_satisfied(obj@, (#[trigger] fields@[k]).0@, fields@[k].1)
                    &&& r matches Err(e) ==> exists|k: int|
                        0 <= k < fields@.len() && !field_satisfied(obj@, (#[trigger] fields@[k]).0@, fields@[k].1)
                            && field_error_matches(obj@, fields@[k].0@, fields@[k].1, e) && forall|j: int|
                            0 <= j < k ==> field_satisfied(obj@, (#[trigger] fields@[j]).0@, fields@[j].1)
                },
            },
    {
        match data {
            DataValue::NotObject => Err(ValidationError::InvalidDataFormat("expected an object".to_string())),
            DataValue::Object(obj) => {
                let mut k: usize = 0;
                while k < fields.len()
                    invariant
                        *data == DataValue::Object(*obj),
                        k <= fields@.len(),
                        forall|j: int| 0 <= j < k ==> field_satisfied(obj@, (#[trigger] fields@[j]).0@, fields@[j].1),
                    decreases fields@.len() - k,
                {
                    let name = &fields[k].0;
                    let def = &fields[k].1;
                    proof {
                        lemma_entry_index(obj@, name@);
                    }
                    match Self::find_entry(obj, name) {
                        None => {
                            if def.required {
                                let e = ValidationError::MissingRequiredField(name.clone());
                                assert(!field_satisfied(obj@, fields@[k as int].0@, fields@[k as int].1));
                                assert(field_error_matches(obj@, fields@[k as int].0@, fields@[k as int].1, e));
                                return Err(e);
                            }
                        },
                        Some(i) => {
                            match Self::validate_field(&obj[i].1, &def.field_type, &def.validation_rules) {
                                Ok(()) => {},
                                Err(e) => {
                                    assert(!field_satisfied(obj@, fields@[k as int].0@, fields@[k as int].1));
                                    assert(field_error_matches(obj@, fields@[k as int].0@, fields@[k as int].1, e));
                                    return Err(e);
                                },
                            }
                        },
                    }
                    k += 1;
                }
                Ok(())
            },
        }
    }

    fn find_entry(obj: &Vec<(String, FieldValue)>, name: &String) -> (r: Option<usize>)
        ensures
            match r {
                Some(i) => i as int == entry_index(obj@, name@),
                None => entry_index(obj@, name@) == -1,
            },
    {
        let mut i: usize = obj.len();
        assert(obj@.subrange(0, i as int) =~= obj@);
        while i > 0
            invariant
                i <= obj@.len(),
                entry_index(obj@, name@) == entry_index(obj@.subrange(0, i as int), name@),
            decreases i,
        {
            assert(obj@.subrange(0, i as int).drop_last() =~= obj@.subrange(0, i - 1));
            if obj[i - 1].0 == *name {
                return Some(i - 1);
            }
            i -= 1;
        }
        None
    }

    /// Checks one value: its type first, then each rule in order.
    pub fn validate_field(value: &FieldValue, field_type: &FieldType, rules: &Vec<ValidationRule>) -> (r: Result<
        (),
        ValidationError,
    >)
        ensures
            r is Ok <==> field_valid(*value, *field_type, rules@),
            !type_matches(*value, *field_type) ==> r matches Err(ValidationError::TypeMismatch(_)),
            type_matches(*value, *field_type) && r is Err ==> (r matches Err(ValidationError::ValidationFailed(_))),
    {
        match field_type {
            FieldType::Text => {
                if !matches!(value, FieldValue::Text(_)) {
                    return Err(ValidationError::TypeMismatch("expected a string".to_string()));
                }
            },
            FieldType::Number => {
                if !matches!(value, FieldValue::Number) {
                    return Err(ValidationError::TypeMismatch("expected a number".to_string()));
                }
            },
            FieldType::Boolean => {
                if !matches!(value, FieldValue::Boolean) {
                    return Err(ValidationError::TypeMismatch("expected a boolean".to_string()));
                }
            },
            _ => {},
        }
        let mut k: usize = 0;
        while k < rules.len()
            invariant
                k <= rules@.len(),
                type_matches(*value, *field_type),
                forall|j: int| 0 <= j < k ==> rule_holds(*value, #[trigger] rules@[j]),
            decreases rules@.len() - k,
        {
            match Self::apply_validation_rule(value, &rules[k]) {
                Ok(()) => {},
                Err(e) => {
                    return Err(e);
                },
            }
            k += 1;
        }
        Ok(())
    }

    /// Applies one rule to a value; length rules count a text's UTF-8 bytes
    /// and apply to texts only. The other rules accept every value.
    pub fn apply_validation_rule(value: &FieldValue, rule: &ValidationRule) -> (r: Result<(), ValidationError>)
        ensures
            r is Ok <==> rule_holds(*value, *rule),
            r is Err ==> (r matches Err(ValidationError::ValidationFailed(_))),
    {
        match value {
            FieldValue::Text(s) => match rule {
                ValidationRule::MinLength(min) => {
                    if s.as_str().len() < *min as usize {
                        return Err(ValidationError::ValidationFailed("string shorter than its minimum length".to_string()));
                    }
                },
                ValidationRule::MaxLength(max) => {
                    if s.as_str().len() > *max as usize {
                        return Err(ValidationError::ValidationFailed("string longer than its maximum length".to_string()));
                    }
                },
                _ => {},
            },
            _ => {},
        }
        Ok(())
    }
}

/// A secondary index of a schema.
#[derive(Clone, Debug, PartialEq, Eq)]
pub struct IndexDefinition {
    pub name: String,
    pub fields: Vec<String>,
    pub unique: bool,
}

#[derive(Clone, Debug, PartialEq, Eq)]
pub enum ConstraintDefinition {
    Unique(Vec<String>),
    ForeignKey { fields: Vec<String>, references: String },
    Check(String),
}

pub open spec fn index_fields(indexes: Seq<IndexDefinition>) -> Seq<Seq<char>>
    decreases indexes.len(),
{
    if indexes.len() == 0 {
        seq![]
    } else {
        index_fields(indexes.drop_last()) + indexes.last().fields@.map_values(|f: String| f@)
    }
}

/// The fields of all the indexes, index after index.
pub fn get_indexed_fields(indexes: &Vec<IndexDefinition>) -> (r: Vec<String>)
    ensures
        r@.map_values(|f: String| f@) == index_fields(indexes@),
{
    let mut r: Vec<String> = Vec::new();
    let mut i: usize = 0;
    while i < indexes.len()
        invariant
            i <= indexes@.len(),
            r@.map_values(|f: String| f@) == index_fields(indexes@.subrange(0, i as int)),
        decreases indexes@.len() - i,
    {
        assert(indexes@.subrange(0, i + 1).drop_last() =~= indexes@.subrange(0, i as int));
        let fields = &indexes[i].fields;
        let ghost before = r@;
        let mut j: usize = 0;
        while j < fields.len()
            invariant
                j <= fields@.len(),
                r@ == before + fields@.subrange(0, j as int),
            decreases fields@.len() - j,
        {
            r.push(fields[j].clone());
            j += 1;
            assert(r@ =~= before + fields@.subrange(0, j as int));
        }
        assert(fields@.subrange(0, j as int) =~= fields@);
        assert(r@.map_values(|f: String| f@) =~= before.map_values(|f: String| f@) + fields@.map_values(|f: String| f@));
        i += 1;
    }
    assert(indexes@.subrange(0, i as int) =~= indexes@);
    r
}

/// Operations that an access rule may allow.
#[derive(Clone, Copy, Debug, PartialEq, Eq, Structural)]
pub enum Operation {
    Read,
    Write,
    Delete,
    Admin,
}

impl Operation {
    /// Upper-case name of the operation, as audit entries show it.
    pub fn name(&self) -> (r: &'static str)
        ensures
            r@ == match self {
                Operation::Read => "READ"@,
                Operation::Write => "WRITE"@,
                Operation::Delete => "DELETE"@,
                Operation::Admin => "ADMIN"@,
            },
    {
        match self {
            Operation::Read => "READ",
            Operation::Write => "WRITE",
            Operation::Delete => "DELETE",
            Operation::Admin => "ADMIN",
        }
    }
}

} // verus!

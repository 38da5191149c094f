//! What a `tantivy` schema says of its fields, as far as warming up an index depends on it.

use tantivy::schema::Schema;
use vstd::prelude::*;

verus! {

/// Does a field hold one value per document, or any number of them?
#[derive(Clone, Copy, Debug, PartialEq, Eq, Structural)]
pub enum Cardinality {
    SingleValue,
    MultiValues,
}

/// The type of the values of a field.
#[derive(Clone, Copy, Debug, PartialEq, Eq, Structural)]
pub enum ValueType {
    Str,
    U64,
    I64,
    F64,
    Bool,
    Date,
    Facet,
    Bytes,
    Json,
    IpAddr,
}

/// The type of a field, with what its options say of its fast field: whether it has one, or with
/// which cardinality.
#[derive(Clone, Copy, Debug, PartialEq, Eq, Structural)]
pub enum FieldType {
    Str { fast: bool },
    U64(Option<Cardinality>),
    I64(Option<Cardinality>),
    F64(Option<Cardinality>),
    Bool(Option<Cardinality>),
    Date(Option<Cardinality>),
    Facet,
    Bytes { fast: bool },
    JsonObject,
    IpAddr(Option<Cardinality>),
}

impl FieldType {
    /// The type of the values.
    pub open spec fn value_type(self) -> ValueType {
        match self {
            FieldType::Str { .. } => ValueType::Str,
            FieldType::U64(_) => ValueType::U64,
            FieldType::I64(_) => ValueType::I64,
            FieldType::F64(_) => ValueType::F64,
            FieldType::Bool(_) => ValueType::Bool,
            FieldType::Date(_) => ValueType::Date,
            FieldType::Facet => ValueType::Facet,
            FieldType::Bytes { .. } => ValueType::Bytes,
            FieldType::JsonObject => ValueType::Json,
            FieldType::IpAddr(_) => ValueType::IpAddr,
        }
    }

    /// Does the field have a fast field? A facet always has one, a JSON object never.
    pub open spec fn is_fast(self) -> bool {
        match self {
            FieldType::Str { fast } | FieldType::Bytes { fast } => fast,
            FieldType::U64(fast)
            | FieldType::I64(fast)
            | FieldType::F64(fast)
            | FieldType::Bool(fast)
            | FieldType::Date(fast)
            | FieldType::IpAddr(fast) => fast is Some,
            FieldType::Facet => true,
            FieldType::JsonObject => false,
        }
    }

    /// The cardinality of the field, where it has a fast field.
    pub open spec fn field_cardinality(self) -> Option<Cardinality> {
        match self {
            FieldType::Bytes { fast } => if fast {
                Some(Cardinality::SingleValue)
            } else {
                None
            },
            FieldType::Str { fast } => if fast {
                Some(Cardinality::MultiValues)
            } else {
                None
            },
            FieldType::U64(fast)
            | FieldType::I64(fast)
            | FieldType::F64(fast)
            | FieldType::Bool(fast)
            | FieldType::Date(fast)
            | FieldType::IpAddr(fast) => fast,
            FieldType::Facet => Some(Cardinality::MultiValues),
            FieldType::JsonObject => None,
        }
    }

    /// The cardinality of the fast field, where the warm-up knows one. It is not that of the
    /// field: also of single bytes the fast field holds many.
    pub open spec fn fastfield_cardinality(self) -> Option<Cardinality> {
        match self {
            FieldType::U64(fast)
            | FieldType::I64(fast)
            | FieldType::F64(fast)
            | FieldType::Bool(fast)
            | FieldType::Date(fast) => fast,
            FieldType::Facet => Some(Cardinality::MultiValues),
            FieldType::Bytes { fast } | FieldType::Str { fast } => if fast {
                Some(Cardinality::MultiValues)
            } else {
                None
            },
            FieldType::JsonObject | FieldType::IpAddr(_) => None,
        }
    }
}

/// `tantivy::schema::Schema`: the fields of an index, their names and their types.
#[verifier::external_type_specification]
#[verifier::external_body]
pub struct ExSchema(Schema);

/// The number of each field of a schema, by its name.
pub uninterp spec fn schema_fields(schema: Schema) -> Map<Seq<char>, u32>;

/// The types of the fields of a schema, by their numbers.
pub uninterp spec fn schema_types(schema: Schema) -> Seq<FieldType>;

/// Can the fields of a schema be numbered without using a number twice? A number has 32 bits.
pub open spec fn has_numbers_for_all(types: Seq<FieldType>) -> bool {
    types.len() <= 0x1_0000_0000
}

/// Calls `Schema::get_field`: the number of the field of that name, if there is one. Every number
/// that it gives out is that of a field with a type. Fields are numbered in the order in which
/// they are added, and none is added under a name that is taken: as long as the numbers suffice,
/// no other name has the same number.
#[verifier::external_body]
pub(crate) fn get_field(schema: &Schema, name: &str) -> (field: Option<u32>)
    ensures
        match field {
            None => !schema_fields(*schema).contains_key(name@),
            Some(number) => {
                &&& schema_fields(*schema).contains_key(name@)
                &&& schema_fields(*schema)[name@] == number
                &&& number < schema_types(*schema).len()
                &&& has_numbers_for_all(schema_types(*schema)) ==> forall|other: Seq<char>|
                    #[trigger] schema_fields(*schema).contains_key(other) && schema_fields(
                        *schema,
                    )[other] == number ==> other == name@
            },
        },
{
    schema.get_field(name).map(|field| field.field_id())
}

/// Calls `FieldType::value_type` on the field of that number.
#[verifier::external_body]
fn get_value_type(schema: &Schema, field: u32) -> (value_type: ValueType)
    requires
        field < schema_types(*schema).len(),
    ensures
        value_type == schema_types(*schema)[field as int].value_type(),
{
    let field = tantivy::schema::Field::from_field_id(field);
    match schema.get_field_entry(field).field_type().value_type() {
        tantivy::schema::Type::Str => ValueType::Str,
        tantivy::schema::Type::U64 => ValueType::U64,
        tantivy::schema::Type::I64 => ValueType::I64,
        tantivy::schema::Type::F64 => ValueType::F64,
        tantivy::schema::Type::Bool => ValueType::Bool,
        tantivy::schema::Type::Date => ValueType::Date,
        tantivy::schema::Type::Facet => ValueType::Facet,
        tantivy::schema::Type::Bytes => ValueType::Bytes,
        tantivy::schema::Type::Json => ValueType::Json,
        tantivy::schema::Type::IpAddr => ValueType::IpAddr,
    }
}

/// Calls `FieldEntry::is_fast` on the field of that number: is the field declared fast, by an
/// option or, for the types without one, by its type?
#[verifier::external_body]
pub(crate) fn get_is_fast(schema: &Schema, field: u32) -> (fast: bool)
    requires
        field < schema_types(*schema).len(),
    ensures
        fast == schema_types(*schema)[field as int].is_fast(),
{
    schema.get_field_entry(tantivy::schema::Field::from_field_id(field)).is_fast()
}

/// Calls `FieldType::fastfield_cardinality` on the field of that number: the cardinality that the
/// options of a number, a date or an address give, and a fixed one for the other types.
#[verifier::external_body]
fn get_field_cardinality(schema: &Schema, field: u32) -> (cardinality: Option<Cardinality>)
    requires
        field < schema_types(*schema).len(),
    ensures
        cardinality == schema_types(*schema)[field as int].field_cardinality(),
{
    let field = tantivy::schema::Field::from_field_id(field);
    let cardinality = schema.get_field_entry(field).field_type().fastfield_cardinality();
    cardinality.map(|cardinality| match cardinality {
        tantivy::schema::Cardinality::SingleValue => Cardinality::SingleValue,
        tantivy::schema::Cardinality::MultiValues => Cardinality::MultiValues,
    })
}

/// The type of the field of that number.
pub(crate) fn get_field_type(schema: &Schema, field: u32) -> (field_type: FieldType)
    requires
        field < schema_types(*schema).len(),
    ensures
        field_type == schema_types(*schema)[field as int],
{
    let fast = get_is_fast(schema, field);
    let cardinality = get_field_cardinality(schema, field);
    match get_value_type(schema, field) {
        ValueType::Str => FieldType::Str { fast },
        ValueType::U64 => FieldType::U64(cardinality),
        ValueType::I64 => FieldType::I64(cardinality),
        ValueType::F64 => FieldType::F64(cardinality),
        ValueType::Bool => FieldType::Bool(cardinality),
        ValueType::Date => FieldType::Date(cardinality),
        ValueType::Facet => FieldType::Facet,
        ValueType::Bytes => FieldType::Bytes { fast },
        ValueType::Json => FieldType::JsonObject,
        ValueType::IpAddr => FieldType::IpAddr(cardinality),
    }
}

/// The cardinality of the fast field of a field.
///
/// The field cardinality is not the same as the fast field cardinality: a single valued bytes
/// field has a multivalued fast field cardinality.
pub fn get_fastfield_cardinality(field_type: &FieldType) -> (cardinality: Option<Cardinality>)
    ensures
        cardinality == field_type.fastfield_cardinality(),
{
    match field_type {
        FieldType::U64(fast)
        | FieldType::I64(fast)
        | FieldType::F64(fast)
        | FieldType::Bool(fast) => *fast,
        FieldType::Date(fast) => *fast,
        FieldType::Facet => Some(Cardinality::MultiValues),
        FieldType::Bytes { fast } if *fast => Some(Cardinality::MultiValues),
        FieldType::Str { fast } if *fast => Some(Cardinality::MultiValues),
        _ => None,
    }
}

/// What the options of a field say of its fast field is what the field has: whether it is fast,
/// and for numbers, dates and addresses with which cardinality.
pub proof fn options_decide_the_fast_field(option: Option<Cardinality>, fast: bool)
    ensures
        FieldType::U64(option).field_cardinality() == option,
        FieldType::I64(option).field_cardinality() == option,
        FieldType::F64(option).field_cardinality() == option,
        FieldType::Bool(option).field_cardinality() == option,
        FieldType::Date(option).field_cardinality() == option,
        FieldType::IpAddr(option).field_cardinality() == option,
        FieldType::U64(option).fastfield_cardinality() == option,
        FieldType::I64(option).fastfield_cardinality() == option,
        FieldType::F64(option).fastfield_cardinality() == option,
        FieldType::Bool(option).fastfield_cardinality() == option,
        FieldType::Date(option).fastfield_cardinality() == option,
        (FieldType::Bytes { fast }).fastfield_cardinality() == (if fast {
            Some(Cardinality::MultiValues)
        } else {
            None
        }),
        (FieldType::Str { fast }).fastfield_cardinality() == (if fast {
            Some(Cardinality::MultiValues)
        } else {
            None
        }),
        FieldType::Facet.fastfield_cardinality() == Some(Cardinality::MultiValues),
        FieldType::JsonObject.fastfield_cardinality() is None,
        FieldType::IpAddr(option).fastfield_cardinality() is None,
{
}

/// A field is fast exactly where it has a cardinality.
pub proof fn fast_fields_are_those_with_a_cardinality(field_type: FieldType)
    ensures
        field_type.is_fast() <==> field_type.field_cardinality() is Some,
{
}

/// Only of a fast field the cardinality is known; and of every fast field it is, but for those of
/// IP addresses.
pub proof fn fast_fields_have_a_cardinality(field_type: FieldType)
    ensures
        field_type.fastfield_cardinality() is Some <==> field_type.is_fast()
            && !(field_type is IpAddr),
{
}

/// The cardinality of the fast field is that of the field, but for bytes: a document has one
/// value of bytes, the fast field many.
pub proof fn bytes_alone_change_cardinality(field_type: FieldType)
    requires
        field_type.fastfield_cardinality() is Some,
    ensures
        field_type.fastfield_cardinality() == field_type.field_cardinality() <==> !(
        field_type is Bytes),
        field_type is Bytes ==> field_type.fastfield_cardinality() == Some(
            Cardinality::MultiValues,
        ) && field_type.field_cardinality() == Some(Cardinality::SingleValue),
{
}

} // verus!

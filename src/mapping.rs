//! The compiled plan: field types, sources, defaults, JSON options and enum
//! inference rules.

use vstd::prelude::*;
use crate::path::PathSegment;

verus! {

/// The output type of a field.
#[derive(Clone, Copy, Debug, PartialEq, Eq, Structural)]
pub enum FieldType {
    String,
    UInt8,
    UInt32,
    UInt64,
    Int32,
    Float64,
    Bool,
    Enum8,
    DateTime64 { precision: u8 },
    Json,
    ArrayString,
    ArrayUInt64,
    ArrayFloat64,
    ArrayDateTime64 { precision: u8 },
    ArrayJson,
    ArrayMap,
}

/// A case transform applied to string values.
#[derive(Clone, Copy, Debug, PartialEq, Eq, Structural)]
pub enum FieldTransform {
    Upcase,
    Downcase,
}

/// The value a field takes when its source resolves to nothing. `Flt` holds
/// the decimal rendering of a float.
#[derive(Debug, Clone, PartialEq)]
pub enum DefaultValue {
    Nil,
    Str(String),
    Int(i64),
    Uint(u64),
    Flt(String),
    Bool(bool),
    EmptyList,
    EmptyMap,
}

/// Where a field's raw value comes from.
pub enum PathSource {
    /// The whole document.
    Root,
    /// One path.
    Single(Vec<PathSegment>),
    /// Several paths; the first that yields a value wins.
    Coalesce(Vec<Vec<PathSegment>>),
    /// The output of an earlier field, by position.
    FromOutput(usize),
}

/// A named set of candidate paths for the sparse projection of a JSON field.
pub struct PickEntry {
    pub key: String,
    pub paths: Vec<Vec<PathSegment>>,
}

/// A literal that a predicate compares against. `Flt` holds the decimal
/// rendering of a float.
#[derive(Debug, Clone, PartialEq)]
pub enum PredicateValue {
    Str(String),
    Int(i64),
    Flt(String),
    Bool(bool),
}

/// A test on the value found at a condition's path.
pub enum Predicate {
    Exists,
    NotExists,
    NotZero,
    IsZero,
    GreaterThan(PredicateValue),
    LessThan(PredicateValue),
    NotEmpty,
    IsEmpty,
    Equals(PredicateValue),
    NotEquals(PredicateValue),
    In(Vec<PredicateValue>),
    IsString,
    IsNumber,
    IsList,
    IsMap,
}

/// A predicate applied to the value at a path.
pub struct InferCondition {
    pub path: Vec<PathSegment>,
    pub predicate: Predicate,
}

/// A rule of structural inference: it matches when `any` is empty or one of
/// its conditions holds, and `all` is empty or all of its conditions hold.
/// `result` is a (lower-cased) key of the field's enum values.
pub struct InferRule {
    pub any: Vec<InferCondition>,
    pub all: Vec<InferCondition>,
    pub result: String,
}

/// The categorical data of an `Enum8` field: its lower-cased names with their
/// codes, and its inference rules in order.
pub struct Enum8Data {
    pub value_map: Vec<(String, i8)>,
    pub infer_rules: Vec<InferRule>,
}

/// One compiled field of a mapping.
pub struct CompiledField {
    pub name: String,
    pub path_source: PathSource,
    pub field_type: FieldType,
    pub default: DefaultValue,
    pub transform: Option<FieldTransform>,
    pub allowed_values: Vec<String>,
    pub value_map: Vec<(String, i64)>,
    pub exclude_keys: Vec<String>,
    pub elevate_keys: Vec<String>,
    pub pick: Vec<PickEntry>,
    pub enum8_data: Option<Enum8Data>,
    pub filter_nil: bool,
}

/// A compiled mapping: its fields, in declared order.
pub struct CompiledMapping {
    pub fields: Vec<CompiledField>,
}

/// A compiled mapping held for reuse across many mapping calls.
pub struct CompiledMappingResource {
    pub mapping: CompiledMapping,
}

/// Whether a field type is one of the array types.
pub fn is_array_type(field_type: &FieldType) -> (r: bool)
    ensures
        r == is_array_spec(*field_type),
{
    match field_type {
        FieldType::ArrayString | FieldType::ArrayUInt64 | FieldType::ArrayFloat64
        | FieldType::ArrayDateTime64 { .. } | FieldType::ArrayJson | FieldType::ArrayMap => true,
        _ => false,
    }
}

pub open spec fn is_array_spec(t: FieldType) -> bool {
    match t {
        FieldType::ArrayString | FieldType::ArrayUInt64 | FieldType::ArrayFloat64
        | FieldType::ArrayDateTime64 { .. } | FieldType::ArrayJson | FieldType::ArrayMap => true,
        _ => false,
    }
}

} // verus!

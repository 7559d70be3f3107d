//! A configuration-driven document mapper: a declarative field list is compiled
//! once into a plan, and the plan projects semi-structured documents onto a
//! fixed, typed output schema. Alongside it stand the small byte utilities of
//! the same native layer: CityHash128 framing and raw LZ4 blocks.

pub mod numeric;
pub mod text;
pub mod outside;
pub mod value;
pub mod path;
pub mod query;
pub mod mapping;
pub mod coerce;
pub mod decimal;
pub mod infer;
pub mod json_ops;
pub mod mapper;
pub mod compile;
pub mod codec;
pub mod laws;

pub use codec::{dialect_of, hash128, join_lines, lz4_compress, lz4_decompress, Dialect};
pub use coerce::{
    apply_transform, apply_value_map, array_inner_type, array_nil_value, case_insensitive_get,
    coerce, coerce_array, encode_default,
};
pub use compile::{decode_enum8_data, decode_mapping, get_int_key, get_string_key, get_term_key};
pub use infer::evaluate_infer_rules;
pub use mapper::{map_batch, map_single};
pub use mapping::{
    is_array_type, CompiledField, CompiledMapping, CompiledMappingResource, DefaultValue,
    Enum8Data, FieldTransform, FieldType, InferCondition, InferRule, PathSource, PickEntry,
    Predicate, PredicateValue,
};
pub use numeric::{count_digits, detect_precision, scale};
pub use path::{parse, PathSegment};
pub use query::{evaluate, evaluate_first};
pub use value::Value;

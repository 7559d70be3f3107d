use mapper_ex::value::Value;
use mapper_ex::{
    apply_transform, apply_value_map, array_inner_type, array_nil_value, case_insensitive_get, coerce,
    coerce_array, encode_default, is_array_type, DefaultValue, FieldTransform, FieldType,
};

fn s(x: &str) -> Value {
    Value::Str(x.to_string())
}

fn f(x: &str) -> Value {
    Value::Float(x.to_string())
}

#[test]
fn absent_values_by_type() {
    assert_eq!(coerce(&Value::Null, &FieldType::UInt8), Value::UInt(0));
    assert_eq!(coerce(&Value::Null, &FieldType::UInt64), Value::UInt(0));
    assert_eq!(coerce(&Value::Null, &FieldType::Int32), Value::Int(0));
    assert_eq!(coerce(&Value::Null, &FieldType::Float64), f("0"));
    assert_eq!(coerce(&Value::Null, &FieldType::Bool), Value::Bool(false));
    assert_eq!(coerce(&Value::Null, &FieldType::Enum8), Value::Int(0));
    assert_eq!(coerce(&Value::Null, &FieldType::DateTime64 { precision: 3 }), Value::Null);
    assert_eq!(coerce(&Value::Null, &FieldType::String), Value::Null);
    assert_eq!(coerce(&Value::Null, &FieldType::Json), Value::Null);
}

#[test]
fn unsigned_clamping() {
    assert_eq!(coerce(&Value::Int(-5), &FieldType::UInt8), Value::UInt(0));
    assert_eq!(coerce(&Value::Int(300), &FieldType::UInt8), Value::UInt(255));
    assert_eq!(coerce(&Value::Int(70000), &FieldType::UInt32), Value::UInt(70000));
    assert_eq!(coerce(&Value::Int(i64::MAX), &FieldType::UInt64), Value::UInt(i64::MAX as u64));
    assert_eq!(coerce(&s("42"), &FieldType::UInt8), Value::UInt(42));
    assert_eq!(coerce(&s("999"), &FieldType::UInt8), Value::UInt(255));
    assert_eq!(coerce(&s("-1"), &FieldType::UInt8), Value::UInt(0));
    assert_eq!(coerce(&s("18446744073709551616"), &FieldType::UInt64), Value::UInt(0));
    assert_eq!(coerce(&f("3.9"), &FieldType::UInt8), Value::UInt(3));
    assert_eq!(coerce(&f("-2.5"), &FieldType::UInt8), Value::UInt(0));
    assert_eq!(coerce(&f("1000.5"), &FieldType::UInt8), Value::UInt(255));
    assert_eq!(coerce(&Value::Bool(true), &FieldType::UInt8), Value::UInt(1));
    assert_eq!(coerce(&Value::Array(vec![]), &FieldType::UInt8), Value::UInt(0));
}

#[test]
fn int32_coercion() {
    assert_eq!(coerce(&Value::Int(i64::MAX), &FieldType::Int32), Value::Int(i32::MAX as i64));
    assert_eq!(coerce(&Value::Int(i64::MIN), &FieldType::Int32), Value::Int(i32::MIN as i64));
    assert_eq!(coerce(&s("-12"), &FieldType::Int32), Value::Int(-12));
    assert_eq!(coerce(&s("99999999999"), &FieldType::Int32), Value::Int(0));
    assert_eq!(coerce(&f("-7.9"), &FieldType::Int32), Value::Int(-7));
    assert_eq!(coerce(&f("-3000000000.5"), &FieldType::Int32), Value::Int(i32::MIN as i64));
    assert_eq!(coerce(&Value::Bool(true), &FieldType::Int32), Value::Int(0));
}

#[test]
fn string_coercion() {
    assert_eq!(coerce(&Value::Int(-42), &FieldType::String), s("-42"));
    assert_eq!(coerce(&Value::Int(i64::MIN), &FieldType::String), s("-9223372036854775808"));
    assert_eq!(coerce(&Value::Bool(true), &FieldType::String), s("true"));
    assert_eq!(coerce(&f("1.5"), &FieldType::String), s("1.5"));
    assert_eq!(coerce(&s("same"), &FieldType::String), s("same"));
    assert_eq!(coerce(&Value::Object(vec![]), &FieldType::String), s(""));
}

#[test]
fn float_coercion() {
    assert_eq!(coerce(&Value::Int(5), &FieldType::Float64), f("5"));
    assert_eq!(coerce(&Value::UInt(u64::MAX), &FieldType::Float64), f("18446744073709551615"));
    assert_eq!(coerce(&s("+.5"), &FieldType::Float64), f("0.5"));
    assert_eq!(coerce(&s("-12."), &FieldType::Float64), f("-12"));
    assert_eq!(coerce(&s("abc"), &FieldType::Float64), f("0"));
    assert_eq!(coerce(&f("2.75"), &FieldType::Float64), f("2.75"));
}

#[test]
fn bool_coercion() {
    assert_eq!(coerce(&s("TRUE"), &FieldType::Bool), Value::Bool(true));
    assert_eq!(coerce(&s("1"), &FieldType::Bool), Value::Bool(true));
    assert_eq!(coerce(&s("yes"), &FieldType::Bool), Value::Bool(false));
    assert_eq!(coerce(&Value::Int(0), &FieldType::Bool), Value::Bool(false));
    assert_eq!(coerce(&Value::Int(2), &FieldType::Bool), Value::Bool(true));
    assert_eq!(coerce(&f("1.0"), &FieldType::Bool), Value::Bool(false));
}

#[test]
fn enum8_coercion_wraps() {
    assert_eq!(coerce(&Value::Int(300), &FieldType::Enum8), Value::Int(44));
    assert_eq!(coerce(&Value::Int(-129), &FieldType::Enum8), Value::Int(127));
    assert_eq!(coerce(&Value::Int(-1), &FieldType::Enum8), Value::Int(-1));
    assert_eq!(coerce(&s("3"), &FieldType::Enum8), Value::Int(0));
}

#[test]
fn datetime_coercion() {
    let t = FieldType::DateTime64 { precision: 3 };
    assert_eq!(coerce(&Value::Int(1769018088), &t), Value::Int(1769018088000));
    assert_eq!(coerce(&Value::Int(1769018088144506000), &t), Value::Int(1769018088144));
    assert_eq!(coerce(&s("1970-01-01T00:00:01Z"), &t), Value::Int(1000));
    assert_eq!(coerce(&f("1.5"), &t), Value::Int(0));
}

#[test]
fn json_passes_through() {
    let v = Value::Array(vec![Value::Int(1), s("x")]);
    assert_eq!(coerce(&v, &FieldType::Json), Value::Array(vec![Value::Int(1), s("x")]));
}

#[test]
fn transforms_change_case() {
    assert_eq!(apply_transform(&s("abc"), &FieldTransform::Upcase), s("ABC"));
    assert_eq!(apply_transform(&s("ÀBc"), &FieldTransform::Downcase), s("àbc"));
    assert_eq!(apply_transform(&Value::Int(3), &FieldTransform::Upcase), Value::Int(3));
}

#[test]
fn value_map_lookups() {
    let m: Vec<(String, i64)> = vec![("info".to_string(), 1), ("error".to_string(), 3)];
    assert_eq!(case_insensitive_get(&m, &s("ERROR")), Some(3));
    assert_eq!(case_insensitive_get(&m, &s("warn")), None);
    assert_eq!(case_insensitive_get(&m, &Value::Int(1)), None);
    assert_eq!(apply_value_map(&s("Info"), &m), Value::Int(1));
    assert_eq!(apply_value_map(&s("nope"), &m), Value::Null);
    assert_eq!(apply_value_map(&Value::Null, &m), Value::Null);
}

#[test]
fn defaults_encode() {
    assert_eq!(encode_default(&DefaultValue::Nil), Value::Null);
    assert_eq!(encode_default(&DefaultValue::Str("x".to_string())), s("x"));
    assert_eq!(encode_default(&DefaultValue::Int(-2)), Value::Int(-2));
    assert_eq!(encode_default(&DefaultValue::Uint(2)), Value::UInt(2));
    assert_eq!(encode_default(&DefaultValue::Flt("0.5".to_string())), f("0.5"));
    assert_eq!(encode_default(&DefaultValue::Bool(true)), Value::Bool(true));
    assert_eq!(encode_default(&DefaultValue::EmptyList), Value::Array(vec![]));
    assert_eq!(encode_default(&DefaultValue::EmptyMap), Value::Object(vec![]));
}

#[test]
fn array_types() {
    assert!(is_array_type(&FieldType::ArrayMap));
    assert!(!is_array_type(&FieldType::Json));
    assert_eq!(array_inner_type(&FieldType::ArrayString), Some(FieldType::String));
    assert_eq!(
        array_inner_type(&FieldType::ArrayDateTime64 { precision: 6 }),
        Some(FieldType::DateTime64 { precision: 6 })
    );
    assert_eq!(array_inner_type(&FieldType::ArrayJson), None);
    assert_eq!(array_nil_value(&FieldType::ArrayString), s(""));
    assert_eq!(array_nil_value(&FieldType::ArrayFloat64), f("0"));
    assert_eq!(array_nil_value(&FieldType::ArrayDateTime64 { precision: 0 }), Value::Int(0));
    assert_eq!(array_nil_value(&FieldType::ArrayMap), Value::Object(vec![]));
}

#[test]
fn array_coercion_rules() {
    let v = Value::Array(vec![s("a"), Value::Null, Value::Int(4)]);
    assert_eq!(
        coerce_array(&v, &FieldType::ArrayString, false),
        Value::Array(vec![s("a"), s(""), s("4")])
    );
    assert_eq!(coerce_array(&v, &FieldType::ArrayString, true), Value::Array(vec![s("a"), s("4")]));
    assert_eq!(
        coerce_array(&v, &FieldType::ArrayJson, true),
        Value::Array(vec![s("a"), Value::Int(4)])
    );
    assert_eq!(coerce_array(&s("x"), &FieldType::ArrayJson, true), Value::Array(vec![]));
}

#[test]
fn scalar_coercion_to_array_type_gives_empty_array() {
    assert_eq!(coerce(&Value::Int(1), &FieldType::ArrayUInt64), Value::Array(vec![]));
    assert_eq!(coerce(&Value::Null, &FieldType::ArrayUInt64), Value::Null);
}

#[test]
fn array_coercion_with_scalar_type_keeps_elements() {
    let v = Value::Array(vec![s("a"), Value::Null]);
    assert_eq!(coerce_array(&v, &FieldType::Json, false), Value::Array(vec![s("a"), Value::UInt(0)]));
}

#[test]
fn float_strings_with_exponents() {
    assert_eq!(coerce(&s("1.5e3"), &FieldType::Float64), f("1500"));
    assert_eq!(coerce(&s("2E-3"), &FieldType::Float64), f("0.002"));
    assert_eq!(coerce(&s("-1.25e1"), &FieldType::Float64), f("-12.5"));
    assert_eq!(coerce(&s("12e+0"), &FieldType::Float64), f("12"));
    assert_eq!(coerce(&s("1e99999"), &FieldType::Float64), f("0"));
    assert_eq!(coerce(&s("e5"), &FieldType::Float64), f("0"));
    assert_eq!(coerce(&s("1e"), &FieldType::Float64), f("0"));
}

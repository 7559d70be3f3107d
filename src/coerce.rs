//! Coercion of resolved values to the output types, value maps, transforms
//! and defaults.

use vstd::prelude::*;
use crate::mapping::{FieldType, FieldTransform, DefaultValue, is_array_spec};
use crate::numeric::{scale, detect_precision, scale_spec, precision_of_digits, digit_count, abs};
use crate::outside::{lower_of, upper_of, rfc3339_nanos, to_lower, to_upper, parse_rfc3339_nanos};
use crate::text::{
    int_text, unsigned_text, signed_text, decimal_text, float_negative, float_trunc, format_int,
    parse_unsigned, parse_i32, normalize_decimal, float_trunc_capped, find_char, find_char_exec,
    lemma_find_char,
};
use crate::value::{Value, Scalar, is_scalar, same, as_int, int_of, clone_value};

verus! {

/// A field type that a coercion can target: a precision has at most nine
/// digits.
pub open spec fn type_ok(t: FieldType) -> bool {
    match t {
        FieldType::DateTime64 { precision } => precision <= 9,
        FieldType::ArrayDateTime64 { precision } => precision <= 9,
        _ => true,
    }
}

pub open spec fn min_nat(a: nat, b: nat) -> nat {
    if a <= b {
        a
    } else {
        b
    }
}

pub open spec fn clamp_i32(v: int) -> int {
    if v < i32::MIN {
        i32::MIN as int
    } else if v > i32::MAX {
        i32::MAX as int
    } else {
        v
    }
}

/// An integer wrapped into the range of an `i8`, as an `as i8` cast does.
pub open spec fn wrap_i8(v: int) -> int {
    let m = v % 256;
    if m >= 128 {
        m - 256
    } else {
        m
    }
}

/// The text a value takes as a string.
pub open spec fn string_of(v: Value) -> Seq<char> {
    match v {
        Value::Str(s) => s@,
        Value::Int(i) => int_text(i as int),
        Value::UInt(u) => if u <= i64::MAX {
            int_text(u as int)
        } else {
            seq![]
        },
        Value::Float(f) => f@,
        Value::Bool(b) => if b {
            seq!['t', 'r', 'u', 'e']
        } else {
            seq!['f', 'a', 'l', 's', 'e']
        },
        _ => seq![],
    }
}

/// The unsigned integer a value takes, clamped to `[0, max]`.
pub open spec fn uint_of(v: Value, max: nat) -> nat {
    match v {
        Value::Int(i) => if i < 0 {
            0
        } else {
            min_nat(i as nat, max)
        },
        Value::UInt(u) => min_nat(u as nat, max),
        Value::Float(f) => if float_negative(f@) {
            0
        } else {
            min_nat(float_trunc(f@), max)
        },
        Value::Str(s) => match unsigned_text(s@) {
            Some(n) if n <= u64::MAX => min_nat(n, max),
            _ => 0,
        },
        Value::Bool(b) => if b {
            1
        } else {
            0
        },
        _ => 0,
    }
}

/// The 32-bit signed integer a value takes.
pub open spec fn int32_of(v: Value) -> int {
    match v {
        Value::Int(i) => clamp_i32(i as int),
        Value::UInt(u) => clamp_i32(u as int),
        Value::Float(f) => if float_negative(f@) {
            clamp_i32(-float_trunc(f@))
        } else {
            clamp_i32(float_trunc(f@) as int)
        },
        Value::Str(s) => match signed_text(s@) {
            Some(n) if i32::MIN <= n <= i32::MAX => n,
            _ => 0,
        },
        _ => 0,
    }
}

/// The rendering of the float a value takes.
pub open spec fn float_of(v: Value) -> Seq<char> {
    match v {
        Value::Float(f) => f@,
        Value::Int(i) => int_text(i as int),
        Value::UInt(u) => int_text(u as int),
        Value::Str(s) => match decimal_text(s@) {
            Some(t) => t,
            None => seq!['0'],
        },
        _ => seq!['0'],
    }
}

/// The boolean a value takes: `true`, or a string that lower-cases to
/// `true` or `1`, or a nonzero integer.
pub open spec fn bool_of(v: Value) -> bool {
    match v {
        Value::Bool(b) => b,
        Value::Str(s) => lower_of(s@) == seq!['t', 'r', 'u', 'e'] || lower_of(s@) == seq!['1'],
        Value::Int(i) => i != 0,
        Value::UInt(u) => u != 0,
        _ => false,
    }
}

/// The 8-bit code a value takes.
pub open spec fn enum8_of(v: Value) -> int {
    match as_int(v) {
        Some(i) => wrap_i8(i as int),
        None => 0,
    }
}

/// `s` with its first space replaced by `T`.
pub open spec fn first_space_to_t(s: Seq<char>) -> Seq<char> {
    match find_char(s, ' ', 0) {
        Some(i) => s.update(i, 'T'),
        None => s,
    }
}

/// The timestamp a value takes at precision `p`: an integer has its precision
/// inferred from its digit count; a string is read as RFC 3339 (or, failing
/// that, with its first space replaced by `T`) in nanoseconds.
pub open spec fn datetime_of(v: Value, p: nat) -> int {
    match as_int(v) {
        Some(i) => scale_spec(
            i as int,
            precision_of_digits(digit_count(abs(i as int))) as nat,
            p,
        ) as int,
        None => match v {
            Value::Str(s) => match rfc3339_nanos(s@) {
                Some(n) => scale_spec(n as int, 9, p) as int,
                None => match rfc3339_nanos(first_space_to_t(s@)) {
                    Some(n) => scale_spec(n as int, 9, p) as int,
                    None => 0,
                },
            },
            _ => 0,
        },
    }
}

/// The scalar that coercing `v` to `t` gives; `None` when the value passes
/// through unchanged (JSON). An absent value becomes the zero of a numeric
/// or boolean type, and stays absent for the other types (a timestamp
/// included).
pub open spec fn coerce_spec(v: Value, t: FieldType) -> Option<Scalar> {
    if v is Null {
        match t {
            FieldType::UInt8 | FieldType::UInt32 | FieldType::UInt64 => Some(Scalar::UInt(0)),
            FieldType::Int32 | FieldType::Enum8 => Some(Scalar::Int(0)),
            FieldType::Float64 => Some(Scalar::Float(seq!['0'])),
            FieldType::Bool => Some(Scalar::Bool(false)),
            _ => Some(Scalar::Null),
        }
    } else {
        match t {
            FieldType::String => Some(Scalar::Str(string_of(v))),
            FieldType::UInt8 => Some(Scalar::UInt(uint_of(v, u8::MAX as nat))),
            FieldType::UInt32 => Some(Scalar::UInt(uint_of(v, u32::MAX as nat))),
            FieldType::UInt64 => Some(Scalar::UInt(uint_of(v, u64::MAX as nat))),
            FieldType::Int32 => Some(Scalar::Int(int32_of(v))),
            FieldType::Float64 => Some(Scalar::Float(float_of(v))),
            FieldType::Bool => Some(Scalar::Bool(bool_of(v))),
            FieldType::Enum8 => Some(Scalar::Int(enum8_of(v))),
            FieldType::DateTime64 { precision } => Some(
                Scalar::Int(datetime_of(v, precision as nat)),
            ),
            _ => None,
        }
    }
}

/// `r` is what coercing `v` to the type `t` gives. An array type is not a
/// scalar coercion: a present value gives an empty array (arrays are coerced
/// element by element elsewhere).
pub open spec fn coerces(v: Value, t: FieldType, r: Value) -> bool {
    if is_array_spec(t) && !(v is Null) {
        r matches Value::Array(a) && a@.len() == 0
    } else {
        match coerce_spec(v, t) {
            Some(s) => is_scalar(r, s),
            None => same(v, r),
        }
    }
}

/// The unsigned integer a present value takes, clamped to `[0, max]`.
fn coerce_uint(v: &Value, max: u64) -> (r: u64)
    requires
        !(*v is Null),
    ensures
        r as nat == uint_of(*v, max as nat),
{
    match v {
        Value::Int(i) => if *i < 0 {
            0
        } else if (*i as u64) < max {
            *i as u64
        } else {
            max
        },
        Value::UInt(u) => if *u < max {
            *u
        } else {
            max
        },
        Value::Float(f) => {
            let (neg, m) = float_trunc_capped(f.as_str(), max);
            if neg {
                0
            } else {
                m
            }
        },
        Value::Str(s) => match parse_unsigned(s.as_str(), u64::MAX) {
            Some(n) => if n < max {
                n
            } else {
                max
            },
            None => 0,
        },
        Value::Bool(b) => if *b {
            1
        } else {
            0
        },
        _ => 0,
    }
}

/// The 32-bit signed integer a value takes.
fn coerce_int32(v: &Value) -> (r: i32)
    ensures
        r as int == int32_of(*v),
{
    match v {
        Value::Int(i) => if *i < i32::MIN as i64 {
            i32::MIN
        } else if *i > i32::MAX as i64 {
            i32::MAX
        } else {
            *i as i32
        },
        Value::UInt(u) => if *u > i32::MAX as u64 {
            i32::MAX
        } else {
            *u as i32
        },
        Value::Float(f) => {
            let (neg, m) = float_trunc_capped(f.as_str(), 2147483648);
            if neg {
                (-(m as i64)) as i32
            } else if m > 2147483647 {
                i32::MAX
            } else {
                m as i32
            }
        },
        Value::Str(s) => match parse_i32(s.as_str()) {
            Some(n) => n,
            None => 0,
        },
        _ => 0,
    }
}

/// The rendering of the float a value takes.
fn coerce_float64(v: &Value) -> (r: String)
    ensures
        r@ == float_of(*v),
{
    proof {
        reveal_strlit("0");
        assert("0"@ =~= seq!['0']);
    }
    match v {
        Value::Float(f) => f.clone(),
        Value::Int(i) => format_int(*i),
        Value::UInt(u) => if *u <= i64::MAX as u64 {
            format_int(*u as i64)
        } else {
            format_uint_large(*u)
        },
        Value::Str(s) => match normalize_decimal(s.as_str()) {
            Some(t) => t,
            None => String::from_str("0"),
        },
        _ => String::from_str("0"),
    }
}

/// The decimal rendering of an unsigned integer above `i64::MAX`.
fn format_uint_large(u: u64) -> (r: String)
    requires
        u > i64::MAX,
    ensures
        r@ == int_text(u as int),
{
    let head = format_int((u / 10) as i64);
    let tail = format_int((u % 10) as i64);
    proof {
        assert(int_text((u / 10) as int) == crate::text::nat_text((u / 10) as nat));
        assert(int_text((u % 10) as int) == crate::text::nat_text((u % 10) as nat));
        assert(crate::text::nat_text((u % 10) as nat) == seq![crate::text::digit_char((u % 10) as nat)]);
    }
    head.concat(tail.as_str())
}

/// The boolean a value takes.
fn coerce_bool(v: &Value) -> (r: bool)
    ensures
        r == bool_of(*v),
{
    match v {
        Value::Bool(b) => *b,
        Value::Str(s) => {
            let lower = to_lower(s.as_str());
            proof {
                reveal_strlit("true");
                reveal_strlit("1");
                assert("true"@ =~= seq!['t', 'r', 'u', 'e']);
                assert("1"@ =~= seq!['1']);
            }
            crate::value::str_eq(lower.as_str(), "true") || crate::value::str_eq(lower.as_str(), "1")
        },
        Value::Int(i) => *i != 0,
        Value::UInt(u) => *u != 0,
        _ => false,
    }
}

/// The 8-bit code a value takes.
fn coerce_enum8(v: &Value) -> (r: i8)
    ensures
        r as int == enum8_of(*v),
{
    match int_of(v) {
        Some(i) => {
            let w: i128 = (i as i128) + 9223372036854775808;
            let m: i128 = w % 256;
            proof {
                assert(m == (i as int) % 256) by (nonlinear_arith)
                    requires w == i + 9223372036854775808, m == w % 256, w >= 0;
            }
            if m >= 128 {
                (m - 256) as i8
            } else {
                m as i8
            }
        },
        None => 0,
    }
}

/// `s` with its first space replaced by `T`.
fn replace_first_space(s: &str) -> (r: String)
    ensures
        r@ == first_space_to_t(s@),
{
    proof {
        lemma_find_char(s@, ' ', 0);
        reveal_strlit("T");
    }
    match find_char_exec(s, ' ', 0) {
        Some(i) => {
            let n = s.unicode_len();
            let mut out = String::from_str(s.substring_char(0, i));
            out.append("T");
            out.append(s.substring_char(i + 1, n));
            proof {
                assert(out@ =~= s@.update(i as int, 'T'));
            }
            out
        },
        None => String::from_str(s),
    }
}

/// The timestamp a value takes at the given precision.
fn coerce_datetime64(v: &Value, precision: u8) -> (r: i64)
    requires
        precision <= 9,
    ensures
        r as int == datetime_of(*v, precision as nat),
{
    match int_of(v) {
        Some(i) => scale(i, detect_precision(i), precision),
        None => match v {
            Value::Str(s) => match parse_rfc3339_nanos(s.as_str()) {
                Some(n) => scale(n, 9, precision),
                None => {
                    let t = replace_first_space(s.as_str());
                    match parse_rfc3339_nanos(t.as_str()) {
                        Some(n) => scale(n, 9, precision),
                        None => 0,
                    }
                },
            },
            _ => 0,
        },
    }
}

/// The text a value takes as a string.
fn coerce_string(v: &Value) -> (r: String)
    ensures
        r@ == string_of(*v),
{
    proof {
        reveal_strlit("true");
        reveal_strlit("false");
        reveal_strlit("");
        assert("true"@ =~= seq!['t', 'r', 'u', 'e']);
        assert("false"@ =~= seq!['f', 'a', 'l', 's', 'e']);
        assert(""@ =~= Seq::<char>::empty());
    }
    match v {
        Value::Str(s) => s.clone(),
        Value::Int(i) => format_int(*i),
        Value::UInt(u) => if *u <= i64::MAX as u64 {
            format_int(*u as i64)
        } else {
            String::from_str("")
        },
        Value::Float(f) => f.clone(),
        Value::Bool(b) => if *b {
            String::from_str("true")
        } else {
            String::from_str("false")
        },
        _ => String::from_str(""),
    }
}

/// Coerces a value to a scalar field type. An absent value becomes the zero
/// of a numeric or boolean type and stays absent otherwise; a present value
/// is converted by the rules of the type, falling back to its zero.
pub fn coerce(value: &Value, field_type: &FieldType) -> (r: Value)
    requires
        type_ok(*field_type),
    ensures
        coerces(*value, *field_type, r),
{
    proof {
        reveal_strlit("0");
        reveal_strlit("true");
        reveal_strlit("false");
        reveal_strlit("");
        assert("0"@ =~= seq!['0']);
        assert("true"@ =~= seq!['t', 'r', 'u', 'e']);
        assert("false"@ =~= seq!['f', 'a', 'l', 's', 'e']);
        assert(""@ =~= Seq::<char>::empty());
    }
    if let Value::Null = value {
        return match field_type {
            FieldType::UInt8 | FieldType::UInt32 | FieldType::UInt64 => Value::UInt(0),
            FieldType::Int32 | FieldType::Enum8 => Value::Int(0),
            FieldType::Float64 => Value::Float(String::from_str("0")),
            FieldType::Bool => Value::Bool(false),
            _ => Value::Null,
        };
    }
    match field_type {
        FieldType::String => Value::Str(coerce_string(value)),
        FieldType::UInt8 => Value::UInt(coerce_uint(value, 255)),
        FieldType::UInt32 => Value::UInt(coerce_uint(value, 4294967295)),
        FieldType::UInt64 => Value::UInt(coerce_uint(value, u64::MAX)),
        FieldType::Int32 => Value::Int(coerce_int32(value) as i64),
        FieldType::Float64 => Value::Float(coerce_float64(value)),
        FieldType::Bool => Value::Bool(coerce_bool(value)),
        FieldType::Enum8 => Value::Int(coerce_enum8(value) as i64),
        FieldType::DateTime64 { precision } => Value::Int(coerce_datetime64(value, *precision)),
        FieldType::Json => clone_value(value),
        _ => Value::Array(Vec::new()),
    }
}

/// The scalar type of an array type's elements, for the array types whose
/// elements are coerced.
pub open spec fn inner_spec(t: FieldType) -> Option<FieldType> {
    match t {
        FieldType::ArrayString => Some(FieldType::String),
        FieldType::ArrayUInt64 => Some(FieldType::UInt64),
        FieldType::ArrayFloat64 => Some(FieldType::Float64),
        FieldType::ArrayDateTime64 { precision } => Some(FieldType::DateTime64 { precision }),
        _ => None,
    }
}

/// Maps an array field type to the scalar type its elements are coerced to.
pub fn array_inner_type(field_type: &FieldType) -> (r: Option<FieldType>)
    ensures
        r == inner_spec(*field_type),
{
    match field_type {
        FieldType::ArrayString => Some(FieldType::String),
        FieldType::ArrayUInt64 => Some(FieldType::UInt64),
        FieldType::ArrayFloat64 => Some(FieldType::Float64),
        FieldType::ArrayDateTime64 { precision } => Some(FieldType::DateTime64 { precision: *precision }),
        _ => None,
    }
}

/// `r` is what an absent element of an array of type `t` becomes when absent
/// elements are kept: the element type's zero, or an empty object.
pub open spec fn is_nil_element(t: FieldType, r: Value) -> bool {
    match t {
        FieldType::ArrayString => is_scalar(r, Scalar::Str(seq![])),
        FieldType::ArrayFloat64 => is_scalar(r, Scalar::Float(seq!['0'])),
        FieldType::ArrayDateTime64 { .. } => is_scalar(r, Scalar::Int(0)),
        FieldType::ArrayJson | FieldType::ArrayMap => r matches Value::Object(e) && e@.len() == 0,
        _ => is_scalar(r, Scalar::UInt(0)),
    }
}

/// The value an absent array element becomes when absent elements are kept.
pub fn array_nil_value(field_type: &FieldType) -> (r: Value)
    ensures
        is_nil_element(*field_type, r),
{
    proof {
        reveal_strlit("");
        reveal_strlit("0");
        assert(""@ =~= Seq::<char>::empty());
        assert("0"@ =~= seq!['0']);
    }
    match field_type {
        FieldType::ArrayString => Value::Str(String::from_str("")),
        FieldType::ArrayFloat64 => Value::Float(String::from_str("0")),
        FieldType::ArrayDateTime64 { .. } => Value::Int(0),
        FieldType::ArrayJson | FieldType::ArrayMap => Value::Object(Vec::new()),
        _ => Value::UInt(0),
    }
}

/// `b` is what coercing the elements `a` of an array of type `t` gives: an
/// absent element is dropped (`filter_nil`) or becomes the type's zero; an
/// array of maps keeps its objects only; an array of JSON keeps its elements
/// as they are; the other arrays coerce each element to their scalar type.
pub open spec fn coerces_elements(a: Seq<Value>, t: FieldType, filter_nil: bool, b: Seq<Value>) -> bool
    decreases a.len(),
{
    if a.len() == 0 {
        b.len() == 0
    } else {
        let x = a.last();
        let rest = a.drop_last();
        if x is Null {
            if filter_nil {
                coerces_elements(rest, t, filter_nil, b)
            } else {
                b.len() > 0 && coerces_elements(rest, t, filter_nil, b.drop_last()) && is_nil_element(
                    t,
                    b.last(),
                )
            }
        } else if t == FieldType::ArrayMap {
            if x is Object {
                b.len() > 0 && coerces_elements(rest, t, filter_nil, b.drop_last()) && same(
                    x,
                    b.last(),
                )
            } else {
                coerces_elements(rest, t, filter_nil, b)
            }
        } else {
            b.len() > 0 && coerces_elements(rest, t, filter_nil, b.drop_last()) && match inner_spec(t) {
                Some(inner) => coerces(x, inner, b.last()),
                None => same(x, b.last()),
            }
        }
    }
}

/// `r` is what coercing `v` to the array type `t` gives: an array built by
/// `coerces_elements`, and an empty array for a value that is not an array.
pub open spec fn coerces_array(v: Value, t: FieldType, filter_nil: bool, r: Value) -> bool {
    match r {
        Value::Array(b) => match v {
            Value::Array(a) => coerces_elements(a@, t, filter_nil, b@),
            _ => b@.len() == 0,
        },
        _ => false,
    }
}

/// Coerces a value to an array type, element by element.
pub fn coerce_array(value: &Value, field_type: &FieldType, filter_nil: bool) -> (r: Value)
    requires
        type_ok(*field_type),
    ensures
        coerces_array(*value, *field_type, filter_nil, r),
{
    let a = match value {
        Value::Array(a) => a,
        _ => {
            return Value::Array(Vec::new());
        },
    };
    let inner = array_inner_type(field_type);
    let mut out: Vec<Value> = Vec::new();
    let mut i: usize = 0;
    while i < a.len()
        invariant
            *value == Value::Array(*a),
            inner == inner_spec(*field_type),
            type_ok(*field_type),
            i <= a@.len(),
            coerces_elements(a@.subrange(0, i as int), *field_type, filter_nil, out@),
        decreases a.len() - i,
    {
        let x = &a[i];
        let ghost pre = a@.subrange(0, i as int);
        let ghost old_out = out@;
        proof {
            assert(a@.subrange(0, i + 1).drop_last() == pre);
            assert(a@.subrange(0, i + 1).last() == *x);
        }
        if let Value::Null = x {
            if !filter_nil {
                out.push(array_nil_value(field_type));
                proof {
                    assert(out@.drop_last() == old_out);
                }
            }
        } else if *field_type == FieldType::ArrayMap {
            if let Value::Object(_) = x {
                out.push(clone_value(x));
                proof {
                    assert(out@.drop_last() == old_out);
                }
            }
        } else {
            let y = match inner {
                Some(t) => coerce(x, &t),
                None => clone_value(x),
            };
            out.push(y);
            proof {
                assert(out@.drop_last() == old_out);
            }
        }
        i = i + 1;
    }
    proof {
        assert(a@.subrange(0, a@.len() as int) == a@);
    }
    Value::Array(out)
}

/// `r` is `v` with the transform applied: a string is upper- or lower-cased,
/// any other value passes unchanged.
pub open spec fn transforms(v: Value, t: FieldTransform, r: Value) -> bool {
    match v {
        Value::Str(s) => match t {
            FieldTransform::Upcase => is_scalar(r, Scalar::Str(upper_of(s@))),
            FieldTransform::Downcase => is_scalar(r, Scalar::Str(lower_of(s@))),
        },
        _ => same(v, r),
    }
}

/// Applies a case transform to a string value.
pub fn apply_transform(value: &Value, transform: &FieldTransform) -> (r: Value)
    ensures
        transforms(*value, *transform, r),
{
    match value {
        Value::Str(s) => match transform {
            FieldTransform::Upcase => Value::Str(to_upper(s.as_str())),
            FieldTransform::Downcase => Value::Str(to_lower(s.as_str())),
        },
        _ => clone_value(value),
    }
}

/// `r` is the value of a default.
pub open spec fn is_default(d: DefaultValue, r: Value) -> bool {
    match d {
        DefaultValue::Nil => r is Null,
        DefaultValue::Str(s) => is_scalar(r, Scalar::Str(s@)),
        DefaultValue::Int(i) => is_scalar(r, Scalar::Int(i as int)),
        DefaultValue::Uint(u) => is_scalar(r, Scalar::UInt(u as nat)),
        DefaultValue::Flt(f) => is_scalar(r, Scalar::Float(f@)),
        DefaultValue::Bool(b) => is_scalar(r, Scalar::Bool(b)),
        DefaultValue::EmptyList => r matches Value::Array(a) && a@.len() == 0,
        DefaultValue::EmptyMap => r matches Value::Object(e) && e@.len() == 0,
    }
}

/// The value of a default.
pub fn encode_default(default: &DefaultValue) -> (r: Value)
    ensures
        is_default(*default, r),
{
    match default {
        DefaultValue::Nil => Value::Null,
        DefaultValue::Str(s) => Value::Str(s.clone()),
        DefaultValue::Int(i) => Value::Int(*i),
        DefaultValue::Uint(u) => Value::UInt(*u),
        DefaultValue::Flt(f) => Value::Float(f.clone()),
        DefaultValue::Bool(b) => Value::Bool(*b),
        DefaultValue::EmptyList => Value::Array(Vec::new()),
        DefaultValue::EmptyMap => Value::Object(Vec::new()),
    }
}

/// The entry stored under `key`, the first one with it.
pub open spec fn lookup<V>(m: Seq<(String, V)>, key: Seq<char>) -> Option<V>
    decreases m.len(),
{
    if m.len() == 0 {
        None
    } else if m[0].0@ == key {
        Some(m[0].1)
    } else {
        lookup(m.drop_first(), key)
    }
}

/// What a case-insensitive lookup of `v` finds: a string is lower-cased and
/// looked up among the (lower-cased) keys; any other value finds nothing.
pub open spec fn lookup_folded<V>(m: Seq<(String, V)>, v: Value) -> Option<V> {
    match v {
        Value::Str(s) => lookup(m, lower_of(s@)),
        _ => None,
    }
}

/// Looks up `key` among the entries.
pub fn get_key<V: Copy>(m: &Vec<(String, V)>, key: &str) -> (r: Option<V>)
    ensures
        r == lookup(m@, key@),
{
    let mut i: usize = 0;
    proof {
        assert(m@.subrange(0, m@.len() as int) == m@);
    }
    while i < m.len()
        invariant
            i <= m@.len(),
            lookup(m@, key@) == lookup(m@.subrange(i as int, m@.len() as int), key@),
        decreases m.len() - i,
    {
        proof {
            let t = m@.subrange(i as int, m@.len() as int);
            assert(t[0] == m@[i as int]);
            assert(t.drop_first() == m@.subrange(i + 1, m@.len() as int));
        }
        if crate::value::str_eq(m[i].0.as_str(), key) {
            return Some(m[i].1);
        }
        i = i + 1;
    }
    None
}

/// Looks up a string value case-insensitively among lower-cased keys.
pub fn case_insensitive_get<V: Copy>(map: &Vec<(String, V)>, value: &Value) -> (r: Option<V>)
    ensures
        r == lookup_folded(map@, *value),
{
    match value {
        Value::Str(s) => {
            let lowered = to_lower(s.as_str());
            get_key(map, lowered.as_str())
        },
        _ => None,
    }
}

/// `r` is what a value map makes of `v`: the code of the lower-cased string,
/// or `Null` when the value is absent, not a known string, or the map is
/// empty.
pub open spec fn value_mapped(v: Value, m: Seq<(String, i64)>, r: Value) -> bool {
    match lookup_folded(m, v) {
        Some(code) => is_scalar(r, Scalar::Int(code as int)),
        None => r is Null,
    }
}

/// Maps a string to its code through a value map.
pub fn apply_value_map(value: &Value, map: &Vec<(String, i64)>) -> (r: Value)
    ensures
        value_mapped(*value, map@, r),
{
    match case_insensitive_get(map, value) {
        Some(code) => Value::Int(code),
        None => Value::Null,
    }
}

} // verus!

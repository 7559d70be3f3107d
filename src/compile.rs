//! Compilation of a mapping configuration (itself a document value) into a
//! checked plan.

use vstd::prelude::*;
use crate::coerce::{lookup, type_ok, get_key};
use crate::mapper::field_wf;
use crate::mapping::{
    CompiledField, CompiledMapping, DefaultValue, Enum8Data, FieldTransform, FieldType, InferCondition,
    InferRule, PathSource, PickEntry, Predicate, PredicateValue,
};
use crate::outside::{lower_of, to_lower};
use crate::path::{parse, parse_spec, PathSegment, Seg, segs_view};
use crate::query::paths_view;
use crate::text::{decimal_text, normalize_decimal};
use crate::value::{Value, object_get, get_entry, str_eq};

verus! {

/// The value stored under `key` in a configuration object; an explicit null
/// counts as absent.
pub open spec fn config_get(v: Value, key: Seq<char>) -> Option<Value> {
    match v {
        Value::Object(es) => match object_get(es@, key) {
            Some(x) => if x is Null {
                None
            } else {
                Some(x)
            },
            None => None,
        },
        _ => None,
    }
}

/// The string stored under `key`, if a string is stored there.
pub open spec fn config_str(v: Value, key: Seq<char>) -> Option<Seq<char>> {
    match config_get(v, key) {
        Some(Value::Str(s)) => Some(s@),
        _ => None,
    }
}

/// Reads the value stored under `key` in a configuration object.
pub fn get_term_key<'a>(map: &'a Value, key: &str) -> (r: Option<&'a Value>)
    ensures
        match config_get(*map, key@) {
            Some(x) => r == Some(&x),
            None => r is None,
        },
{
    match map {
        Value::Object(es) => match get_entry(es, key) {
            Some(x) => match x {
                Value::Null => None,
                _ => Some(x),
            },
            None => None,
        },
        _ => None,
    }
}

/// Reads the string stored under `key`; `None` when there is none or it is
/// not a string.
pub fn get_string_key<'a>(map: &'a Value, key: &str) -> (r: Option<&'a String>)
    ensures
        match config_str(*map, key@) {
            Some(s) => r matches Some(x) && x@ == s,
            None => r is None,
        },
{
    match get_term_key(map, key) {
        Some(Value::Str(s)) => Some(s),
        _ => None,
    }
}

/// Reads the integer stored under `key`.
pub fn get_int_key(map: &Value, key: &str) -> (r: Option<i64>)
    ensures
        r == match config_get(*map, key@) {
            Some(Value::Int(i)) => Some(i),
            _ => None,
        },
{
    match get_term_key(map, key) {
        Some(Value::Int(i)) => Some(*i),
        _ => None,
    }
}

/// The field type a (lower-cased) type name denotes, with the precision of a
/// timestamp; `None` for an unknown name or a precision outside 0..=9.
pub open spec fn field_type_of(name: Seq<char>, precision: i64) -> Option<FieldType> {
    if name == "string"@ {
        Some(FieldType::String)
    } else if name == "uint8"@ {
        Some(FieldType::UInt8)
    } else if name == "uint32"@ {
        Some(FieldType::UInt32)
    } else if name == "uint64"@ {
        Some(FieldType::UInt64)
    } else if name == "int32"@ {
        Some(FieldType::Int32)
    } else if name == "float64"@ {
        Some(FieldType::Float64)
    } else if name == "bool"@ || name == "boolean"@ {
        Some(FieldType::Bool)
    } else if name == "enum8"@ {
        Some(FieldType::Enum8)
    } else if name == "json"@ {
        Some(FieldType::Json)
    } else if name == "datetime64"@ {
        if 0 <= precision <= 9 {
            Some(FieldType::DateTime64 { precision: precision as u8 })
        } else {
            None
        }
    } else {
        None
    }
}

/// The precision a field asks for: its `precision` key, 9 when absent.
pub open spec fn precision_of(field: Value) -> i64 {
    match config_get(field, "precision"@) {
        Some(Value::Int(i)) => i,
        _ => 9,
    }
}

/// The type a field configuration declares: its lower-cased `type` key,
/// `string` when absent.
pub open spec fn declared_type(field: Value) -> Option<FieldType> {
    match config_str(field, "type"@) {
        Some(t) => field_type_of(lower_of(t), precision_of(field)),
        None => field_type_of("string"@, precision_of(field)),
    }
}

/// Reads a field's type from its (lower-cased) type name.
pub fn parse_field_type(field: &Value, name: &str) -> (r: Result<FieldType, String>)
    ensures
        match field_type_of(name@, precision_of(*field)) {
            Some(t) => r == Ok::<FieldType, String>(t),
            None => r is Err,
        },
{
    if str_eq(name, "string") {
        Ok(FieldType::String)
    } else if str_eq(name, "uint8") {
        Ok(FieldType::UInt8)
    } else if str_eq(name, "uint32") {
        Ok(FieldType::UInt32)
    } else if str_eq(name, "uint64") {
        Ok(FieldType::UInt64)
    } else if str_eq(name, "int32") {
        Ok(FieldType::Int32)
    } else if str_eq(name, "float64") {
        Ok(FieldType::Float64)
    } else if str_eq(name, "bool") || str_eq(name, "boolean") {
        Ok(FieldType::Bool)
    } else if str_eq(name, "enum8") {
        Ok(FieldType::Enum8)
    } else if str_eq(name, "json") {
        Ok(FieldType::Json)
    } else if str_eq(name, "datetime64") {
        let precision = match get_int_key(field, "precision") {
            Some(p) => p,
            None => 9,
        };
        if precision < 0 || precision > 9 {
            return Err(message("precision must be between 0 and 9: ", name));
        }
        Ok(FieldType::DateTime64 { precision: precision as u8 })
    } else {
        Err(message("unknown field type: ", name))
    }
}

/// An error message: `prefix` followed by `detail`.
pub fn message(prefix: &str, detail: &str) -> (r: String)
    ensures
        r@ == prefix@ + detail@,
{
    let mut m = String::from_str(prefix);
    m.append(detail);
    m
}

/// The value stored under `key`, an explicit null included.
pub open spec fn config_raw(v: Value, key: Seq<char>) -> Option<Value> {
    match v {
        Value::Object(es) => object_get(es@, key),
        _ => None,
    }
}

/// Whether `d` is the default that a field configuration declares for a
/// field of type `t`: none gives null (an empty object for JSON); a boolean,
/// an integer (non-negative ones unsigned), a float and a string stand for
/// themselves, except that `{}` and `[]` give an empty object and array; an
/// object or array literal gives an empty one.
///
/// Open question: collapsing a non-empty object or array literal to an empty
/// one discards its content. It is kept as the configuration format has
/// always read it, pending a decision on whether literal contents should be
/// carried over.
pub open spec fn default_of(field: Value, t: FieldType, d: DefaultValue) -> bool {
    match config_raw(field, "default"@) {
        None => if t == FieldType::Json {
            d is EmptyMap
        } else {
            d is Nil
        },
        Some(v) => match v {
            Value::Null => d is Nil,
            Value::Bool(b) => d == DefaultValue::Bool(b),
            Value::Int(i) => if i >= 0 {
                d == DefaultValue::Uint(i as u64)
            } else {
                d == DefaultValue::Int(i)
            },
            Value::UInt(u) => d == DefaultValue::Uint(u),
            Value::Float(f) => d matches DefaultValue::Flt(g) && g@ == f@,
            Value::Str(s) => if s@ == "{}"@ {
                d is EmptyMap
            } else if s@ == "[]"@ {
                d is EmptyList
            } else {
                d matches DefaultValue::Str(g) && g@ == s@
            },
            Value::Object(_) => d is EmptyMap,
            Value::Array(_) => d is EmptyList,
        },
    }
}

/// Reads a field's default.
pub fn decode_default(field: &Value, t: &FieldType) -> (r: DefaultValue)
    ensures
        default_of(*field, *t, r),
{
    let raw = match field {
        Value::Object(es) => get_entry(es, "default"),
        _ => None,
    };
    match raw {
        None => if *t == FieldType::Json {
            DefaultValue::EmptyMap
        } else {
            DefaultValue::Nil
        },
        Some(v) => match v {
            Value::Null => DefaultValue::Nil,
            Value::Bool(b) => DefaultValue::Bool(*b),
            Value::Int(i) => if *i >= 0 {
                DefaultValue::Uint(*i as u64)
            } else {
                DefaultValue::Int(*i)
            },
            Value::UInt(u) => DefaultValue::Uint(*u),
            Value::Float(f) => DefaultValue::Flt(f.clone()),
            Value::Str(s) => if str_eq(s.as_str(), "{}") {
                DefaultValue::EmptyMap
            } else if str_eq(s.as_str(), "[]") {
                DefaultValue::EmptyList
            } else {
                DefaultValue::Str(s.clone())
            },
            Value::Object(_) => DefaultValue::EmptyMap,
            Value::Array(_) => DefaultValue::EmptyList,
        },
    }
}

/// The transform a field configuration asks for: none, or the lower-cased
/// `transform` key naming one; `Err` for another name.
pub open spec fn transform_of(field: Value) -> Result<Option<FieldTransform>, ()> {
    match config_str(field, "transform"@) {
        None => Ok(None),
        Some(t) => if lower_of(t) == "upcase"@ {
            Ok(Some(FieldTransform::Upcase))
        } else if lower_of(t) == "downcase"@ {
            Ok(Some(FieldTransform::Downcase))
        } else {
            Err(())
        },
    }
}

/// Reads a field's transform.
pub fn decode_transform(field: &Value) -> (r: Result<Option<FieldTransform>, String>)
    ensures
        match transform_of(*field) {
            Ok(t) => r == Ok::<Option<FieldTransform>, String>(t),
            Err(_) => r is Err,
        },
{
    match get_string_key(field, "transform") {
        None => Ok(None),
        Some(s) => {
            let t = to_lower(s.as_str());
            if str_eq(t.as_str(), "upcase") {
                Ok(Some(FieldTransform::Upcase))
            } else if str_eq(t.as_str(), "downcase") {
                Ok(Some(FieldTransform::Downcase))
            } else {
                Err(message("unknown transform: ", t.as_str()))
            }
        },
    }
}

/// The texts of a list of strings; `None` for anything else.
pub open spec fn string_list(v: Value) -> Option<Seq<Seq<char>>> {
    match v {
        Value::Array(a) => if forall|i: int| 0 <= i < a@.len() ==> (#[trigger] a@[i]) is Str {
            Some(a@.map_values(|x: Value| x->Str_0@))
        } else {
            None
        },
        _ => None,
    }
}

pub open spec fn texts(v: Seq<String>) -> Seq<Seq<char>> {
    v.map_values(|s: String| s@)
}

/// Reads a list of strings.
pub fn string_list_exec(v: &Value) -> (r: Option<Vec<String>>)
    ensures
        match string_list(*v) {
            Some(l) => r matches Some(x) && texts(x@) == l,
            None => r is None,
        },
{
    let a = match v {
        Value::Array(a) => a,
        _ => {
            return None;
        },
    };
    let mut out: Vec<String> = Vec::new();
    let mut i: usize = 0;
    while i < a.len()
        invariant
            *v == Value::Array(*a),
            i <= a@.len(),
            out@.len() == i,
            forall|k: int| 0 <= k < i ==> (#[trigger] a@[k]) is Str && out@[k]@ == a@[k]->Str_0@,
        decreases a.len() - i,
    {
        match &a[i] {
            Value::Str(s) => {
                out.push(s.clone());
            },
            _ => {
                return None;
            },
        }
        i = i + 1;
    }
    proof {
        assert(texts(out@) =~= a@.map_values(|x: Value| x->Str_0@));
    }
    Some(out)
}

/// The strings listed under `key`; empty when the key is absent or does not
/// hold a list of strings.
pub open spec fn string_list_at(field: Value, key: Seq<char>) -> Seq<Seq<char>> {
    match config_get(field, key) {
        Some(v) => match string_list(v) {
            Some(l) => l,
            None => seq![],
        },
        None => seq![],
    }
}

/// Reads the strings listed under `key`.
pub fn decode_string_list(field: &Value, key: &str) -> (r: Vec<String>)
    ensures
        texts(r@) == string_list_at(*field, key@),
{
    match get_term_key(field, key) {
        Some(v) => match string_list_exec(v) {
            Some(l) => l,
            None => {
                let e: Vec<String> = Vec::new();
                proof {
                    assert(texts(e@) =~= Seq::<Seq<char>>::empty());
                }
                e
            },
        },
        None => {
            let e: Vec<String> = Vec::new();
            proof {
                assert(texts(e@) =~= Seq::<Seq<char>>::empty());
            }
            e
        },
    }
}

/// The code the last entry with lower-cased key `k` holds, when it holds an
/// integer.
pub open spec fn last_code(es: Seq<(String, Value)>, k: Seq<char>) -> Option<i64>
    decreases es.len(),
{
    if es.len() == 0 {
        None
    } else if lower_of(es.last().0@) == k {
        match es.last().1 {
            Value::Int(i) => Some(i),
            _ => None,
        }
    } else {
        last_code(es.drop_last(), k)
    }
}

/// Whether every entry of a name-to-code object holds an integer.
pub open spec fn codes_ok(es: Seq<(String, Value)>) -> bool {
    forall|i: int| 0 <= i < es.len() ==> (#[trigger] es[i]).1 is Int
}

proof fn lemma_last_code_prepend(x: (String, Value), s: Seq<(String, Value)>, k: Seq<char>)
    requires
        codes_ok(s),
    ensures
        last_code(seq![x] + s, k) == match last_code(s, k) {
            Some(v) => Some(v),
            None => if lower_of(x.0@) == k {
                match x.1 {
                    Value::Int(i) => Some(i),
                    _ => None,
                }
            } else {
                None
            },
        },
        x.1 is Int ==> codes_ok(seq![x] + s),
    decreases s.len(),
{
    if s.len() > 0 {
        assert(codes_ok(s.drop_last())) by {
            assert forall|i: int| 0 <= i < s.drop_last().len() implies (#[trigger] s.drop_last()[i]).1 is Int by {
                assert(s.drop_last()[i] == s[i]);
            }
        }
    }
    if s.len() == 0 {
        assert(seq![x] + s == seq![x]);
        assert(seq![x].drop_last() == Seq::<(String, Value)>::empty());
        assert(seq![x].last() == x);
        assert(last_code(Seq::<(String, Value)>::empty(), k) is None);
        assert(last_code(s, k) is None);
    } else {
        assert((seq![x] + s).drop_last() == seq![x] + s.drop_last());
        assert((seq![x] + s).last() == s.last());
        lemma_last_code_prepend(x, s.drop_last(), k);
        let t = seq![x] + s;
        if lower_of(s.last().0@) == k {
            assert(last_code(t, k) == last_code(s, k));
        } else {
            assert(last_code(t, k) == last_code(t.drop_last(), k));
            assert(last_code(s, k) == last_code(s.drop_last(), k));
        }
        if codes_ok(s) && x.1 is Int {
            assert(codes_ok(s.drop_last())) by {
                assert forall|i: int| 0 <= i < s.drop_last().len() implies (#[trigger] s.drop_last()[i]).1 is Int by {
                    assert(s.drop_last()[i] == s[i]);
                }
            }
            let t = seq![x] + s;
            assert forall|i: int| 0 <= i < t.len() implies (#[trigger] t[i]).1 is Int by {
                if i > 0 {
                    assert(t[i] == s[i - 1]);
                }
            }
        }
    }
}

proof fn lemma_lookup_push<V>(acc: Seq<(String, V)>, e: (String, V), k: Seq<char>)
    ensures
        lookup(acc.push(e), k) == match lookup(acc, k) {
            Some(v) => Some(v),
            None => if e.0@ == k {
                Some(e.1)
            } else {
                None
            },
        },
    decreases acc.len(),
{
    if acc.len() > 0 {
        assert(acc.push(e).drop_first() == acc.drop_first().push(e));
        assert(acc.push(e)[0] == acc[0]);
        lemma_lookup_push(acc.drop_first(), e, k);
    } else {
        assert(acc.push(e).drop_first() == Seq::<(String, V)>::empty());
        assert(acc.push(e)[0] == e);
        assert(lookup(Seq::<(String, V)>::empty(), k) is None);
        assert(lookup(acc, k) is None);
    }
}

/// Reads an object of names to integer codes; names are lower-cased, and of
/// two entries whose names fold alike the later wins. `Err` where a code is
/// not an integer.
pub fn decode_string_int_map(es: &Vec<(String, Value)>) -> (r: Result<Vec<(String, i64)>, String>)
    ensures
        r is Ok <==> codes_ok(es@),
        r matches Ok(m) ==> forall|k: Seq<char>| #[trigger] lookup(m@, k) == last_code(es@, k),
{
    let mut acc: Vec<(String, i64)> = Vec::new();
    let n = es.len();
    let mut i: usize = n;
    proof {
        assert(es@.subrange(n as int, n as int).len() == 0);
    }
    while i > 0
        invariant
            i <= n == es@.len(),
            codes_ok(es@.subrange(i as int, n as int)),
            forall|k: Seq<char>| #[trigger] lookup(acc@, k) == last_code(es@.subrange(i as int, n as int), k),
        decreases i,
    {
        let j = i - 1;
        let ghost old_suffix = es@.subrange(i as int, n as int);
        proof {
            assert(es@.subrange(j as int, n as int) == seq![es@[j as int]] + old_suffix);
        }
        let code = match &es[j].1 {
            Value::Int(c) => *c,
            _ => {
                proof {
                    let t = es@;
                    assert(!(t[j as int].1 is Int));
                }
                return Err(message("value map codes must be integers: ", es[j].0.as_str()));
            },
        };
        let key = to_lower(es[j].0.as_str());
        let ghost old_acc = acc@;
        if get_key(&acc, key.as_str()).is_none() {
            let ghost kv = key@;
            acc.push((key, code));
            proof {
                assert forall|k: Seq<char>| #[trigger] lookup(acc@, k) == last_code(es@.subrange(j as int, n as int), k) by {
                    lemma_lookup_push(old_acc, acc@.last(), k);
                    lemma_last_code_prepend(es@[j as int], old_suffix, k);
                    assert(acc@ == old_acc.push(acc@.last()));
                }
            }
        } else {
            proof {
                assert forall|k: Seq<char>| #[trigger] lookup(acc@, k) == last_code(es@.subrange(j as int, n as int), k) by {
                    lemma_last_code_prepend(es@[j as int], old_suffix, k);
                }
            }
        }
        proof {
            lemma_last_code_prepend(es@[j as int], old_suffix, seq![]);
        }
        i = j;
    }
    proof {
        assert(es@.subrange(0, n as int) == es@);
    }
    Ok(acc)
}

/// Whether every text is a path that parses.
pub open spec fn all_parse(l: Seq<Seq<char>>) -> bool {
    forall|i: int| 0 <= i < l.len() ==> (#[trigger] parse_spec(l[i])) is Some
}

/// `ps` are the parsed texts.
pub open spec fn parsed_as(ps: Seq<Vec<PathSegment>>, l: Seq<Seq<char>>) -> bool {
    ps.len() == l.len() && forall|i: int|
        0 <= i < l.len() ==> Some(segs_view((#[trigger] ps[i])@)) == parse_spec(l[i])
}

/// Parses each path text.
fn parse_all(l: &Vec<String>) -> (r: Result<Vec<Vec<PathSegment>>, String>)
    ensures
        r is Ok <==> all_parse(texts(l@)),
        r matches Ok(ps) ==> parsed_as(ps@, texts(l@)),
{
    let mut out: Vec<Vec<PathSegment>> = Vec::new();
    let mut i: usize = 0;
    while i < l.len()
        invariant
            i <= l@.len(),
            out@.len() == i,
            forall|k: int|
                0 <= k < i ==> Some(segs_view((#[trigger] out@[k])@)) == parse_spec(l@[k]@),
        decreases l.len() - i,
    {
        match parse(l[i].as_str()) {
            Ok(segs) => {
                out.push(segs);
            },
            Err(e) => {
                proof {
                    assert(parse_spec(texts(l@)[i as int]) is None);
                }
                return Err(e);
            },
        }
        i = i + 1;
    }
    proof {
        assert forall|k: int| 0 <= k < texts(l@).len() implies (#[trigger] parse_spec(texts(l@)[k])) is Some by {
            assert(Some(segs_view(out@[k]@)) == parse_spec(l@[k]@));
        }
    }
    Ok(out)
}

/// Where a field configuration says its value comes from.
pub enum SourceSpec {
    Root,
    Single(Seq<Seg>),
    Coalesce(Seq<Seq<Seg>>),
    FromOutput(Seq<char>),
}

/// The strings listed under `key`, when a list of strings is stored there.
pub open spec fn list_at(field: Value, key: Seq<char>) -> Option<Seq<Seq<char>>> {
    match config_get(field, key) {
        Some(v) => string_list(v),
        None => None,
    }
}

/// The source a field configuration declares: `from_output` (an earlier
/// field's name), else a non-empty `paths` list, else `path` (`$` is the
/// root), else the root; `None` where a path does not parse.
pub open spec fn source_of(field: Value) -> Option<SourceSpec> {
    match config_str(field, "from_output"@) {
        Some(n) => Some(SourceSpec::FromOutput(n)),
        None => match list_at(field, "paths"@) {
            Some(l) if l.len() > 0 => if all_parse(l) {
                Some(SourceSpec::Coalesce(l.map_values(|p: Seq<char>| parse_spec(p)->0)))
            } else {
                None
            },
            _ => match config_str(field, "path"@) {
                Some(p) => if p == "$"@ {
                    Some(SourceSpec::Root)
                } else {
                    match parse_spec(p) {
                        Some(segs) => Some(SourceSpec::Single(segs)),
                        None => None,
                    }
                },
                None => Some(SourceSpec::Root),
            },
        },
    }
}

/// Whether `n` names one of the earlier fields.
pub open spec fn names_earlier(earlier: Seq<Seq<char>>, n: Seq<char>) -> bool {
    exists|i: int| 0 <= i < earlier.len() && earlier[i] == n
}

/// Whether a field's source can be compiled after the fields named
/// `earlier`.
pub open spec fn source_ok(field: Value, earlier: Seq<Seq<char>>) -> bool {
    match source_of(field) {
        Some(SourceSpec::FromOutput(n)) => names_earlier(earlier, n),
        Some(_) => true,
        None => false,
    }
}

/// `src` compiles the source `spec`, an earlier field's name resolved to its
/// position.
pub open spec fn source_is(src: PathSource, spec: SourceSpec, earlier: Seq<Seq<char>>) -> bool {
    match (src, spec) {
        (PathSource::Root, SourceSpec::Root) => true,
        (PathSource::Single(p), SourceSpec::Single(segs)) => segs_view(p@) == segs,
        (PathSource::Coalesce(ps), SourceSpec::Coalesce(l)) => paths_view(ps@) == l,
        (PathSource::FromOutput(i), SourceSpec::FromOutput(n)) => i < earlier.len() && earlier[i as int]
            == n,
        _ => false,
    }
}

/// Compiles a field's source; `earlier` are the names of the fields before
/// it.
pub fn decode_path_source(field: &Value, earlier: &Vec<String>) -> (r: Result<PathSource, String>)
    ensures
        r is Ok <==> source_ok(*field, texts(earlier@)),
        r matches Ok(src) ==> source_is(src, source_of(*field)->0, texts(earlier@)),
{
    match get_string_key(field, "from_output") {
        Some(n) => {
            let mut i: usize = 0;
            while i < earlier.len()
                invariant
                    config_str(*field, "from_output"@) == Some(n@),
                    i <= earlier@.len(),
                    forall|k: int| 0 <= k < i ==> texts(earlier@)[k] != n@,
                decreases earlier.len() - i,
            {
                if str_eq(earlier[i].as_str(), n.as_str()) {
                    proof {
                        assert(texts(earlier@)[i as int] == n@);
                    }
                    return Ok(PathSource::FromOutput(i));
                }
                i = i + 1;
            }
            return Err(message("from_output names no earlier field: ", n.as_str()));
        },
        None => {},
    }
    let paths = match get_term_key(field, "paths") {
        Some(v) => string_list_exec(v),
        None => None,
    };
    match paths {
        Some(l) => {
            if l.len() > 0 {
                let ps = parse_all(&l)?;
                proof {
                    let t = texts(l@);
                    assert(paths_view(ps@) =~= t.map_values(|p: Seq<char>| parse_spec(p)->0)) by {
                        assert forall|k: int| 0 <= k < t.len() implies paths_view(ps@)[k] == parse_spec(
                            t[k],
                        )->0 by {
                            assert(Some(segs_view(ps@[k]@)) == parse_spec(t[k]));
                        }
                    }
                }
                return Ok(PathSource::Coalesce(ps));
            }
        },
        None => {},
    }
    match get_string_key(field, "path") {
        Some(p) => {
            if str_eq(p.as_str(), "$") {
                Ok(PathSource::Root)
            } else {
                let segs = parse(p.as_str())?;
                Ok(PathSource::Single(segs))
            }
        },
        None => Ok(PathSource::Root),
    }
}

/// Whether a pick item can be compiled: a `key` string and a `paths` list of
/// strings that parse.
pub open spec fn pick_item_ok(item: Value) -> bool {
    config_str(item, "key"@) is Some && match list_at(item, "paths"@) {
        Some(l) => all_parse(l),
        None => false,
    }
}

/// `e` compiles the pick item.
pub open spec fn pick_item_is(item: Value, e: PickEntry) -> bool {
    config_str(item, "key"@) == Some(e.key@) && parsed_as(e.paths@, list_at(item, "paths"@)->0)
}

/// Whether a field's pick list can be compiled: absent, or a list of items
/// that can.
pub open spec fn pick_ok(field: Value) -> bool {
    match config_get(field, "pick"@) {
        None => true,
        Some(v) => items_ok(v),
    }
}

/// Whether `v` is a list of pick items that can be compiled.
pub open spec fn items_ok(v: Value) -> bool {
    match v {
        Value::Array(items) => forall|i: int|
            0 <= i < items@.len() ==> pick_item_ok(#[trigger] items@[i]),
        _ => false,
    }
}

/// `ps` compiles the field's pick list.
pub open spec fn pick_is(field: Value, ps: Seq<PickEntry>) -> bool {
    match config_get(field, "pick"@) {
        Some(Value::Array(items)) => ps.len() == items@.len() && forall|i: int|
            0 <= i < items@.len() ==> pick_item_is(#[trigger] items@[i], ps[i]),
        _ => ps.len() == 0,
    }
}

/// Compiles a field's pick list.
pub fn decode_pick(field: &Value) -> (r: Result<Vec<PickEntry>, String>)
    ensures
        r is Ok <==> pick_ok(*field),
        r matches Ok(ps) ==> pick_is(*field, ps@),
{
    let items = match get_term_key(field, "pick") {
        None => {
            return Ok(Vec::new());
        },
        Some(Value::Array(items)) => items,
        Some(_) => {
            return Err(message("pick must be a list", ""));
        },
    };
    let mut out: Vec<PickEntry> = Vec::new();
    let mut i: usize = 0;
    while i < items.len()
        invariant
            config_get(*field, "pick"@) == Some(Value::Array(*items)),
            i <= items@.len(),
            out@.len() == i,
            forall|k: int| 0 <= k < i ==> pick_item_ok(#[trigger] items@[k]),
            forall|k: int| 0 <= k < i ==> pick_item_is(#[trigger] items@[k], out@[k]),
        decreases items.len() - i,
    {
        let item = &items[i];
        let key = match get_string_key(item, "key") {
            Some(k) => k.clone(),
            None => {
                proof {
                    assert(!pick_item_ok(items@[i as int]));
                    let ghost vv = Value::Array(*items);
                    assert(vv->Array_0@[i as int] == items@[i as int]);
                    assert(!pick_item_ok(vv->Array_0@[i as int]));
                    assert(!items_ok(vv));
                }
                return Err(message("pick entry missing 'key'", ""));
            },
        };
        let list = match get_term_key(item, "paths") {
            Some(v) => match string_list_exec(v) {
                Some(l) => l,
                None => {
                    proof {
                    assert(!pick_item_ok(items@[i as int]));
                    let ghost vv = Value::Array(*items);
                    assert(vv->Array_0@[i as int] == items@[i as int]);
                    assert(!pick_item_ok(vv->Array_0@[i as int]));
                    assert(!items_ok(vv));
                }
                return Err(message("pick paths must be a list of strings", ""));
                },
            },
            None => {
                proof {
                    assert(!pick_item_ok(items@[i as int]));
                    let ghost vv = Value::Array(*items);
                    assert(vv->Array_0@[i as int] == items@[i as int]);
                    assert(!pick_item_ok(vv->Array_0@[i as int]));
                    assert(!items_ok(vv));
                }
                return Err(message("pick entry missing 'paths'", ""));
            },
        };
        let paths = parse_all(&list)?;
        let ghost before = out@;
        out.push(PickEntry { key, paths });
        proof {
            assert forall|k: int| 0 <= k < i + 1 implies pick_item_is(#[trigger] items@[k], out@[k]) by {
                if k < i {
                    assert(out@[k] == before[k]);
                }
            }
        }
        i = i + 1;
    }
    Ok(out)
}

/// Whether a comparison literal can be read: a boolean, an integer, a float
/// or a string.
pub open spec fn literal_ok(v: Value) -> bool {
    v is Bool || v is Int || v is Float || v is Str
}

/// `p` is the comparison literal `v`.
pub open spec fn literal_is(v: Value, p: PredicateValue) -> bool {
    match (v, p) {
        (Value::Bool(a), PredicateValue::Bool(b)) => a == b,
        (Value::Int(a), PredicateValue::Int(b)) => a == b,
        (Value::Float(a), PredicateValue::Flt(b)) => a@ == b@,
        (Value::Str(a), PredicateValue::Str(b)) => a@ == b@,
        _ => false,
    }
}

/// Reads a comparison literal.
pub fn decode_predicate_value(v: &Value) -> (r: Result<PredicateValue, String>)
    ensures
        r is Ok <==> literal_ok(*v),
        r matches Ok(p) ==> literal_is(*v, p),
{
    match v {
        Value::Bool(b) => Ok(PredicateValue::Bool(*b)),
        Value::Int(i) => Ok(PredicateValue::Int(*i)),
        Value::Float(f) => Ok(PredicateValue::Flt(f.clone())),
        Value::Str(s) => Ok(PredicateValue::Str(s.clone())),
        _ => Err(message("comparison value must be string, integer, float, or boolean", "")),
    }
}

/// Whether a numeric threshold can be read: an integer, a float, or a
/// string holding a decimal float.
pub open spec fn threshold_ok(v: Value) -> bool {
    match v {
        Value::Int(_) | Value::Float(_) => true,
        Value::Str(s) => decimal_text(s@) is Some,
        _ => false,
    }
}

/// `p` is the numeric threshold `v`.
pub open spec fn threshold_is(v: Value, p: PredicateValue) -> bool {
    match (v, p) {
        (Value::Int(a), PredicateValue::Int(b)) => a == b,
        (Value::Float(a), PredicateValue::Flt(b)) => a@ == b@,
        (Value::Str(a), PredicateValue::Flt(b)) => decimal_text(a@) == Some(b@),
        _ => false,
    }
}

/// Reads a numeric threshold.
pub fn get_comparison_f64(cond: &Value) -> (r: Result<PredicateValue, String>)
    ensures
        r is Ok <==> (config_get(*cond, "comparison_value"@) matches Some(v) && threshold_ok(v)),
        r matches Ok(p) ==> threshold_is(config_get(*cond, "comparison_value"@)->0, p),
{
    match get_term_key(cond, "comparison_value") {
        None => Err(message("predicate requires 'comparison_value'", "")),
        Some(v) => match v {
            Value::Int(i) => Ok(PredicateValue::Int(*i)),
            Value::Float(f) => Ok(PredicateValue::Flt(f.clone())),
            Value::Str(s) => match normalize_decimal(s.as_str()) {
                Some(t) => Ok(PredicateValue::Flt(t)),
                None => Err(message("invalid comparison_value: ", s.as_str())),
            },
            _ => Err(message("comparison_value must be numeric", "")),
        },
    }
}

/// Reads the condition's comparison literal.
pub fn get_comparison_value(cond: &Value) -> (r: Result<PredicateValue, String>)
    ensures
        r is Ok <==> (config_get(*cond, "comparison_value"@) matches Some(v) && literal_ok(v)),
        r matches Ok(p) ==> literal_is(config_get(*cond, "comparison_value"@)->0, p),
{
    match get_term_key(cond, "comparison_value") {
        Some(v) => decode_predicate_value(v),
        None => Err(message("predicate requires 'comparison_value'", "")),
    }
}

/// Whether the condition's comparison literals can be read.
pub open spec fn comparison_values_ok(cond: Value) -> bool {
    match config_get(cond, "comparison_values"@) {
        Some(v) => literals_ok(v),
        None => false,
    }
}

/// `vs` are the condition's comparison literals.
pub open spec fn comparison_values_are(cond: Value, vs: Seq<PredicateValue>) -> bool {
    match config_get(cond, "comparison_values"@) {
        Some(Value::Array(a)) => vs.len() == a@.len() && forall|i: int|
            0 <= i < a@.len() ==> literal_is(#[trigger] a@[i], vs[i]),
        _ => false,
    }
}

/// Reads the condition's list of comparison literals.
pub fn get_comparison_values(cond: &Value) -> (r: Result<Vec<PredicateValue>, String>)
    ensures
        r is Ok <==> comparison_values_ok(*cond),
        r matches Ok(vs) ==> comparison_values_are(*cond, vs@),
{
    let a = match get_term_key(cond, "comparison_values") {
        Some(Value::Array(a)) => a,
        Some(_) => {
            return Err(message("comparison_values must be a list", ""));
        },
        None => {
            return Err(message("predicate requires 'comparison_values'", ""));
        },
    };
    let mut vs: Vec<PredicateValue> = Vec::new();
    let mut i: usize = 0;
    while i < a.len()
        invariant
            config_get(*cond, "comparison_values"@) == Some(Value::Array(*a)),
            i <= a@.len(),
            vs@.len() == i,
            forall|k: int| 0 <= k < i ==> literal_ok(#[trigger] a@[k]),
            forall|k: int| 0 <= k < i ==> literal_is(#[trigger] a@[k], vs@[k]),
        decreases a.len() - i,
    {
        let v = match decode_predicate_value(&a[i]) {
            Ok(v) => v,
            Err(e) => {
                proof {
                    let vv = Value::Array(*a);
                    assert(vv->Array_0@[i as int] == a@[i as int]);
                    assert(!literal_ok(vv->Array_0@[i as int]));
                    assert(!literals_ok(vv));
                }
                return Err(e);
            },
        };
        let ghost before = vs@;
        vs.push(v);
        proof {
            assert forall|k: int| 0 <= k < i + 1 implies literal_is(#[trigger] a@[k], vs@[k]) by {
                if k < i {
                    assert(vs@[k] == before[k]);
                }
            }
        }
        i = i + 1;
    }
    proof {
        let vv = Value::Array(*a);
        assert(vv->Array_0@ == a@);
    }
    Ok(vs)
}

/// Whether the predicate name, with the condition's comparison values, can
/// be compiled.
pub open spec fn predicate_ok(cond: Value, name: Seq<char>) -> bool {
    if name == "exists"@ || name == "not_exists"@ || name == "not_zero"@ || name == "is_zero"@ || name
        == "not_empty"@ || name == "is_empty"@ || name == "is_string"@ || name == "is_number"@ || name
        == "is_list"@ || name == "is_map"@ {
        true
    } else if name == "greater_than"@ || name == "less_than"@ {
        config_get(cond, "comparison_value"@) matches Some(v) && threshold_ok(v)
    } else if name == "equals"@ || name == "not_equals"@ {
        config_get(cond, "comparison_value"@) matches Some(v) && literal_ok(v)
    } else if name == "in"@ {
        comparison_values_ok(cond)
    } else {
        false
    }
}

/// Whether `v` is a list of comparison literals that can be read.
pub open spec fn literals_ok(v: Value) -> bool {
    match v {
        Value::Array(a) => forall|i: int| 0 <= i < a@.len() ==> literal_ok(#[trigger] a@[i]),
        _ => false,
    }
}

/// `p` compiles the predicate name with the condition's comparison values.
pub open spec fn predicate_is(cond: Value, name: Seq<char>, p: Predicate) -> bool {
    let cv = config_get(cond, "comparison_value"@)->0;
    match p {
        Predicate::Exists => name == "exists"@,
        Predicate::NotExists => name == "not_exists"@,
        Predicate::NotZero => name == "not_zero"@,
        Predicate::IsZero => name == "is_zero"@,
        Predicate::NotEmpty => name == "not_empty"@,
        Predicate::IsEmpty => name == "is_empty"@,
        Predicate::IsString => name == "is_string"@,
        Predicate::IsNumber => name == "is_number"@,
        Predicate::IsList => name == "is_list"@,
        Predicate::IsMap => name == "is_map"@,
        Predicate::GreaterThan(t) => name == "greater_than"@ && threshold_is(cv, t),
        Predicate::LessThan(t) => name == "less_than"@ && threshold_is(cv, t),
        Predicate::Equals(e) => name == "equals"@ && literal_is(cv, e),
        Predicate::NotEquals(e) => name == "not_equals"@ && literal_is(cv, e),
        Predicate::In(vs) => name == "in"@ && comparison_values_are(cond, vs@),
    }
}

/// Compiles a (lower-cased) predicate name with the condition's comparison
/// values.
pub fn parse_predicate(cond: &Value, name: &str) -> (r: Result<Predicate, String>)
    ensures
        r is Ok <==> predicate_ok(*cond, name@),
        r matches Ok(p) ==> predicate_is(*cond, name@, p),
{
    if str_eq(name, "exists") {
        Ok(Predicate::Exists)
    } else if str_eq(name, "not_exists") {
        Ok(Predicate::NotExists)
    } else if str_eq(name, "not_zero") {
        Ok(Predicate::NotZero)
    } else if str_eq(name, "is_zero") {
        Ok(Predicate::IsZero)
    } else if str_eq(name, "not_empty") {
        Ok(Predicate::NotEmpty)
    } else if str_eq(name, "is_empty") {
        Ok(Predicate::IsEmpty)
    } else if str_eq(name, "is_string") {
        Ok(Predicate::IsString)
    } else if str_eq(name, "is_number") {
        Ok(Predicate::IsNumber)
    } else if str_eq(name, "is_list") {
        Ok(Predicate::IsList)
    } else if str_eq(name, "is_map") {
        Ok(Predicate::IsMap)
    } else if str_eq(name, "greater_than") {
        Ok(Predicate::GreaterThan(get_comparison_f64(cond)?))
    } else if str_eq(name, "less_than") {
        Ok(Predicate::LessThan(get_comparison_f64(cond)?))
    } else if str_eq(name, "equals") || str_eq(name, "not_equals") {
        let v = get_comparison_value(cond)?;
        if str_eq(name, "equals") {
            Ok(Predicate::Equals(v))
        } else {
            Ok(Predicate::NotEquals(v))
        }
    } else if str_eq(name, "in") {
        let vs = get_comparison_values(cond)?;
        Ok(Predicate::In(vs))
    } else {
        Err(message("unknown predicate: ", name))
    }
}

/// Whether a condition can be compiled: a `path` that parses and a known
/// `predicate` with what it compares against.
pub open spec fn condition_ok(c: Value) -> bool {
    &&& config_str(c, "path"@) matches Some(p) && parse_spec(p) is Some
    &&& config_str(c, "predicate"@) matches Some(q) && predicate_ok(c, lower_of(q))
}

/// `ic` compiles the condition.
pub open spec fn condition_is(c: Value, ic: InferCondition) -> bool {
    &&& Some(segs_view(ic.path@)) == parse_spec(config_str(c, "path"@)->0)
    &&& predicate_is(c, lower_of(config_str(c, "predicate"@)->0), ic.predicate)
}

/// Compiles an inference condition.
pub fn decode_condition(c: &Value) -> (r: Result<InferCondition, String>)
    ensures
        r is Ok <==> condition_ok(*c),
        r matches Ok(ic) ==> condition_is(*c, ic),
{
    let p = match get_string_key(c, "path") {
        Some(p) => p,
        None => {
            return Err(message("condition missing 'path'", ""));
        },
    };
    let path = parse(p.as_str())?;
    let q = match get_string_key(c, "predicate") {
        Some(q) => q,
        None => {
            return Err(message("condition missing 'predicate'", ""));
        },
    };
    let name = to_lower(q.as_str());
    let predicate = parse_predicate(c, name.as_str())?;
    Ok(InferCondition { path, predicate })
}

/// Whether `v` is a list of conditions that can be compiled.
pub open spec fn conditions_ok(v: Value) -> bool {
    match v {
        Value::Array(a) => forall|i: int| 0 <= i < a@.len() ==> condition_ok(#[trigger] a@[i]),
        _ => false,
    }
}

/// `cs` compiles the list of conditions `v`.
pub open spec fn conditions_are(v: Value, cs: Seq<InferCondition>) -> bool {
    match v {
        Value::Array(a) => cs.len() == a@.len() && forall|i: int|
            0 <= i < a@.len() ==> condition_is(#[trigger] a@[i], cs[i]),
        _ => false,
    }
}

/// Compiles a list of conditions.
pub fn decode_conditions(v: &Value) -> (r: Result<Vec<InferCondition>, String>)
    ensures
        r is Ok <==> conditions_ok(*v),
        r matches Ok(cs) ==> conditions_are(*v, cs@),
{
    let a = match v {
        Value::Array(a) => a,
        _ => {
            return Err(message("conditions must be a list", ""));
        },
    };
    let mut out: Vec<InferCondition> = Vec::new();
    let mut i: usize = 0;
    while i < a.len()
        invariant
            *v == Value::Array(*a),
            i <= a@.len(),
            out@.len() == i,
            forall|k: int| 0 <= k < i ==> condition_ok(#[trigger] a@[k]),
            forall|k: int| 0 <= k < i ==> condition_is(#[trigger] a@[k], out@[k]),
        decreases a.len() - i,
    {
        match decode_condition(&a[i]) {
            Ok(c) => {
                let ghost before = out@;
                out.push(c);
                proof {
                    assert forall|k: int| 0 <= k < i + 1 implies condition_is(#[trigger] a@[k], out@[k]) by {
                        if k < i {
                            assert(out@[k] == before[k]);
                        }
                    }
                }
            },
            Err(e) => {
                proof {
                    assert(v->Array_0@[i as int] == a@[i as int]);
                    assert(!condition_ok(v->Array_0@[i as int]));
                }
                return Err(e);
            },
        }
        i = i + 1;
    }
    Ok(out)
}

/// Whether the conditions under `key` can be compiled (none is fine).
pub open spec fn conditions_at_ok(rule: Value, key: Seq<char>) -> bool {
    match config_get(rule, key) {
        None => true,
        Some(v) => conditions_ok(v),
    }
}

/// `cs` compiles the conditions under `key`.
pub open spec fn conditions_at(rule: Value, key: Seq<char>, cs: Seq<InferCondition>) -> bool {
    match config_get(rule, key) {
        None => cs.len() == 0,
        Some(v) => conditions_are(v, cs),
    }
}

fn decode_conditions_at(rule: &Value, key: &str) -> (r: Result<Vec<InferCondition>, String>)
    ensures
        r is Ok <==> conditions_at_ok(*rule, key@),
        r matches Ok(cs) ==> conditions_at(*rule, key@, cs@),
{
    match get_term_key(rule, key) {
        Some(v) => decode_conditions(v),
        None => Ok(Vec::new()),
    }
}

/// Whether an inference rule can be compiled.
pub open spec fn rule_ok(r: Value) -> bool {
    config_str(r, "result"@) is Some && conditions_at_ok(r, "any"@) && conditions_at_ok(r, "all"@)
}

/// `ir` compiles the inference rule; its result is lower-cased.
pub open spec fn rule_is(r: Value, ir: InferRule) -> bool {
    &&& ir.result@ == lower_of(config_str(r, "result"@)->0)
    &&& conditions_at(r, "any"@, ir.any@)
    &&& conditions_at(r, "all"@, ir.all@)
}

/// Compiles an inference rule.
pub fn decode_infer_rule(r: &Value) -> (out: Result<InferRule, String>)
    ensures
        out is Ok <==> rule_ok(*r),
        out matches Ok(ir) ==> rule_is(*r, ir),
{
    let result = match get_string_key(r, "result") {
        Some(s) => to_lower(s.as_str()),
        None => {
            return Err(message("infer rule missing 'result'", ""));
        },
    };
    let any = decode_conditions_at(r, "any")?;
    let all = decode_conditions_at(r, "all")?;
    Ok(InferRule { any, all, result })
}

/// Whether `v` is a list of inference rules that can be compiled.
pub open spec fn rules_ok(v: Value) -> bool {
    match v {
        Value::Array(a) => forall|i: int| 0 <= i < a@.len() ==> rule_ok(#[trigger] a@[i]),
        _ => false,
    }
}

/// `rs` compiles the field's inference rules (none when absent).
pub open spec fn rules_are(field: Value, rs: Seq<InferRule>) -> bool {
    match config_get(field, "infer"@) {
        Some(Value::Array(a)) => rs.len() == a@.len() && forall|i: int|
            0 <= i < a@.len() ==> rule_is(#[trigger] a@[i], rs[i]),
        _ => rs.len() == 0,
    }
}

/// Whether a field's inference rules can be compiled (none is fine).
pub open spec fn infer_ok(field: Value) -> bool {
    match config_get(field, "infer"@) {
        None => true,
        Some(v) => rules_ok(v),
    }
}

/// Compiles a field's inference rules.
pub fn decode_infer_rules(field: &Value) -> (r: Result<Vec<InferRule>, String>)
    ensures
        r is Ok <==> infer_ok(*field),
        r matches Ok(rs) ==> rules_are(*field, rs@),
{
    let a = match get_term_key(field, "infer") {
        None => {
            return Ok(Vec::new());
        },
        Some(Value::Array(a)) => a,
        Some(_) => {
            return Err(message("infer must be a list", ""));
        },
    };
    let mut out: Vec<InferRule> = Vec::new();
    let mut i: usize = 0;
    while i < a.len()
        invariant
            config_get(*field, "infer"@) == Some(Value::Array(*a)),
            i <= a@.len(),
            out@.len() == i,
            forall|k: int| 0 <= k < i ==> rule_ok(#[trigger] a@[k]),
            forall|k: int| 0 <= k < i ==> rule_is(#[trigger] a@[k], out@[k]),
        decreases a.len() - i,
    {
        match decode_infer_rule(&a[i]) {
            Ok(rule) => {
                let ghost before = out@;
                out.push(rule);
                proof {
                    assert forall|k: int| 0 <= k < i + 1 implies rule_is(#[trigger] a@[k], out@[k]) by {
                        if k < i {
                            assert(out@[k] == before[k]);
                        }
                    }
                }
            },
            Err(e) => {
                proof {
                    let vv = Value::Array(*a);
                    assert(vv->Array_0@[i as int] == a@[i as int]);
                    assert(!rule_ok(vv->Array_0@[i as int]));
                    assert(!rules_ok(vv));
                }
                return Err(e);
            },
        }
        i = i + 1;
    }
    Ok(out)
}

/// Whether the name-to-code object under `key` can be read: absent or not an
/// object (then it is ignored), or holding integer codes.
pub open spec fn codes_at_ok(field: Value, key: Seq<char>) -> bool {
    match config_get(field, key) {
        Some(Value::Object(es)) => codes_ok(es@),
        _ => true,
    }
}

/// The code the object under `key` gives a lower-cased name.
pub open spec fn code_at(field: Value, key: Seq<char>, k: Seq<char>) -> Option<i64> {
    match config_get(field, key) {
        Some(Value::Object(es)) => last_code(es@, k),
        _ => None,
    }
}

/// Reads the name-to-code object under `key`.
fn decode_codes_at(field: &Value, key: &str) -> (r: Result<Vec<(String, i64)>, String>)
    ensures
        r is Ok <==> codes_at_ok(*field, key@),
        r matches Ok(m) ==> forall|k: Seq<char>| #[trigger] lookup(m@, k) == code_at(*field, key@, k),
{
    match get_term_key(field, key) {
        Some(Value::Object(es)) => decode_string_int_map(es),
        _ => {
            let m: Vec<(String, i64)> = Vec::new();
            Ok(m)
        },
    }
}

/// A code narrowed to eight bits, as an `as i8` cast does.
pub open spec fn narrow(o: Option<i64>) -> Option<i8> {
    match o {
        Some(i) => Some(crate::coerce::wrap_i8(i as int) as i8),
        None => None,
    }
}

fn narrow_exec(i: i64) -> (r: i8)
    ensures
        r as int == crate::coerce::wrap_i8(i as int),
{
    let w: i128 = (i as i128) + 9223372036854775808;
    let m: i128 = w % 256;
    proof {
        assert(m == (i as int) % 256) by (nonlinear_arith)
            requires w == i + 9223372036854775808, m == w % 256, w >= 0;
    }
    if m >= 128 {
        (m - 256) as i8
    } else {
        m as i8
    }
}

proof fn lemma_lookup_narrow(m: Seq<(String, i64)>, r: Seq<(String, i8)>, k: Seq<char>)
    requires
        r.len() == m.len(),
        forall|i: int| 0 <= i < m.len() ==> (#[trigger] r[i]).0@ == m[i].0@ && r[i].1 as int
            == crate::coerce::wrap_i8(m[i].1 as int),
    ensures
        lookup(r, k) == narrow(lookup(m, k)),
    decreases m.len(),
{
    if m.len() > 0 {
        assert(r[0].0@ == m[0].0@);
        assert forall|i: int| 0 <= i < m.drop_first().len() implies (#[trigger] r.drop_first()[i]).0@
            == m.drop_first()[i].0@ && r.drop_first()[i].1 as int == crate::coerce::wrap_i8(
            m.drop_first()[i].1 as int,
        ) by {
            assert(r.drop_first()[i] == r[i + 1]);
            assert(m.drop_first()[i] == m[i + 1]);
        }
        lemma_lookup_narrow(m.drop_first(), r.drop_first(), k);
    }
}

/// Reads a field's value map (names to codes).
pub fn decode_value_map(field: &Value) -> (r: Result<Vec<(String, i64)>, String>)
    ensures
        r is Ok <==> codes_at_ok(*field, "value_map"@),
        r matches Ok(m) ==> forall|k: Seq<char>| #[trigger] lookup(m@, k) == code_at(*field, "value_map"@, k),
{
    decode_codes_at(field, "value_map")
}

/// Reads an `Enum8` field's names and codes, narrowed to eight bits.
pub fn decode_enum_values(field: &Value) -> (r: Result<Vec<(String, i8)>, String>)
    ensures
        r is Ok <==> codes_at_ok(*field, "enum_values"@),
        r matches Ok(m) ==> forall|k: Seq<char>|
            #[trigger] lookup(m@, k) == narrow(code_at(*field, "enum_values"@, k)),
{
    let m = decode_codes_at(field, "enum_values")?;
    let mut out: Vec<(String, i8)> = Vec::new();
    let mut i: usize = 0;
    while i < m.len()
        invariant
            i <= m@.len(),
            out@.len() == i,
            forall|j: int| 0 <= j < i ==> (#[trigger] out@[j]).0@ == m@[j].0@ && out@[j].1 as int
                == crate::coerce::wrap_i8(m@[j].1 as int),
        decreases m.len() - i,
    {
        let c = narrow_exec(m[i].1);
        out.push((m[i].0.clone(), c));
        i = i + 1;
    }
    proof {
        assert forall|k: Seq<char>| #[trigger] lookup(out@, k) == narrow(code_at(*field, "enum_values"@, k)) by {
            lemma_lookup_narrow(m@, out@, k);
        }
    }
    Ok(out)
}

/// Whether the (lower-cased) result of every inference rule is one of the
/// field's enum names.
pub open spec fn results_known(field: Value) -> bool {
    match config_get(field, "infer"@) {
        Some(v) => results_known_in(field, v),
        None => true,
    }
}

pub open spec fn results_known_in(field: Value, rules: Value) -> bool {
    match rules {
        Value::Array(a) => forall|i: int|
            0 <= i < a@.len() ==> code_at(
                field,
                "enum_values"@,
                lower_of(config_str(#[trigger] a@[i], "result"@)->0),
            ) is Some,
        _ => true,
    }
}

/// Whether an `Enum8` field's names and rules can be compiled: the names
/// hold integer codes, the rules compile, and each rule's result names one
/// of the enum values.
pub open spec fn enum8_ok(field: Value) -> bool {
    codes_at_ok(field, "enum_values"@) && infer_ok(field) && results_known(field)
}

/// `d` compiles an `Enum8` field's names and rules.
pub open spec fn enum8_is(field: Value, d: Enum8Data) -> bool {
    &&& forall|k: Seq<char>| #[trigger] lookup(d.value_map@, k) == narrow(code_at(field, "enum_values"@, k))
    &&& rules_are(field, d.infer_rules@)
}

/// Compiles an `Enum8` field's names and rules.
pub fn decode_enum8_data(field: &Value) -> (r: Result<Enum8Data, String>)
    ensures
        r is Ok <==> enum8_ok(*field),
        r matches Ok(d) ==> enum8_is(*field, d),
{
    let value_map = decode_enum_values(field)?;
    let infer_rules = decode_infer_rules(field)?;
    let mut i: usize = 0;
    while i < infer_rules.len()
        invariant
            i <= infer_rules@.len(),
            forall|k: Seq<char>|
                #[trigger] lookup(value_map@, k) == narrow(code_at(*field, "enum_values"@, k)),
            rules_are(*field, infer_rules@),
            infer_ok(*field),
            forall|j: int| 0 <= j < i ==> lookup(value_map@, (#[trigger] infer_rules@[j]).result@) is Some,
        decreases infer_rules.len() - i,
    {
        if get_key(&value_map, infer_rules[i].result.as_str()).is_none() {
            proof {
                let rv = config_get(*field, "infer"@)->0;
                let a = rv->Array_0;
                assert(rule_is(a@[i as int], infer_rules@[i as int]));
                assert(lookup(value_map@, infer_rules@[i as int].result@) is None);
                assert(!results_known_in(*field, rv));
            }
            return Err(message("infer rule result names no enum value: ", infer_rules[i].result.as_str()));
        }
        i = i + 1;
    }
    proof {
        match config_get(*field, "infer"@) {
            Some(rv) => {
                let a = rv->Array_0;
                assert forall|j: int| 0 <= j < a@.len() implies code_at(
                    *field,
                    "enum_values"@,
                    lower_of(config_str(#[trigger] a@[j], "result"@)->0),
                ) is Some by {
                    assert(rule_is(a@[j], infer_rules@[j]));
                    assert(lookup(value_map@, infer_rules@[j].result@) is Some);
                }
                assert(results_known_in(*field, rv));
            },
            None => {},
        }
    }
    Ok(Enum8Data { value_map, infer_rules })
}

/// Whether absent array elements are dropped: the `filter_nil` flag, false
/// when absent.
pub open spec fn filter_nil_of(field: Value) -> bool {
    match config_get(field, "filter_nil"@) {
        Some(Value::Bool(b)) => b,
        _ => false,
    }
}

/// Whether a field configuration can be compiled after the fields named
/// `earlier`.
pub open spec fn field_ok(field: Value, earlier: Seq<Seq<char>>) -> bool {
    &&& config_str(field, "name"@) is Some
    &&& declared_type(field) is Some
    &&& source_ok(field, earlier)
    &&& transform_of(field) is Ok
    &&& codes_at_ok(field, "value_map"@)
    &&& pick_ok(field)
    &&& declared_type(field) == Some(FieldType::Enum8) ==> enum8_ok(field)
}

/// `f` compiles the field configuration.
pub open spec fn field_is(field: Value, earlier: Seq<Seq<char>>, f: CompiledField) -> bool {
    &&& config_str(field, "name"@) == Some(f.name@)
    &&& declared_type(field) == Some(f.field_type)
    &&& default_of(field, f.field_type, f.default)
    &&& source_is(f.path_source, source_of(field)->0, earlier)
    &&& transform_of(field) == Ok::<Option<FieldTransform>, ()>(f.transform)
    &&& forall|k: Seq<char>| #[trigger] lookup(f.value_map@, k) == code_at(field, "value_map"@, k)
    &&& texts(f.allowed_values@) == string_list_at(field, "allowed_values"@)
    &&& texts(f.exclude_keys@) == string_list_at(field, "exclude_keys"@)
    &&& texts(f.elevate_keys@) == string_list_at(field, "elevate_keys"@)
    &&& pick_is(field, f.pick@)
    &&& f.filter_nil == filter_nil_of(field)
    &&& if f.field_type == FieldType::Enum8 {
        f.enum8_data matches Some(d) && enum8_is(field, d)
    } else {
        f.enum8_data is None
    }
}

/// Compiles one field configuration; `earlier` are the names of the fields
/// before it.
pub fn decode_field(field: &Value, earlier: &Vec<String>) -> (r: Result<CompiledField, String>)
    ensures
        r is Ok <==> field_ok(*field, texts(earlier@)),
        r matches Ok(f) ==> field_is(*field, texts(earlier@), f),
{
    let name = match get_string_key(field, "name") {
        Some(n) => n.clone(),
        None => {
            return Err(message("field missing 'name'", ""));
        },
    };
    let type_text = match get_string_key(field, "type") {
        Some(t) => to_lower(t.as_str()),
        None => {
            proof {
                reveal_strlit("string");
            }
            String::from_str("string")
        },
    };
    let field_type = parse_field_type(field, type_text.as_str())?;
    let default = decode_default(field, &field_type);
    let path_source = decode_path_source(field, earlier)?;
    let transform = decode_transform(field)?;
    let value_map = decode_value_map(field)?;
    let allowed_values = decode_string_list(field, "allowed_values");
    let exclude_keys = decode_string_list(field, "exclude_keys");
    let elevate_keys = decode_string_list(field, "elevate_keys");
    let pick = decode_pick(field)?;
    let filter_nil = match get_term_key(field, "filter_nil") {
        Some(Value::Bool(b)) => *b,
        _ => false,
    };
    let enum8_data = if field_type == FieldType::Enum8 {
        Some(decode_enum8_data(field)?)
    } else {
        None
    };
    Ok(CompiledField {
        name,
        path_source,
        field_type,
        default,
        transform,
        allowed_values,
        value_map,
        exclude_keys,
        elevate_keys,
        pick,
        enum8_data,
        filter_nil,
    })
}

/// The names of field configurations.
pub open spec fn names_of(fs: Seq<Value>) -> Seq<Seq<char>> {
    fs.map_values(|f: Value| config_str(f, "name"@)->0)
}

/// Whether a configuration compiles: a `fields` list whose fields compile,
/// each after those before it, with pairwise distinct names.
pub open spec fn config_ok(config: Value) -> bool {
    match config_get(config, "fields"@) {
        Some(v) => fields_ok(v),
        None => false,
    }
}

pub open spec fn fields_ok(v: Value) -> bool {
    match v {
        Value::Array(fs) => {
            &&& forall|i: int|
                0 <= i < fs@.len() ==> field_ok(#[trigger] fs@[i], names_of(fs@.subrange(0, i)))
            &&& forall|i: int, j: int|
                0 <= i < j < fs@.len() ==> config_str(#[trigger] fs@[i], "name"@) != config_str(
                    #[trigger] fs@[j],
                    "name"@,
                )
        },
        _ => false,
    }
}

/// `m` compiles the configuration: one compiled field per field
/// configuration, in order.
pub open spec fn compiles_to(config: Value, m: CompiledMapping) -> bool {
    match config_get(config, "fields"@) {
        Some(Value::Array(fs)) => m.fields@.len() == fs@.len() && forall|i: int|
            0 <= i < fs@.len() ==> field_is(
                #[trigger] fs@[i],
                names_of(fs@.subrange(0, i)),
                m.fields@[i],
            ),
        _ => false,
    }
}

proof fn lemma_field_wf(field: Value, earlier: Seq<Seq<char>>, f: CompiledField)
    requires
        field_is(field, earlier, f),
    ensures
        field_wf(f, earlier.len() as int),
{
    let t = f.field_type;
    assert(type_ok(t)) by {
        let n = match config_str(field, "type"@) {
            Some(x) => lower_of(x),
            None => "string"@,
        };
        assert(field_type_of(n, precision_of(field)) == Some(t));
    }
}

/// Compiles a configuration's `fields` list, field by field, refusing the
/// whole list at the first problem (a missing or ill-formed key, an unknown
/// type, transform or predicate, a path that does not parse, a duplicate
/// field name).
pub fn decode_fields(config: &Value) -> (r: Result<Vec<CompiledField>, String>)
    ensures
        r is Ok <==> config_ok(*config),
        r matches Ok(fs) ==> compiles_to(*config, (CompiledMapping { fields: fs })) && (
        CompiledMapping { fields: fs }).wf(),
{
    let fs = match get_term_key(config, "fields") {
        Some(Value::Array(fs)) => fs,
        Some(_) => {
            return Err(message("fields must be a list", ""));
        },
        None => {
            return Err(message("missing 'fields' key in config", ""));
        },
    };
    let mut fields: Vec<CompiledField> = Vec::new();
    let mut names: Vec<String> = Vec::new();
    let mut i: usize = 0;
    while i < fs.len()
        invariant
            config_get(*config, "fields"@) == Some(Value::Array(*fs)),
            i <= fs@.len(),
            fields@.len() == i,
            texts(names@) == names_of(fs@.subrange(0, i as int)),
            forall|k: int|
                0 <= k < i ==> field_ok(#[trigger] fs@[k], names_of(fs@.subrange(0, k))),
            forall|k: int|
                0 <= k < i ==> field_is(#[trigger] fs@[k], names_of(fs@.subrange(0, k)), fields@[k]),
            forall|a: int, b: int|
                0 <= a < b < i ==> config_str(#[trigger] fs@[a], "name"@) != config_str(
                    #[trigger] fs@[b],
                    "name"@,
                ),
            forall|k: int| 0 <= k < i ==> field_wf(#[trigger] fields@[k], k),
            forall|a: int, b: int|
                0 <= a < b < i ==> (#[trigger] fields@[a]).name@ != (#[trigger] fields@[b]).name@,
        decreases fs.len() - i,
    {
        let ghost prefix = fs@.subrange(0, i as int);
        proof {
            assert forall|k: int| 0 <= k < i implies (#[trigger] config_str(fs@[k], "name"@)) is Some by {
                assert(field_ok(fs@[k], names_of(fs@.subrange(0, k))));
            }
        }
        let f = match decode_field(&fs[i], &names) {
            Ok(f) => f,
            Err(e) => {
                proof {
                    let vv = Value::Array(*fs);
                    assert(vv->Array_0@[i as int] == fs@[i as int]);
                    assert(!field_ok(vv->Array_0@[i as int], names_of(vv->Array_0@.subrange(0, i as int))));
                    assert(!fields_ok(vv));
                }
                return Err(e);
            },
        };
        let mut j: usize = 0;
        proof {
            assert(names_of(prefix).len() == i);
        }
        while j < names.len()
            invariant
                j <= names@.len(),
                i < fs@.len(),
                prefix == fs@.subrange(0, i as int),
                config_get(*config, "fields"@) == Some(Value::Array(*fs)),
                names@.len() == i,
                texts(names@) == names_of(prefix),
                config_str(fs@[i as int], "name"@) == Some(f.name@),
                forall|k: int| 0 <= k < i ==> (#[trigger] config_str(fs@[k], "name"@)) is Some,
                forall|m: int| 0 <= m < j ==> names@[m]@ != f.name@,
            decreases names.len() - j,
        {
            if str_eq(names[j].as_str(), f.name.as_str()) {
                proof {
                    let vv = Value::Array(*fs);
                    assert(vv->Array_0@ == fs@);
                    assert(texts(names@)[j as int] == names_of(prefix)[j as int]);
                    assert(prefix[j as int] == fs@[j as int]);
                    assert(names_of(prefix)[j as int] == config_str(fs@[j as int], "name"@)->0);
                    assert(config_str(fs@[j as int], "name"@) == config_str(fs@[i as int], "name"@));
                    assert(!fields_ok(vv));
                }
                return Err(message("duplicate field name: ", f.name.as_str()));
            }
            j = j + 1;
        }
        proof {
            lemma_field_wf(fs@[i as int], names_of(prefix), f);
            assert(names_of(prefix).len() == i);
        }
        let ghost before_fields = fields@;
        let ghost before_names = names@;
        names.push(f.name.clone());
        fields.push(f);
        proof {
            assert(fs@.subrange(0, i + 1) == prefix.push(fs@[i as int]));
            let np = fs@.subrange(0, i + 1);
            assert forall|k: int| 0 <= k < i + 1 implies texts(names@)[k] == names_of(np)[k] by {
                if k < i {
                    assert(names@[k] == before_names[k]);
                    assert(texts(before_names)[k] == names_of(prefix)[k]);
                    assert(np[k] == prefix[k]);
                } else {
                    assert(np[k] == fs@[i as int]);
                }
            }
            assert(texts(names@) =~= names_of(np));
            assert forall|k: int| 0 <= k < i + 1 implies field_is(
                #[trigger] fs@[k],
                names_of(fs@.subrange(0, k)),
                fields@[k],
            ) by {
                if k < i {
                    assert(fields@[k] == before_fields[k]);
                }
            }
            assert forall|k: int| 0 <= k < i + 1 implies field_wf(#[trigger] fields@[k], k) by {
                if k < i {
                    assert(fields@[k] == before_fields[k]);
                }
            }
            assert forall|a: int, b: int| 0 <= a < b < i + 1 implies config_str(
                #[trigger] fs@[a],
                "name"@,
            ) != config_str(#[trigger] fs@[b], "name"@) by {
                if b == i {
                    assert(texts(before_names)[a] == names_of(prefix)[a]);
                    assert(before_names[a]@ != fields@[i as int].name@);
                }
            }
            assert forall|a: int, b: int| 0 <= a < b < i + 1 implies (#[trigger] fields@[a]).name@
                != (#[trigger] fields@[b]).name@ by {
                if b == i {
                    assert(fields@[a] == before_fields[a]);
                    assert(texts(before_names)[a] == names_of(prefix)[a]);
                    assert(before_names[a]@ != fields@[i as int].name@);
                } else {
                    assert(fields@[a] == before_fields[a]);
                    assert(fields@[b] == before_fields[b]);
                }
            }
        }
        i = i + 1;
    }
    proof {
        let vv = Value::Array(*fs);
        assert(vv->Array_0@ == fs@);
    }
    Ok(fields)
}

/// Compiles a configuration into a mapping: its `fields` list, field by
/// field, refusing the whole configuration at the first problem.
pub fn decode_mapping(config: &Value) -> (r: Result<CompiledMapping, String>)
    ensures
        r is Ok <==> config_ok(*config),
        r matches Ok(m) ==> compiles_to(*config, m) && m.wf(),
{
    let fields = decode_fields(config)?;
    Ok(CompiledMapping { fields })
}

} // verus!

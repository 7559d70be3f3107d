//! Properties that hold across the library's functions, proved once for all
//! inputs.

use vstd::prelude::*;
use crate::coerce::{coerces, is_default, lookup_folded};
use crate::compile::{config_ok, config_get, config_str};
use crate::infer::infer_spec;
use crate::json_ops::{without_keys, without_elevated, listed, elevated, elevate_fold, add_missing};
use crate::mapper::{enum_resolved, field_result, resolves, resolves_raw, transformed, allowed, mapped, or_default};
use crate::mapping::{CompiledField, FieldType, PathSource};
use crate::numeric::{scale_spec, precision_of_digits};
use crate::path::{parse_spec, Seg, segs_view};
use crate::query::{evaluates, evaluates_first, paths_view, lemma_evaluates_unique, lemma_evaluates_first_unique};
use crate::value::{Value, Scalar, is_scalar, as_int, same, object_get, find_key, lemma_find_key, lemma_same_sym, lemma_same_trans};

verus! {

/// `$` and `$.` both denote the root (no segments), and a path that does not
/// start with `$` is refused.
pub proof fn law_root_and_prefix(p: Seq<char>)
    ensures
        parse_spec(seq!['$']) == Some(Seq::<Seg>::empty()),
        parse_spec(seq!['$', '.']) == Some(Seq::<Seg>::empty()),
        p.len() == 0 || p[0] != '$' ==> parse_spec(p) is None,
{
    assert(seq!['$'].subrange(1, 1) == Seq::<char>::empty());
    assert(seq!['$', '.'].subrange(2, 2) == Seq::<char>::empty());
    assert(crate::path::flush(Seq::<Seg>::empty(), Seq::<char>::empty()) == Seq::<Seg>::empty());
}

/// An absent value coerced to a numeric or boolean type becomes that type's
/// zero (0, 0.0, false); coerced to a timestamp it stays absent.
pub proof fn law_absent_becomes_zero(t: FieldType, r: Value)
    requires
        coerces(Value::Null, t, r),
    ensures
        t == FieldType::UInt8 || t == FieldType::UInt32 || t == FieldType::UInt64 ==> is_scalar(
            r,
            Scalar::UInt(0),
        ),
        t == FieldType::Int32 || t == FieldType::Enum8 ==> is_scalar(r, Scalar::Int(0)),
        t == FieldType::Float64 ==> is_scalar(r, Scalar::Float(seq!['0'])),
        t == FieldType::Bool ==> is_scalar(r, Scalar::Bool(false)),
        t is DateTime64 ==> r is Null,
{
}

/// Scaling between equal precisions is the identity.
pub proof fn law_scale_identity(x: i64, p: nat)
    requires
        p <= 9,
    ensures
        scale_spec(x as int, p, p) == x,
{
}

/// The precision inferred from a digit count: up to 10 digits seconds (0),
/// 11 to 13 milliseconds (3), 14 to 16 microseconds (6), 17 and more
/// nanoseconds (9); so 10→0, 11→3, 13→3, 14→6, 16→6, 17→9.
pub proof fn law_precision_boundaries(d: nat)
    ensures
        d <= 10 ==> precision_of_digits(d) == 0,
        11 <= d <= 13 ==> precision_of_digits(d) == 3,
        14 <= d <= 16 ==> precision_of_digits(d) == 6,
        17 <= d ==> precision_of_digits(d) == 9,
        precision_of_digits(10) == 0 && precision_of_digits(11) == 3 && precision_of_digits(13) == 3
            && precision_of_digits(14) == 6 && precision_of_digits(16) == 6 && precision_of_digits(17)
            == 9,
{
}

/// The largest value of an unsigned field type.
pub open spec fn uint_max(t: FieldType) -> nat {
    match t {
        FieldType::UInt8 => u8::MAX as nat,
        FieldType::UInt32 => u32::MAX as nat,
        _ => u64::MAX as nat,
    }
}

/// Coercing an integer to an unsigned type takes a negative one to 0 and one
/// above the type's maximum to the maximum.
pub proof fn law_uint_clamps(i: i64, t: FieldType, r: Value)
    requires
        t == FieldType::UInt8 || t == FieldType::UInt32 || t == FieldType::UInt64,
        coerces(Value::Int(i), t, r),
    ensures
        i < 0 ==> is_scalar(r, Scalar::UInt(0)),
        i > uint_max(t) ==> is_scalar(r, Scalar::UInt(uint_max(t))),
{
}

/// Enum resolution prefers an explicit (case-insensitive) name in the enum
/// values, then the inference rules, then the field's default.
pub proof fn law_enum8_precedence(doc: Value, f: CompiledField, raw: Value, r: Value)
    requires
        f.enum8_data is Some,
        enum_resolved(doc, f, raw, r),
    ensures
        ({
            let d = f.enum8_data->0;
            &&& lookup_folded(d.value_map@, raw) matches Some(c) ==> is_scalar(r, Scalar::Int(c as int))
            &&& (lookup_folded(d.value_map@, raw) is None && as_int(raw) is None) ==> (infer_spec(
                doc,
                d.infer_rules@,
                d.value_map@,
            ) matches Some(c) ==> is_scalar(r, Scalar::Int(c as int)))
            &&& lookup_folded(d.value_map@, raw) is None && as_int(raw) is None && infer_spec(
                doc,
                d.infer_rules@,
                d.value_map@,
            ) is None ==> is_default(f.default, r)
        }),
{
}

/// Two raw resolutions of one field hold the same data.
proof fn lemma_resolves_raw_unique(doc: Value, outs: Seq<Value>, f: CompiledField, a: Value, b: Value)
    requires
        resolves_raw(doc, outs, f, a),
        resolves_raw(doc, outs, f, b),
    ensures
        same(a, b),
{
    match f.path_source {
        PathSource::Root => {
            lemma_same_sym(doc, a);
            lemma_same_trans(a, doc, b);
        },
        PathSource::Single(p) => lemma_evaluates_unique(doc, segs_view(p@), a, b),
        PathSource::Coalesce(ps) => lemma_evaluates_first_unique(doc, paths_view(ps@), false, a, b),
        PathSource::FromOutput(i) => {
            lemma_same_sym(outs[i as int], a);
            lemma_same_trans(a, outs[i as int], b);
        },
    }
}

/// A value with the same data as `Null` is `Null`.
proof fn lemma_same_null(v: Value)
    requires
        same(Value::Null, v) || same(v, Value::Null),
    ensures
        v is Null,
{
}

/// A field of a numeric, boolean or timestamp type with no default, whose
/// source finds nothing (an absent or null path, no path of a list, an
/// absent earlier output), outputs the type's zero (0, 0.0, false); a
/// timestamp field outputs nothing. Transforms, whitelists and value maps
/// leave an absent value absent.
pub proof fn law_absent_field_is_zero(doc: Value, outs: Seq<Value>, f: CompiledField, r: Value)
    requires
        resolves_raw(doc, outs, f, Value::Null),
        f.default is Nil,
        f.field_type == FieldType::UInt8 || f.field_type == FieldType::UInt32 || f.field_type
            == FieldType::UInt64 || f.field_type == FieldType::Int32 || f.field_type
            == FieldType::Float64 || f.field_type == FieldType::Bool || f.field_type is DateTime64,
        field_result(doc, outs, f, r),
    ensures
        ({
            let t = f.field_type;
            &&& t == FieldType::UInt8 || t == FieldType::UInt32 || t == FieldType::UInt64 ==> is_scalar(
                r,
                Scalar::UInt(0),
            )
            &&& t == FieldType::Int32 ==> is_scalar(r, Scalar::Int(0))
            &&& t == FieldType::Float64 ==> is_scalar(r, Scalar::Float(seq!['0']))
            &&& t == FieldType::Bool ==> is_scalar(r, Scalar::Bool(false))
            &&& t is DateTime64 ==> r is Null
        }),
{
    assert forall|v0: Value| #[trigger] resolves(doc, outs, f, v0) implies v0 is Null by {
        match f.path_source {
            PathSource::Root => {
                lemma_same_sym(doc, v0);
                lemma_same_trans(v0, doc, Value::Null);
            },
            PathSource::Single(p) => {
                let segs = segs_view(p@);
                let x = choose|x: Value| #[trigger] evaluates(doc, segs, x) && or_default(
                    x,
                    f,
                    f.field_type == FieldType::String,
                    v0,
                );
                lemma_evaluates_unique(doc, segs, Value::Null, x);
            },
            PathSource::Coalesce(ps) => {
                let l = paths_view(ps@);
                let x = choose|x: Value| #[trigger] evaluates_first(doc, l, false, x) && or_default(
                    x,
                    f,
                    false,
                    v0,
                );
                lemma_evaluates_first_unique(doc, l, false, Value::Null, x);
            },
            PathSource::FromOutput(i) => {
                lemma_same_null(outs[i as int]);
            },
        }
    }
    assert forall|v0: Value, v1: Value, v2: Value, v3: Value|
        #![trigger resolves(doc, outs, f, v0), transformed(v0, f, v1), allowed(v1, f, v2), mapped(v2, f, v3)]
        resolves(doc, outs, f, v0) && transformed(v0, f, v1) && allowed(v1, f, v2) && mapped(v2, f, v3)
            implies v3 is Null by {
        assert(v0 is Null);
        lemma_same_null(v1);
        lemma_same_null(v2);
        if f.value_map@.len() == 0 {
            lemma_same_null(v3);
        }
    }
}

/// An `Enum8` field outputs the code of an explicit (case-insensitive) name
/// found at its source, whatever the inference rules and the default say;
/// failing a name or an integer, the code of the first matching rule,
/// whatever the default says; failing that, its default coerced.
pub proof fn law_enum8_field_precedence(doc: Value, outs: Seq<Value>, f: CompiledField, raw: Value, r: Value)
    requires
        f.field_type == FieldType::Enum8,
        f.enum8_data is Some,
        resolves_raw(doc, outs, f, raw),
        field_result(doc, outs, f, r),
    ensures
        ({
            let d = f.enum8_data->0;
            &&& lookup_folded(d.value_map@, raw) matches Some(c) ==> is_scalar(r, Scalar::Int(c as int))
            &&& (lookup_folded(d.value_map@, raw) is None && as_int(raw) is None) ==> (infer_spec(
                doc,
                d.infer_rules@,
                d.value_map@,
            ) matches Some(c) ==> is_scalar(r, Scalar::Int(c as int)))
            &&& (lookup_folded(d.value_map@, raw) is None && as_int(raw) is None && infer_spec(
                doc,
                d.infer_rules@,
                d.value_map@,
            ) is None) ==> exists|e: Value| is_default(f.default, e) && #[trigger] coerces(
                e,
                FieldType::Enum8,
                r,
            )
        }),
{
    let d = f.enum8_data->0;
    let raw2 = choose|x: Value|
        #[trigger] resolves_raw(doc, outs, f, x) && exists|e: Value|
            #[trigger] enum_resolved(doc, f, x, e) && coerces(e, FieldType::Enum8, r);
    lemma_resolves_raw_unique(doc, outs, f, raw, raw2);
    assert(lookup_folded(d.value_map@, raw) == lookup_folded(d.value_map@, raw2));
    assert(as_int(raw) == as_int(raw2));
    let e = choose|e: Value| #[trigger] enum_resolved(doc, f, raw2, e) && coerces(e, FieldType::Enum8, r);
    match lookup_folded(d.value_map@, raw) {
        Some(c) => {
            assert(crate::coerce::wrap_i8(c as int) == c as int);
        },
        None => {
            match infer_spec(doc, d.infer_rules@, d.value_map@) {
                Some(c) => {
                    assert(crate::coerce::wrap_i8(c as int) == c as int);
                },
                None => {},
            }
        },
    }
}

proof fn lemma_without_elevated_get(es: Seq<(String, Value)>, keys: Seq<String>, k: Seq<char>)
    requires
        !listed(keys, k),
    ensures
        object_get(without_elevated(es, keys), k) == object_get(es, k),
    decreases es.len(),
{
    if es.len() > 0 {
        let rest = es.drop_last();
        lemma_without_elevated_get(rest, keys, k);
        lemma_push_get(without_elevated(rest, keys), es.last(), k);
        lemma_push_get(rest, es.last(), k);
        assert(rest.push(es.last()) == es);
        if listed(keys, es.last().0@) {
            assert(es.last().0@ != k);
        }
    }
}

proof fn lemma_push_find(acc: Seq<(String, Value)>, e: (String, Value), k: Seq<char>)
    ensures
        find_key(acc.push(e), k) == match find_key(acc, k) {
            Some(i) => Some(i),
            None => if e.0@ == k {
                Some(acc.len() as int)
            } else {
                None
            },
        },
    decreases acc.len(),
{
    if acc.len() > 0 {
        assert(acc.push(e).drop_first() == acc.drop_first().push(e));
        assert(acc.push(e)[0] == acc[0]);
        lemma_push_find(acc.drop_first(), e, k);
        if acc[0].0@ != k {
            assert(find_key(acc.push(e), k) == match find_key(acc.push(e).drop_first(), k) {
                Some(i) => Some(i + 1),
                None => None,
            });
            assert(find_key(acc, k) == match find_key(acc.drop_first(), k) {
                Some(i) => Some(i + 1),
                None => None,
            });
        }
    } else {
        assert(acc.push(e).drop_first() == Seq::<(String, Value)>::empty());
        assert(acc.push(e)[0] == e);
        assert(find_key(Seq::<(String, Value)>::empty(), k) is None);
        assert(find_key(acc, k) is None);
    }
}

/// A lookup in `acc` with one more entry at the end finds what `acc` finds,
/// or else that entry when its key is `k`.
proof fn lemma_push_get(acc: Seq<(String, Value)>, e: (String, Value), k: Seq<char>)
    ensures
        object_get(acc.push(e), k) == match object_get(acc, k) {
            Some(v) => Some(v),
            None => if e.0@ == k {
                Some(e.1)
            } else {
                None
            },
        },
{
    lemma_push_find(acc, e, k);
    lemma_find_key(acc, k);
    match find_key(acc, k) {
        Some(i) => {
            assert(acc.push(e)[i] == acc[i]);
        },
        None => {
            assert(acc.push(e)[acc.len() as int] == e);
        },
    }
}

proof fn lemma_add_missing_get(acc: Seq<(String, Value)>, cs: Seq<(String, Value)>, k: Seq<char>)
    requires
        object_get(acc, k) is Some,
    ensures
        object_get(add_missing(acc, cs), k) == object_get(acc, k),
    decreases cs.len(),
{
    if cs.len() > 0 {
        let a = add_missing(acc, cs.drop_last());
        lemma_add_missing_get(acc, cs.drop_last(), k);
        lemma_push_get(a, cs.last(), k);
    }
}

proof fn lemma_fold_get(acc: Seq<(String, Value)>, es: Seq<(String, Value)>, keys: Seq<String>, k: Seq<char>)
    requires
        object_get(acc, k) is Some,
    ensures
        object_get(elevate_fold(acc, es, keys), k) == object_get(acc, k),
    decreases es.len(),
{
    if es.len() > 0 {
        let a = elevate_fold(acc, es.drop_last(), keys);
        lemma_fold_get(acc, es.drop_last(), keys, k);
        match es.last().1 {
            Value::Object(c) => {
                lemma_add_missing_get(a, c@, k);
            },
            _ => {},
        }
    }
}

/// Elevation keeps a top-level key that is not itself listed: where an
/// elevated child has the same key, the top-level value wins.
pub proof fn law_elevate_keeps_top_level(es: Seq<(String, Value)>, keys: Seq<String>, k: Seq<char>)
    requires
        !listed(keys, k),
        object_get(es, k) is Some,
    ensures
        object_get(elevated(es, keys), k) == object_get(es, k),
{
    lemma_without_elevated_get(es, keys, k);
    lemma_fold_get(without_elevated(es, keys), es, keys, k);
}

proof fn lemma_without_elevated_kept(es: Seq<(String, Value)>, keys: Seq<String>, k: Seq<char>)
    ensures
        object_get(es, k) is None ==> object_get(without_elevated(es, keys), k) is None,
        object_get(es, k) matches Some(v) && !(v is Object) ==> object_get(
            without_elevated(es, keys),
            k,
        ) == object_get(es, k),
    decreases es.len(),
{
    if es.len() > 0 {
        let rest = es.drop_last();
        lemma_without_elevated_kept(rest, keys, k);
        lemma_push_get(without_elevated(rest, keys), es.last(), k);
        lemma_push_get(rest, es.last(), k);
        assert(rest.push(es.last()) == es);
    } else {
        assert(find_key(es, k) is None);
        assert(without_elevated(es, keys).len() == 0);
        assert(find_key(without_elevated(es, keys), k) is None);
    }
}

/// Elevation keeps a key whose value is not an object, listed or not.
pub proof fn law_elevate_keeps_non_objects(es: Seq<(String, Value)>, keys: Seq<String>, k: Seq<char>)
    requires
        object_get(es, k) matches Some(v) && !(v is Object),
    ensures
        object_get(elevated(es, keys), k) == object_get(es, k),
{
    lemma_without_elevated_kept(es, keys, k);
    lemma_fold_get(without_elevated(es, keys), es, keys, k);
}

/// Excluding keys that no entry has changes nothing.
pub proof fn law_exclude_absent_is_noop(es: Seq<(String, Value)>, keys: Seq<String>)
    requires
        forall|i: int| 0 <= i < es.len() ==> !listed(keys, (#[trigger] es[i]).0@),
    ensures
        without_keys(es, keys) == es,
    decreases es.len(),
{
    if es.len() > 0 {
        let rest = es.drop_last();
        assert forall|i: int| 0 <= i < rest.len() implies !listed(keys, (#[trigger] rest[i]).0@) by {
            assert(rest[i] == es[i]);
        }
        law_exclude_absent_is_noop(rest, keys);
        assert(!listed(keys, es[es.len() - 1].0@));
        assert(rest.push(es.last()) == es);
    }
}

/// A configuration whose field list holds two fields of one name does not
/// compile.
pub proof fn law_duplicate_names_rejected(config: Value, i: int, j: int)
    requires
        config_get(config, "fields"@) matches Some(Value::Array(fs)) && 0 <= i < j < fs@.len()
            && config_str(fs@[i], "name"@) == config_str(fs@[j], "name"@),
    ensures
        !config_ok(config),
{
    let fs = config_get(config, "fields"@)->0->Array_0;
    let v = config_get(config, "fields"@)->0;
    assert(v->Array_0@[i] == fs@[i]);
    assert(v->Array_0@[j] == fs@[j]);
}

} // verus!

//! The per-document pipeline: each field resolved, transformed, mapped and
//! coerced in declared order.

use vstd::prelude::*;
use crate::coerce::{
    coerce, coerce_array, coerces, coerces_array, apply_transform, transforms, encode_default,
    is_default, case_insensitive_get, lookup_folded, type_ok,
};
use crate::infer::{infer_spec, evaluate_infer_rules};
use crate::json_ops::{
    apply_exclude_keys, apply_elevate_keys, build_pick_map, picks, entries_same, without_keys,
    elevated, listed, is_listed,
};
use crate::mapping::{CompiledField, CompiledMapping, FieldType, PathSource, is_array_type, is_array_spec};
use crate::path::segs_view;
use crate::query::{evaluates, evaluates_first, paths_view, evaluate, evaluate_first};
use crate::value::{Value, Scalar, is_scalar, same, as_int, int_of, clone_value, lemma_same_refl};

verus! {

/// Whether `v` is the empty string.
pub open spec fn is_empty_str(v: Value) -> bool {
    v matches Value::Str(s) && s@.len() == 0
}

/// `v` is `x`, or the field's default where `x` is absent (or, with
/// `empty_too`, the empty string).
pub open spec fn or_default(x: Value, f: CompiledField, empty_too: bool, v: Value) -> bool {
    if x is Null || (empty_too && is_empty_str(x)) {
        is_default(f.default, v)
    } else {
        same(x, v)
    }
}

/// `v` is the value a field resolves to, with its default: the whole
/// document; a path's result (a string field takes its default for an empty
/// string too); the first of several paths' results (a string field skips
/// empty strings); or an earlier field's output.
pub open spec fn resolves(doc: Value, outs: Seq<Value>, f: CompiledField, v: Value) -> bool {
    let string_field = f.field_type == FieldType::String;
    match f.path_source {
        PathSource::Root => same(doc, v),
        PathSource::Single(p) => exists|x: Value|
            #[trigger] evaluates(doc, segs_view(p@), x) && or_default(x, f, string_field, v),
        PathSource::Coalesce(ps) => exists|x: Value|
            #[trigger] evaluates_first(doc, paths_view(ps@), string_field, x) && or_default(
                x,
                f,
                false,
                v,
            ),
        PathSource::FromOutput(i) => or_default(outs[i as int], f, false, v),
    }
}

/// `v` is the value a field resolves to, without its default.
pub open spec fn resolves_raw(doc: Value, outs: Seq<Value>, f: CompiledField, v: Value) -> bool {
    match f.path_source {
        PathSource::Root => same(doc, v),
        PathSource::Single(p) => evaluates(doc, segs_view(p@), v),
        PathSource::Coalesce(ps) => evaluates_first(doc, paths_view(ps@), false, v),
        PathSource::FromOutput(i) => same(outs[i as int], v),
    }
}

/// The transform stage.
pub open spec fn transformed(v: Value, f: CompiledField, r: Value) -> bool {
    match f.transform {
        Some(t) => transforms(v, t, r),
        None => same(v, r),
    }
}

/// The whitelist stage: a string outside a non-empty whitelist becomes the
/// default.
pub open spec fn allowed(v: Value, f: CompiledField, r: Value) -> bool {
    if f.allowed_values@.len() > 0 && (v matches Value::Str(s) && !listed(f.allowed_values@, s@)) {
        is_default(f.default, r)
    } else {
        same(v, r)
    }
}

/// The value-map stage: with a non-empty map, a known (case-insensitive)
/// string becomes its code and anything else the default.
pub open spec fn mapped(v: Value, f: CompiledField, r: Value) -> bool {
    if f.value_map@.len() > 0 {
        match lookup_folded(f.value_map@, v) {
            Some(c) => is_scalar(r, Scalar::Int(c as int)),
            None => is_default(f.default, r),
        }
    } else {
        same(v, r)
    }
}

/// The enum stage, from the raw value: a known (case-insensitive) name gives
/// its code; an integer passes; otherwise the first inference rule that
/// matches gives its code; otherwise the default.
pub open spec fn enum_resolved(doc: Value, f: CompiledField, raw: Value, r: Value) -> bool {
    match f.enum8_data {
        None => is_default(f.default, r),
        Some(d) => match lookup_folded(d.value_map@, raw) {
            Some(c) => is_scalar(r, Scalar::Int(c as int)),
            None => if as_int(raw) is Some {
                same(raw, r)
            } else {
                match infer_spec(doc, d.infer_rules@, d.value_map@) {
                    Some(c) => is_scalar(r, Scalar::Int(c as int)),
                    None => is_default(f.default, r),
                }
            },
        },
    }
}

/// The value after the pick stage: the sparse object of the pick entries,
/// or `v` when there are none or none yields a value.
pub open spec fn picked(doc: Value, f: CompiledField, v: Value, w: Value) -> bool {
    if f.pick@.len() == 0 {
        same(v, w)
    } else {
        (picks(doc, f.pick@, seq![]) && same(v, w)) || (w matches Value::Object(es) && es@.len() > 0
            && picks(doc, f.pick@, es@))
    }
}

/// The JSON stage: pick, then on an object drop the excluded keys and
/// elevate the listed ones.
pub open spec fn json_applied(doc: Value, f: CompiledField, v: Value, r: Value) -> bool {
    exists|w: Value|
        #[trigger] picked(doc, f, v, w) && match w {
            Value::Object(es) => exists|kept: Seq<(String, Value)>|
                #[trigger] entries_same(kept, without_keys(es@, f.exclude_keys@)) && (r matches Value::Object(
                    rs,
                ) && entries_same(rs@, elevated(kept, f.elevate_keys@))),
            _ => same(w, r),
        }
}

/// `r` is a field's output value, given the document and the outputs of the
/// fields before it.
pub open spec fn field_result(doc: Value, outs: Seq<Value>, f: CompiledField, r: Value) -> bool {
    let t = f.field_type;
    if is_array_spec(t) {
        exists|v: Value| #[trigger] resolves(doc, outs, f, v) && coerces_array(v, t, f.filter_nil, r)
    } else if t == FieldType::Enum8 {
        exists|raw: Value|
            #[trigger] resolves_raw(doc, outs, f, raw) && exists|e: Value|
                #[trigger] enum_resolved(doc, f, raw, e) && coerces(e, t, r)
    } else {
        exists|v0: Value|
            #[trigger] resolves(doc, outs, f, v0) && exists|v1: Value|
                #[trigger] transformed(v0, f, v1) && exists|v2: Value|
                    #[trigger] allowed(v1, f, v2) && exists|v3: Value|
                        #[trigger] mapped(v2, f, v3) && if t == FieldType::Json {
                            json_applied(doc, f, v3, r)
                        } else {
                            coerces(v3, t, r)
                        }
    }
}

/// A field that can stand at position `i`: a type a coercion can target, and
/// a read of an earlier output only.
pub open spec fn field_wf(f: CompiledField, i: int) -> bool {
    type_ok(f.field_type) && (f.path_source matches PathSource::FromOutput(j) ==> j < i)
}

impl CompiledMapping {
    /// Every field can stand where it is, and no two fields share a name.
    pub open spec fn wf(&self) -> bool {
        &&& forall|i: int| 0 <= i < self.fields@.len() ==> field_wf(#[trigger] self.fields@[i], i)
        &&& forall|i: int, j: int|
            0 <= i < j < self.fields@.len() ==> (#[trigger] self.fields@[i]).name@
                != (#[trigger] self.fields@[j]).name@
    }
}

/// The values of a list of entries.
pub open spec fn values_of(es: Seq<(String, Value)>) -> Seq<Value> {
    es.map_values(|e: (String, Value)| e.1)
}

/// `es` is the output of a mapping on a document: one entry per field, in
/// order, named after it, with the field's result given the entries before.
pub open spec fn maps_to(doc: Value, fields: Seq<CompiledField>, es: Seq<(String, Value)>) -> bool {
    es.len() == fields.len() && forall|i: int|
        0 <= i < fields.len() ==> (#[trigger] es[i]).0@ == fields[i].name@ && field_result(
            doc,
            values_of(es.subrange(0, i)),
            fields[i],
            es[i].1,
        )
}

/// `r` is the output object of a mapping on a document.
pub open spec fn maps_doc(doc: Value, fields: Seq<CompiledField>, r: Value) -> bool {
    r matches Value::Object(es) && maps_to(doc, fields, es@)
}

fn resolve_value_raw(doc: &Value, field: &CompiledField, outs: &Vec<(String, Value)>) -> (r: Value)
    requires
        field.path_source matches PathSource::FromOutput(j) ==> j < outs@.len(),
    ensures
        resolves_raw(*doc, values_of(outs@), *field, r),
{
    match &field.path_source {
        PathSource::Root => clone_value(doc),
        PathSource::Single(p) => evaluate(doc, p),
        PathSource::Coalesce(ps) => evaluate_first(doc, ps, false),
        PathSource::FromOutput(i) => {
            let r = clone_value(&outs[*i].1);
            r
        },
    }
}

fn default_unless(x: Value, field: &CompiledField, empty_too: bool) -> (r: Value)
    ensures
        or_default(x, *field, empty_too, r),
{
    let use_default = match &x {
        Value::Null => true,
        Value::Str(s) => empty_too && s.unicode_len() == 0,
        _ => false,
    };
    if use_default {
        encode_default(&field.default)
    } else {
        proof {
            lemma_same_refl(x);
        }
        x
    }
}

fn resolve_value(doc: &Value, field: &CompiledField, outs: &Vec<(String, Value)>) -> (r: Value)
    requires
        field.path_source matches PathSource::FromOutput(j) ==> j < outs@.len(),
    ensures
        resolves(*doc, values_of(outs@), *field, r),
{
    let string_field = field.field_type == FieldType::String;
    match &field.path_source {
        PathSource::Root => clone_value(doc),
        PathSource::Single(p) => {
            let x = evaluate(doc, p);
            let ghost xv = x;
            let r = default_unless(x, field, string_field);
            proof {
                assert(evaluates(*doc, segs_view(p@), xv));
            }
            r
        },
        PathSource::Coalesce(ps) => {
            let x = evaluate_first(doc, ps, string_field);
            let ghost xv = x;
            let r = default_unless(x, field, false);
            proof {
                assert(evaluates_first(*doc, paths_view(ps@), string_field, xv));
            }
            r
        },
        PathSource::FromOutput(i) => {
            let x = clone_value(&outs[*i].1);
            let ghost xv = x;
            let r = default_unless(x, field, false);
            proof {
                let o = values_of(outs@)[*i as int];
                assert(o == outs@[*i as int].1);
                crate::value::lemma_same_sym(o, xv);
                if !(o is Null) {
                    crate::value::lemma_same_trans(o, xv, r);
                }
            }
            r
        },
    }
}

/// Resolves an `Enum8` field's code from its raw value: a known name, an
/// integer as it is, the first matching inference rule, or the default.
fn resolve_enum8(doc: &Value, field: &CompiledField, raw: &Value) -> (r: Value)
    ensures
        enum_resolved(*doc, *field, *raw, r),
{
    let data = match &field.enum8_data {
        Some(d) => d,
        None => {
            return encode_default(&field.default);
        },
    };
    match case_insensitive_get(&data.value_map, raw) {
        Some(code) => {
            return Value::Int(code as i64);
        },
        None => {},
    }
    match int_of(raw) {
        Some(_) => {
            return clone_value(raw);
        },
        None => {},
    }
    match evaluate_infer_rules(doc, data) {
        Some(code) => Value::Int(code as i64),
        None => encode_default(&field.default),
    }
}

/// Applies a JSON field's pick, exclusion and elevation.
fn apply_json_operations(doc: &Value, field: &CompiledField, value: Value) -> (r: Value)
    ensures
        json_applied(*doc, *field, value, r),
{
    let ghost v0 = value;
    let w = if field.pick.len() > 0 {
        let p = build_pick_map(doc, &field.pick);
        match p {
            Value::Null => {
                proof {
                    lemma_same_refl(value);
                }
                value
            },
            _ => p,
        }
    } else {
        proof {
            lemma_same_refl(value);
        }
        value
    };
    proof {
        assert(picked(*doc, *field, v0, w));
    }
    match &w {
        Value::Object(es) => {
            let kept = apply_exclude_keys(es, &field.exclude_keys);
            let lifted = apply_elevate_keys(&kept, &field.elevate_keys);
            let r = Value::Object(lifted);
            proof {
                assert(entries_same(kept@, without_keys(es@, field.exclude_keys@)));
            }
            r
        },
        _ => {
            proof {
                lemma_same_refl(w);
            }
            w
        },
    }
}

/// Computes one field's output value from the document and the outputs so
/// far.
fn map_field(doc: &Value, field: &CompiledField, outs: &Vec<(String, Value)>) -> (r: Value)
    requires
        field_wf(*field, outs@.len() as int),
    ensures
        field_result(*doc, values_of(outs@), *field, r),
{
    let t = field.field_type;
    if is_array_type(&t) {
        let v = resolve_value(doc, field, outs);
        let ghost vv = v;
        let r = coerce_array(&v, &t, field.filter_nil);
        proof {
            assert(resolves(*doc, values_of(outs@), *field, vv));
        }
        return r;
    }
    if t == FieldType::Enum8 {
        let raw = resolve_value_raw(doc, field, outs);
        let e = resolve_enum8(doc, field, &raw);
        let r = coerce(&e, &t);
        proof {
            assert(resolves_raw(*doc, values_of(outs@), *field, raw));
            assert(enum_resolved(*doc, *field, raw, e));
        }
        return r;
    }
    let v0 = resolve_value(doc, field, outs);
    let v1 = match &field.transform {
        Some(tr) => apply_transform(&v0, tr),
        None => clone_value(&v0),
    };
    let v2 = if field.allowed_values.len() > 0 {
        match &v1 {
            Value::Str(s) => if is_listed(&field.allowed_values, s.as_str()) {
                clone_value(&v1)
            } else {
                encode_default(&field.default)
            },
            _ => clone_value(&v1),
        }
    } else {
        clone_value(&v1)
    };
    let v3 = if field.value_map.len() > 0 {
        match case_insensitive_get(&field.value_map, &v2) {
            Some(code) => Value::Int(code),
            None => encode_default(&field.default),
        }
    } else {
        clone_value(&v2)
    };
    let ghost g3 = v3;
    let r = if t == FieldType::Json {
        apply_json_operations(doc, field, v3)
    } else {
        coerce(&v3, &t)
    };
    proof {
        assert(resolves(*doc, values_of(outs@), *field, v0));
        assert(transformed(v0, *field, v1));
        assert(allowed(v1, *field, v2));
        assert(mapped(v2, *field, g3));
    }
    r
}

/// Runs a compiled mapping on one document: every field in declared order,
/// each seeing the outputs of the fields before it, gives one entry of the
/// output object.
pub fn map_single(doc: &Value, mapping: &CompiledMapping) -> (r: Value)
    requires
        mapping.wf(),
    ensures
        maps_doc(*doc, mapping.fields@, r),
{
    let fields = &mapping.fields;
    let mut out: Vec<(String, Value)> = Vec::new();
    let mut i: usize = 0;
    while i < fields.len()
        invariant
            mapping.wf(),
            fields@ == mapping.fields@,
            i <= fields@.len(),
            out@.len() == i,
            forall|k: int|
                0 <= k < i ==> (#[trigger] out@[k]).0@ == fields@[k].name@ && field_result(
                    *doc,
                    values_of(out@.subrange(0, k)),
                    fields@[k],
                    out@[k].1,
                ),
        decreases fields.len() - i,
    {
        proof {
            assert(field_wf(fields@[i as int], i as int));
        }
        let v = map_field(doc, &fields[i], &out);
        let ghost before = out@;
        out.push((fields[i].name.clone(), v));
        proof {
            assert(out@.subrange(0, i as int) == before);
            assert forall|k: int|
                0 <= k < i + 1 implies (#[trigger] out@[k]).0@ == fields@[k].name@ && field_result(
                *doc,
                values_of(out@.subrange(0, k)),
                fields@[k],
                out@[k].1,
            ) by {
                if k < i {
                    assert(out@[k] == before[k]);
                    assert(out@.subrange(0, k) == before.subrange(0, k));
                }
            }
        }
        i = i + 1;
    }
    Value::Object(out)
}

/// Maps each document in order.
pub fn map_batch(docs: &Vec<Value>, mapping: &CompiledMapping) -> (r: Vec<Value>)
    requires
        mapping.wf(),
    ensures
        r@.len() == docs@.len(),
        forall|i: int|
            0 <= i < docs@.len() ==> maps_doc(docs@[i], mapping.fields@, #[trigger] r@[i]),
{
    let mut out: Vec<Value> = Vec::new();
    let mut i: usize = 0;
    while i < docs.len()
        invariant
            mapping.wf(),
            i <= docs@.len(),
            out@.len() == i,
            forall|k: int|
                0 <= k < i ==> maps_doc(docs@[k], mapping.fields@, #[trigger] out@[k]),
        decreases docs.len() - i,
    {
        let r = map_single(&docs[i], mapping);
        out.push(r);
        i = i + 1;
    }
    out
}

} // verus!

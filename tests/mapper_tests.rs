use mapper_ex::value::{clone_value, Value};
use mapper_ex::{decode_mapping, evaluate, evaluate_first, map_batch, map_single, parse, CompiledMapping};

fn s(x: &str) -> Value {
    Value::Str(x.to_string())
}

fn f(x: &str) -> Value {
    Value::Float(x.to_string())
}

fn obj(entries: Vec<(&str, Value)>) -> Value {
    Value::Object(entries.into_iter().map(|(k, v)| (k.to_string(), v)).collect())
}

fn arr(items: Vec<Value>) -> Value {
    Value::Array(items)
}

fn strs(items: &[&str]) -> Value {
    arr(items.iter().map(|x| s(x)).collect())
}

fn config(fields: Vec<Value>) -> Value {
    obj(vec![("fields", arr(fields))])
}

fn compile(fields: Vec<Value>) -> CompiledMapping {
    decode_mapping(&config(fields)).unwrap()
}

fn output(doc: &Value, m: &CompiledMapping) -> Vec<(String, Value)> {
    match map_single(doc, m) {
        Value::Object(es) => es,
        other => panic!("not an object: {:?}", other),
    }
}

fn field_value(doc: &Value, m: &CompiledMapping, name: &str) -> Value {
    for (k, v) in output(doc, m) {
        if k == name {
            return v;
        }
    }
    panic!("no field {}", name)
}

#[test]
fn enum8_name_lookup_scenario() {
    let m = compile(vec![obj(vec![
        ("name", s("severity_number")),
        ("type", s("enum8")),
        ("enum_values", obj(vec![("ERROR", Value::Int(3)), ("INFO", Value::Int(1))])),
        ("path", s("$.level")),
    ])]);
    let doc = obj(vec![("level", s("error"))]);
    assert_eq!(output(&doc, &m), vec![("severity_number".to_string(), Value::Int(3))]);
}

#[test]
fn datetime64_microseconds_scenario() {
    let m = compile(vec![obj(vec![
        ("name", s("ts")),
        ("type", s("datetime64")),
        ("precision", Value::Int(9)),
        ("path", s("$.ts")),
    ])]);
    let doc = obj(vec![("ts", Value::Int(1769018088144506))]);
    assert_eq!(field_value(&doc, &m, "ts"), Value::Int(1769018088144506000));
}

#[test]
fn wildcard_path_scenario() {
    let doc = obj(vec![(
        "notes",
        arr(vec![obj(vec![("action", s("a"))]), obj(vec![("action", s("b"))])]),
    )]);
    let segs = parse("$.notes[*].action").unwrap();
    assert_eq!(evaluate(&doc, &segs), strs(&["a", "b"]));
}

#[test]
fn wildcard_keeps_absent_elements() {
    let doc = obj(vec![("notes", arr(vec![obj(vec![("action", s("a"))]), obj(vec![])]))]);
    let segs = parse("$.notes[*].action").unwrap();
    assert_eq!(evaluate(&doc, &segs), arr(vec![s("a"), Value::Null]));
}

#[test]
fn evaluate_misses_give_null() {
    let doc = obj(vec![("a", arr(vec![Value::Int(1)])), ("b", Value::Int(2))]);
    assert_eq!(evaluate(&doc, &parse("$.a[3]").unwrap()), Value::Null);
    assert_eq!(evaluate(&doc, &parse("$.b.c").unwrap()), Value::Null);
    assert_eq!(evaluate(&doc, &parse("$.b[*]").unwrap()), Value::Null);
    assert_eq!(evaluate(&doc, &parse("$.zz").unwrap()), Value::Null);
    assert_eq!(evaluate(&doc, &parse("$.a[0]").unwrap()), Value::Int(1));
    assert_eq!(evaluate(&doc, &parse("$").unwrap()), clone_value(&doc));
}

#[test]
fn evaluate_first_skips_absent_and_empty() {
    let doc = obj(vec![("a", s("")), ("b", s("x"))]);
    let paths = vec![parse("$.missing").unwrap(), parse("$.a").unwrap(), parse("$.b").unwrap()];
    assert_eq!(evaluate_first(&doc, &paths, false), s(""));
    assert_eq!(evaluate_first(&doc, &paths, true), s("x"));
    let none = vec![parse("$.missing").unwrap()];
    assert_eq!(evaluate_first(&doc, &none, true), Value::Null);
}

#[test]
fn absent_numeric_fields_become_zero() {
    let m = compile(vec![
        obj(vec![("name", s("u")), ("type", s("uint32")), ("path", s("$.x"))]),
        obj(vec![("name", s("i")), ("type", s("int32")), ("path", s("$.x"))]),
        obj(vec![("name", s("f")), ("type", s("float64")), ("path", s("$.x"))]),
        obj(vec![("name", s("b")), ("type", s("boolean")), ("path", s("$.x"))]),
        obj(vec![("name", s("e")), ("type", s("enum8")), ("path", s("$.x"))]),
        obj(vec![("name", s("t")), ("type", s("datetime64")), ("path", s("$.x"))]),
        obj(vec![("name", s("s")), ("path", s("$.x"))]),
    ]);
    let doc = obj(vec![]);
    assert_eq!(field_value(&doc, &m, "u"), Value::UInt(0));
    assert_eq!(field_value(&doc, &m, "i"), Value::Int(0));
    assert_eq!(field_value(&doc, &m, "f"), f("0"));
    assert_eq!(field_value(&doc, &m, "b"), Value::Bool(false));
    assert_eq!(field_value(&doc, &m, "e"), Value::Int(0));
    assert_eq!(field_value(&doc, &m, "t"), Value::Null);
    assert_eq!(field_value(&doc, &m, "s"), Value::Null);
}

fn enum_field(default: Option<Value>) -> Value {
    let mut entries = vec![
        ("name", s("sev")),
        ("type", s("enum8")),
        ("path", s("$.level")),
        ("enum_values", obj(vec![("Error", Value::Int(3)), ("Info", Value::Int(1))])),
        (
            "infer",
            arr(vec![obj(vec![
                ("result", s("ERROR")),
                ("any", arr(vec![obj(vec![("path", s("$.exception")), ("predicate", s("exists"))])])),
            ])]),
        ),
    ];
    if let Some(d) = default {
        entries.push(("default", d));
    }
    obj(entries)
}

#[test]
fn enum8_precedence() {
    let m = compile(vec![enum_field(Some(Value::Int(7)))]);
    let explicit = obj(vec![("level", s("INFO")), ("exception", s("boom"))]);
    assert_eq!(field_value(&explicit, &m, "sev"), Value::Int(1));
    let inferred = obj(vec![("level", s("verbose")), ("exception", s("boom"))]);
    assert_eq!(field_value(&inferred, &m, "sev"), Value::Int(3));
    let neither = obj(vec![("level", s("verbose"))]);
    assert_eq!(field_value(&neither, &m, "sev"), Value::Int(7));
    let integer = obj(vec![("level", Value::Int(5))]);
    assert_eq!(field_value(&integer, &m, "sev"), Value::Int(5));
}

#[test]
fn inference_with_comparisons() {
    let rules = arr(vec![
        obj(vec![
            ("result", s("high")),
            (
                "all",
                arr(vec![
                    obj(vec![
                        ("path", s("$.score")),
                        ("predicate", s("greater_than")),
                        ("comparison_value", s("1.5")),
                    ]),
                    obj(vec![("path", s("$.tags")), ("predicate", s("not_empty"))]),
                ]),
            ),
        ]),
        obj(vec![
            ("result", s("low")),
            (
                "any",
                arr(vec![
                    obj(vec![
                        ("path", s("$.kind")),
                        ("predicate", s("in")),
                        ("comparison_values", arr(vec![s("a"), s("b")])),
                    ]),
                    obj(vec![
                        ("path", s("$.score")),
                        ("predicate", s("less_than")),
                        ("comparison_value", Value::Int(0)),
                    ]),
                ]),
            ),
        ]),
    ]);
    let m = compile(vec![obj(vec![
        ("name", s("level")),
        ("type", s("enum8")),
        ("path", s("$.none")),
        ("enum_values", obj(vec![("high", Value::Int(2)), ("low", Value::Int(1))])),
        ("infer", rules),
    ])]);
    let high = obj(vec![("score", f("2.25")), ("tags", strs(&["x"]))]);
    assert_eq!(field_value(&high, &m, "level"), Value::Int(2));
    let equal = obj(vec![("score", f("1.5")), ("tags", strs(&["x"]))]);
    assert_eq!(field_value(&equal, &m, "level"), Value::Int(0));
    let by_kind = obj(vec![("score", Value::Int(1)), ("kind", s("b"))]);
    assert_eq!(field_value(&by_kind, &m, "level"), Value::Int(1));
    let negative = obj(vec![("score", f("-0.5"))]);
    assert_eq!(field_value(&negative, &m, "level"), Value::Int(1));
    let int_high = obj(vec![("score", Value::Int(2)), ("tags", strs(&["x"]))]);
    assert_eq!(field_value(&int_high, &m, "level"), Value::Int(2));
}

#[test]
fn equality_predicates() {
    let m = compile(vec![obj(vec![
        ("name", s("lvl")),
        ("type", s("enum8")),
        ("enum_values", obj(vec![("yes", Value::Int(1)), ("no", Value::Int(2))])),
        (
            "infer",
            arr(vec![
                obj(vec![
                    ("result", s("yes")),
                    (
                        "all",
                        arr(vec![
                            obj(vec![
                                ("path", s("$.flag")),
                                ("predicate", s("equals")),
                                ("comparison_value", Value::Bool(true)),
                            ]),
                            obj(vec![
                                ("path", s("$.ratio")),
                                ("predicate", s("equals")),
                                ("comparison_value", f("0.50")),
                            ]),
                        ]),
                    ),
                ]),
                obj(vec![
                    ("result", s("no")),
                    (
                        "all",
                        arr(vec![obj(vec![
                            ("path", s("$.code")),
                            ("predicate", s("not_equals")),
                            ("comparison_value", Value::Int(200)),
                        ])]),
                    ),
                ]),
            ]),
        ),
        ("path", s("$.missing")),
    ])]);
    let yes = obj(vec![("flag", Value::Bool(true)), ("ratio", f("0.5")), ("code", Value::Int(200))]);
    assert_eq!(field_value(&yes, &m, "lvl"), Value::Int(1));
    let no = obj(vec![("flag", Value::Bool(false)), ("code", Value::Int(500))]);
    assert_eq!(field_value(&no, &m, "lvl"), Value::Int(2));
    let neither = obj(vec![("code", Value::Int(200))]);
    assert_eq!(field_value(&neither, &m, "lvl"), Value::Int(0));
}

#[test]
fn elevate_keeps_top_level_value() {
    let m = compile(vec![obj(vec![
        ("name", s("meta")),
        ("type", s("json")),
        ("path", s("$")),
        ("elevate_keys", strs(&["inner"])),
    ])]);
    let doc = obj(vec![
        ("a", Value::Int(1)),
        ("inner", obj(vec![("a", Value::Int(2)), ("b", Value::Int(3))])),
    ]);
    assert_eq!(field_value(&doc, &m, "meta"), obj(vec![("a", Value::Int(1)), ("b", Value::Int(3))]));
}

#[test]
fn exclude_absent_key_is_noop() {
    let m = compile(vec![obj(vec![
        ("name", s("meta")),
        ("type", s("json")),
        ("path", s("$")),
        ("exclude_keys", strs(&["nope"])),
    ])]);
    let doc = obj(vec![("a", Value::Int(1)), ("b", s("x"))]);
    assert_eq!(field_value(&doc, &m, "meta"), clone_value(&doc));
}

#[test]
fn exclude_removes_listed_keys() {
    let m = compile(vec![obj(vec![
        ("name", s("meta")),
        ("type", s("json")),
        ("path", s("$")),
        ("exclude_keys", strs(&["b"])),
    ])]);
    let doc = obj(vec![("a", Value::Int(1)), ("b", s("x"))]);
    assert_eq!(field_value(&doc, &m, "meta"), obj(vec![("a", Value::Int(1))]));
}

#[test]
fn pick_builds_sparse_object() {
    let m = compile(vec![obj(vec![
        ("name", s("attrs")),
        ("type", s("json")),
        ("path", s("$.fallback")),
        (
            "pick",
            arr(vec![
                obj(vec![("key", s("user")), ("paths", strs(&["$.u", "$.user.id"]))]),
                obj(vec![("key", s("none")), ("paths", strs(&["$.missing"]))]),
            ]),
        ),
    ])]);
    let doc = obj(vec![("user", obj(vec![("id", Value::Int(9))])), ("fallback", s("fb"))]);
    assert_eq!(field_value(&doc, &m, "attrs"), obj(vec![("user", Value::Int(9))]));
    let empty = obj(vec![("fallback", obj(vec![("k", Value::Int(1))]))]);
    assert_eq!(field_value(&empty, &m, "attrs"), obj(vec![("k", Value::Int(1))]));
}

#[test]
fn json_default_is_empty_object() {
    let m = compile(vec![obj(vec![("name", s("j")), ("type", s("json")), ("path", s("$.nothing"))])]);
    assert_eq!(field_value(&obj(vec![]), &m, "j"), obj(vec![]));
}

#[test]
fn string_field_defaults_and_transforms() {
    let m = compile(vec![
        obj(vec![("name", s("a")), ("path", s("$.a")), ("default", s("none"))]),
        obj(vec![("name", s("b")), ("path", s("$.b")), ("transform", s("Upcase"))]),
        obj(vec![("name", s("c")), ("paths", strs(&["$.x", "$.a", "$.b"]))]),
        obj(vec![("name", s("d")), ("from_output", s("b")), ("transform", s("downcase"))]),
    ]);
    let doc = obj(vec![("a", s("")), ("b", s("mixed"))]);
    assert_eq!(field_value(&doc, &m, "a"), s("none"));
    assert_eq!(field_value(&doc, &m, "b"), s("MIXED"));
    assert_eq!(field_value(&doc, &m, "c"), s("mixed"));
    assert_eq!(field_value(&doc, &m, "d"), s("mixed"));
}

#[test]
fn value_map_and_allowed_values() {
    let m = compile(vec![
        obj(vec![
            ("name", s("num")),
            ("type", s("uint8")),
            ("path", s("$.sev")),
            ("value_map", obj(vec![("Warn", Value::Int(13)), ("error", Value::Int(17))])),
            ("default", Value::Int(0)),
        ]),
        obj(vec![
            ("name", s("env")),
            ("path", s("$.env")),
            ("allowed_values", strs(&["prod", "dev"])),
            ("default", s("other")),
        ]),
    ]);
    let doc = obj(vec![("sev", s("WARN")), ("env", s("staging"))]);
    assert_eq!(field_value(&doc, &m, "num"), Value::UInt(13));
    assert_eq!(field_value(&doc, &m, "env"), s("other"));
    let doc2 = obj(vec![("sev", s("debug")), ("env", s("dev"))]);
    assert_eq!(field_value(&doc2, &m, "num"), Value::UInt(0));
    assert_eq!(field_value(&doc2, &m, "env"), s("dev"));
}

#[test]
fn array_fields() {
    // Array types are not configuration names; a compiled plan carries them.
    let mut m = compile(vec![
        obj(vec![("name", s("ids")), ("path", s("$.ids"))]),
        obj(vec![("name", s("kept")), ("path", s("$.ids")), ("filter_nil", Value::Bool(true))]),
        obj(vec![("name", s("maps")), ("path", s("$.ms"))]),
        obj(vec![("name", s("none")), ("path", s("$.scalar"))]),
    ]);
    m.fields[0].field_type = mapper_ex::FieldType::ArrayUInt64;
    m.fields[1].field_type = mapper_ex::FieldType::ArrayUInt64;
    m.fields[2].field_type = mapper_ex::FieldType::ArrayMap;
    m.fields[3].field_type = mapper_ex::FieldType::ArrayString;
    let doc = obj(vec![
        ("ids", arr(vec![Value::Int(1), Value::Null, s("7"), Value::Int(-3)])),
        ("ms", arr(vec![obj(vec![("k", Value::Int(1))]), Value::Int(2)])),
        ("scalar", Value::Int(4)),
    ]);
    assert_eq!(
        field_value(&doc, &m, "ids"),
        arr(vec![Value::UInt(1), Value::UInt(0), Value::UInt(7), Value::UInt(0)])
    );
    assert_eq!(field_value(&doc, &m, "kept"), arr(vec![Value::UInt(1), Value::UInt(7), Value::UInt(0)]));
    assert_eq!(field_value(&doc, &m, "maps"), arr(vec![obj(vec![("k", Value::Int(1))])]));
    assert_eq!(field_value(&doc, &m, "none"), arr(vec![]));
}

#[test]
fn datetime_from_rfc3339_strings() {
    let m = compile(vec![obj(vec![
        ("name", s("ts")),
        ("type", s("datetime64")),
        ("precision", Value::Int(6)),
        ("path", s("$.ts")),
    ])]);
    let t = obj(vec![("ts", s("2026-01-21T17:54:48.144506Z"))]);
    assert_eq!(field_value(&t, &m, "ts"), Value::Int(1769018088144506));
    let spaced = obj(vec![("ts", s("2026-01-21 17:54:48.144506Z"))]);
    assert_eq!(field_value(&spaced, &m, "ts"), Value::Int(1769018088144506));
    let bad = obj(vec![("ts", s("yesterday"))]);
    assert_eq!(field_value(&bad, &m, "ts"), Value::Int(0));
}

#[test]
fn map_batch_keeps_order() {
    let m = compile(vec![obj(vec![("name", s("n")), ("type", s("int32")), ("path", s("$.n"))])]);
    let docs = vec![obj(vec![("n", Value::Int(1))]), obj(vec![("n", s("22"))]), obj(vec![])];
    let out = map_batch(&docs, &m);
    assert_eq!(out.len(), 3);
    assert_eq!(out[0], obj(vec![("n", Value::Int(1))]));
    assert_eq!(out[1], obj(vec![("n", Value::Int(22))]));
    assert_eq!(out[2], obj(vec![("n", Value::Int(0))]));
}

#[test]
fn duplicate_field_names_rejected() {
    let r = decode_mapping(&config(vec![
        obj(vec![("name", s("a")), ("path", s("$.x"))]),
        obj(vec![("name", s("a")), ("path", s("$.y"))]),
    ]));
    assert!(r.is_err());
}

#[test]
fn array_type_names_are_refused() {
    for t in ["array_string", "array_uint64", "array_float64", "array_json", "array_map", "array_datetime64"] {
        let r = decode_mapping(&config(vec![obj(vec![("name", s("a")), ("type", s(t))])]));
        assert!(r.is_err(), "{} compiled", t);
    }
}

#[test]
fn compile_errors() {
    assert!(decode_mapping(&obj(vec![])).is_err());
    assert!(decode_mapping(&obj(vec![("fields", s("x"))])).is_err());
    assert!(decode_mapping(&config(vec![obj(vec![("path", s("$.x"))])])).is_err());
    assert!(decode_mapping(&config(vec![obj(vec![("name", s("a")), ("type", s("decimal"))])])).is_err());
    assert!(decode_mapping(&config(vec![obj(vec![("name", s("a")), ("transform", s("title"))])])).is_err());
    assert!(decode_mapping(&config(vec![obj(vec![("name", s("a")), ("path", s("a.b"))])])).is_err());
    assert!(decode_mapping(&config(vec![obj(vec![("name", s("a")), ("from_output", s("b"))])])).is_err());
    assert!(decode_mapping(&config(vec![obj(vec![
        ("name", s("a")),
        ("value_map", obj(vec![("x", s("1"))])),
    ])]))
    .is_err());
    assert!(decode_mapping(&config(vec![obj(vec![
        ("name", s("a")),
        ("type", s("datetime64")),
        ("precision", Value::Int(12)),
    ])]))
    .is_err());
    let bad_predicate = obj(vec![
        ("name", s("e")),
        ("type", s("enum8")),
        (
            "infer",
            arr(vec![obj(vec![
                ("result", s("x")),
                ("any", arr(vec![obj(vec![("path", s("$.a")), ("predicate", s("matches"))])])),
            ])]),
        ),
    ]);
    assert!(decode_mapping(&config(vec![bad_predicate])).is_err());
    let missing_value = obj(vec![
        ("name", s("e")),
        ("type", s("enum8")),
        (
            "infer",
            arr(vec![obj(vec![
                ("result", s("x")),
                ("all", arr(vec![obj(vec![("path", s("$.a")), ("predicate", s("greater_than"))])])),
            ])]),
        ),
    ]);
    assert!(decode_mapping(&config(vec![missing_value])).is_err());
}

#[test]
fn compiled_field_shape() {
    let m = compile(vec![
        obj(vec![("name", s("first")), ("path", s("$"))]),
        obj(vec![("name", s("second")), ("type", s("UInt64")), ("from_output", s("first"))]),
    ]);
    assert_eq!(m.fields.len(), 2);
    assert!(matches!(m.fields[0].path_source, mapper_ex::PathSource::Root));
    assert!(matches!(m.fields[1].path_source, mapper_ex::PathSource::FromOutput(0)));
    assert_eq!(m.fields[1].field_type, mapper_ex::FieldType::UInt64);
}

#[test]
fn elevate_keeps_listed_non_objects() {
    let m = compile(vec![obj(vec![
        ("name", s("meta")),
        ("type", s("json")),
        ("path", s("$")),
        ("elevate_keys", strs(&["a", "inner"])),
    ])]);
    let doc = obj(vec![("a", Value::Int(1)), ("inner", obj(vec![("b", Value::Int(2))]))]);
    assert_eq!(field_value(&doc, &m, "meta"), obj(vec![("a", Value::Int(1)), ("b", Value::Int(2))]));
}

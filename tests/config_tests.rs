use mapper_ex::value::Value;
use mapper_ex::{
    decode_enum8_data, evaluate_infer_rules, get_int_key, get_string_key, get_term_key, Predicate,
    PredicateValue,
};

fn s(x: &str) -> Value {
    Value::Str(x.to_string())
}

fn obj(entries: Vec<(&str, Value)>) -> Value {
    Value::Object(entries.into_iter().map(|(k, v)| (k.to_string(), v)).collect())
}

#[test]
fn config_key_readers() {
    let c = obj(vec![("name", s("n")), ("count", Value::Int(4)), ("gone", Value::Null)]);
    assert_eq!(get_term_key(&c, "count"), Some(&Value::Int(4)));
    assert_eq!(get_term_key(&c, "gone"), None);
    assert_eq!(get_term_key(&c, "missing"), None);
    assert_eq!(get_string_key(&c, "name").map(|x| x.as_str()), Some("n"));
    assert_eq!(get_string_key(&c, "count"), None);
    assert_eq!(get_int_key(&c, "count"), Some(4));
    assert_eq!(get_int_key(&c, "name"), None);
    assert_eq!(get_term_key(&s("not a map"), "name"), None);
}

#[test]
fn enum8_data_and_inference() {
    let field = obj(vec![
        ("enum_values", obj(vec![("Warn", Value::Int(4)), ("big", Value::Int(300))])),
        (
            "infer",
            Value::Array(vec![
                obj(vec![
                    ("result", s("BIG")),
                    ("any", Value::Array(vec![obj(vec![("path", s("$.flag")), ("predicate", s("IS_MAP"))])])),
                ]),
                obj(vec![
                    ("result", s("WARN")),
                    (
                        "all",
                        Value::Array(vec![obj(vec![
                            ("path", s("$.n")),
                            ("predicate", s("is_number")),
                        ])]),
                    ),
                ]),
            ]),
        ),
    ]);
    let data = decode_enum8_data(&field).unwrap();
    assert_eq!(data.infer_rules.len(), 2);
    assert_eq!(data.infer_rules[1].result, "warn");
    assert!(matches!(data.infer_rules[0].any[0].predicate, Predicate::IsMap));
    assert!(data.value_map.contains(&("big".to_string(), 44)));
    let flagged = obj(vec![("flag", obj(vec![])), ("n", Value::Int(1))]);
    assert_eq!(evaluate_infer_rules(&flagged, &data), Some(44));
    let doc = obj(vec![("n", Value::Float("2.5".to_string()))]);
    assert_eq!(evaluate_infer_rules(&doc, &data), Some(4));
    let other = obj(vec![("n", s("2"))]);
    assert_eq!(evaluate_infer_rules(&other, &data), None);
}

#[test]
fn enum8_data_errors() {
    let bad_code = obj(vec![("enum_values", obj(vec![("a", s("1"))]))]);
    assert!(decode_enum8_data(&bad_code).is_err());
    let bad_rules = obj(vec![("infer", s("x"))]);
    assert!(decode_enum8_data(&bad_rules).is_err());
    let missing_result = obj(vec![("infer", Value::Array(vec![obj(vec![])]))]);
    assert!(decode_enum8_data(&missing_result).is_err());
    let unknown_result = obj(vec![
        ("enum_values", obj(vec![("a", Value::Int(1))])),
        ("infer", Value::Array(vec![obj(vec![("result", s("x"))])])),
    ]);
    match decode_enum8_data(&unknown_result) {
        Err(e) => assert!(e.contains("x")),
        Ok(_) => panic!("a result naming no enum value compiled"),
    }
    let known_result = obj(vec![
        ("enum_values", obj(vec![("A", Value::Int(1))])),
        ("infer", Value::Array(vec![obj(vec![("result", s("a"))])])),
    ]);
    assert!(decode_enum8_data(&known_result).is_ok());
}

#[test]
fn comparison_literals_compile() {
    let conditions = Value::Array(vec![
        obj(vec![
            ("path", s("$.a")),
            ("predicate", s("in")),
            ("comparison_values", Value::Array(vec![Value::Int(1), s("x"), Value::Bool(false)])),
        ]),
        obj(vec![
            ("path", s("$.b")),
            ("predicate", s("less_than")),
            ("comparison_value", s("+2.50")),
        ]),
    ]);
    let field = obj(vec![
        ("enum_values", obj(vec![("r", Value::Int(1))])),
        ("infer", Value::Array(vec![obj(vec![("result", s("r")), ("any", conditions)])])),
    ]);
    let data = decode_enum8_data(&field).unwrap();
    let any = &data.infer_rules[0].any;
    match &any[0].predicate {
        Predicate::In(vs) => assert_eq!(
            vs,
            &vec![PredicateValue::Int(1), PredicateValue::Str("x".to_string()), PredicateValue::Bool(false)]
        ),
        _ => panic!("expected an in predicate"),
    }
    match &any[1].predicate {
        Predicate::LessThan(t) => assert_eq!(t, &PredicateValue::Flt("2.50".to_string())),
        _ => panic!("expected a less_than predicate"),
    }
}

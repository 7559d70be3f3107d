//! Predicates on document values and the rule-based inference of enum codes.

use vstd::prelude::*;
use crate::coerce::{lookup, get_key};
use crate::decimal::{
    Num, num_of_int, num_of_float, num_lt, num_eq, comparable, decimal_from_int, decimal_from_float,
    compare_decimals, Decimal,
};
use crate::mapping::{Predicate, PredicateValue, InferCondition, InferRule, Enum8Data};
use crate::path::segs_view;
use crate::query::{evaluates, evaluate, lemma_evaluates_unique};
use crate::text::{float_is_zero, unsigned_part};
use crate::value::{Value, as_int, int_of, same};

verus! {

/// The number a value is: an integer or a float.
pub open spec fn value_num(v: Value) -> Option<Num> {
    match as_int(v) {
        Some(i) => Some(num_of_int(i as int)),
        None => match v {
            Value::Float(f) => num_of_float(f@),
            _ => None,
        },
    }
}

/// The number a comparison literal is.
pub open spec fn literal_num(p: PredicateValue) -> Option<Num> {
    match p {
        PredicateValue::Int(i) => Some(num_of_int(i as int)),
        PredicateValue::Flt(f) => num_of_float(f@),
        _ => None,
    }
}

/// Whether `v` equals the literal `p`, compared as the literal's type: a
/// string by its characters, an integer, a float by its value, a boolean.
/// Floats compare exactly, by the decimal values of their renderings: no
/// tolerance (such as a machine epsilon) is applied, since floating-point
/// arithmetic is not done here.
pub open spec fn matches_literal(v: Value, p: PredicateValue) -> bool {
    match p {
        PredicateValue::Str(s) => v matches Value::Str(t) && t@ == s@,
        PredicateValue::Int(i) => as_int(v) == Some(i),
        PredicateValue::Flt(f) => match (v, num_of_float(f@)) {
            (Value::Float(g), Some(y)) => match num_of_float(g@) {
                Some(x) => comparable(x, y) && num_eq(x, y),
                None => false,
            },
            _ => false,
        },
        PredicateValue::Bool(b) => v matches Value::Bool(c) && c == b,
    }
}

/// `v` compared with the literal `p`: `Some(c)` with `c` -1, 0 or 1 when both
/// are numbers that can be compared.
pub open spec fn compares(v: Value, p: PredicateValue, c: int) -> bool {
    match (value_num(v), literal_num(p)) {
        (Some(x), Some(y)) => comparable(x, y) && (if num_lt(x, y) {
            c == -1
        } else if num_lt(y, x) {
            c == 1
        } else {
            c == 0
        }),
        _ => false,
    }
}

/// Whether `v` equals one of the literals.
pub open spec fn matches_any(v: Value, vs: Seq<PredicateValue>) -> bool {
    exists|i: int| 0 <= i < vs.len() && matches_literal(v, #[trigger] vs[i])
}

/// Whether a predicate holds of the value found at a condition's path.
pub open spec fn predicate_holds(v: Value, p: Predicate) -> bool {
    match p {
        Predicate::Exists => !(v is Null),
        Predicate::NotExists => v is Null,
        Predicate::NotZero => match as_int(v) {
            Some(i) => i != 0,
            None => v matches Value::Float(f) && !float_is_zero(f@),
        },
        Predicate::IsZero => match as_int(v) {
            Some(i) => i == 0,
            None => v matches Value::Float(f) && float_is_zero(f@),
        },
        Predicate::GreaterThan(t) => compares(v, t, 1),
        Predicate::LessThan(t) => compares(v, t, -1),
        Predicate::NotEmpty => match v {
            Value::Str(s) => s@.len() > 0,
            Value::Array(a) => a@.len() > 0,
            _ => false,
        },
        Predicate::IsEmpty => match v {
            Value::Str(s) => s@.len() == 0,
            Value::Array(a) => a@.len() == 0,
            _ => false,
        },
        Predicate::Equals(e) => !(v is Null) && matches_literal(v, e),
        Predicate::NotEquals(e) => v is Null || !matches_literal(v, e),
        Predicate::In(vs) => !(v is Null) && matches_any(v, vs@),
        Predicate::IsString => v is Str,
        Predicate::IsNumber => as_int(v) is Some || v is Float,
        Predicate::IsList => v is Array,
        Predicate::IsMap => v is Object,
    }
}

/// Whether a condition holds of a document: its predicate holds of what its
/// path evaluates to.
pub open spec fn condition_holds(doc: Value, c: InferCondition) -> bool {
    exists|r: Value| #[trigger] evaluates(doc, segs_view(c.path@), r) && predicate_holds(r, c.predicate)
}

/// Whether a rule matches a document: `any` is empty or one of its conditions
/// holds, and `all` is empty or each of its conditions holds.
pub open spec fn rule_matches(doc: Value, rule: InferRule) -> bool {
    (rule.any@.len() == 0 || exists|i: int|
        0 <= i < rule.any@.len() && condition_holds(doc, #[trigger] rule.any@[i])) && (
    rule.all@.len() == 0 || forall|i: int|
        0 <= i < rule.all@.len() ==> condition_holds(doc, #[trigger] rule.all@[i]))
}

/// The code the first rule gives that matches and whose result is a known
/// enum name.
pub open spec fn infer_spec(doc: Value, rules: Seq<InferRule>, m: Seq<(String, i8)>) -> Option<i8>
    decreases rules.len(),
{
    if rules.len() == 0 {
        None
    } else if rule_matches(doc, rules[0]) && lookup(m, rules[0].result@) is Some {
        lookup(m, rules[0].result@)
    } else {
        infer_spec(doc, rules.drop_first(), m)
    }
}

proof fn lemma_literal_same(a: Value, b: Value, p: PredicateValue)
    requires
        same(a, b),
    ensures
        matches_literal(a, p) == matches_literal(b, p),
        value_num(a) == value_num(b),
{
}

proof fn lemma_predicate_same(a: Value, b: Value, p: Predicate)
    requires
        same(a, b),
    ensures
        predicate_holds(a, p) == predicate_holds(b, p),
{
    match p {
        Predicate::In(vs) => {
            assert forall|i: int| 0 <= i < vs@.len() implies matches_literal(a, #[trigger] vs@[i])
                == matches_literal(b, vs@[i]) by {
                lemma_literal_same(a, b, vs@[i]);
            }
            assert(matches_any(a, vs@) == matches_any(b, vs@));
        },
        Predicate::Equals(e) => lemma_literal_same(a, b, e),
        Predicate::NotEquals(e) => lemma_literal_same(a, b, e),
        Predicate::GreaterThan(t) => lemma_literal_same(a, b, t),
        Predicate::LessThan(t) => lemma_literal_same(a, b, t),
        _ => {},
    }
}

fn value_decimal(v: &Value) -> (r: Option<Decimal>)
    ensures
        match value_num(*v) {
            Some(x) => r matches Some(d) && d@ == x && d.wf(),
            None => r is None,
        },
{
    match int_of(v) {
        Some(i) => Some(decimal_from_int(i)),
        None => match v {
            Value::Float(f) => decimal_from_float(f.as_str()),
            _ => None,
        },
    }
}

fn literal_decimal(p: &PredicateValue) -> (r: Option<Decimal>)
    ensures
        match literal_num(*p) {
            Some(x) => r matches Some(d) && d@ == x && d.wf(),
            None => r is None,
        },
{
    match p {
        PredicateValue::Int(i) => Some(decimal_from_int(*i)),
        PredicateValue::Flt(f) => decimal_from_float(f.as_str()),
        _ => None,
    }
}

/// Compares a value with a literal as numbers.
fn compare_with(v: &Value, p: &PredicateValue, want: i8) -> (r: bool)
    requires
        -1 <= want <= 1,
    ensures
        r == compares(*v, *p, want as int),
{
    match (value_decimal(v), literal_decimal(p)) {
        (Some(x), Some(y)) => {
            if x.digits.len() > 1_000_000_000 || y.digits.len() > 1_000_000_000 - x.digits.len() {
                return false;
            }
            compare_decimals(&x, &y) == want
        },
        _ => false,
    }
}

/// Whether a value equals a literal of the literal's type.
fn matches_predicate_value(v: &Value, p: &PredicateValue) -> (r: bool)
    ensures
        r == matches_literal(*v, *p),
{
    match p {
        PredicateValue::Str(s) => match v {
            Value::Str(t) => crate::value::str_eq(t.as_str(), s.as_str()),
            _ => false,
        },
        PredicateValue::Int(i) => match int_of(v) {
            Some(j) => j == *i,
            None => false,
        },
        PredicateValue::Flt(f) => match v {
            Value::Float(g) => match (decimal_from_float(g.as_str()), decimal_from_float(f.as_str())) {
                (Some(x), Some(y)) => {
                    if x.digits.len() > 1_000_000_000 || y.digits.len() > 1_000_000_000
                        - x.digits.len() {
                        return false;
                    }
                    compare_decimals(&x, &y) == 0
                },
                _ => false,
            },
            _ => false,
        },
        PredicateValue::Bool(b) => match v {
            Value::Bool(c) => *c == *b,
            _ => false,
        },
    }
}

fn is_zero_text(f: &str) -> (r: bool)
    ensures
        r == float_is_zero(f@),
{
    let n = f.unicode_len();
    let start: usize = if n > 0 && f.get_char(0) == '-' {
        1
    } else {
        0
    };
    let ghost u = unsigned_part(f@);
    proof {
        assert(u == f@.subrange(start as int, n as int));
    }
    let mut i = start;
    while i < n
        invariant
            start <= i <= n == f@.len(),
            u == unsigned_part(f@),
            u == f@.subrange(start as int, n as int),
            forall|k: int| 0 <= k < i - start ==> (#[trigger] u[k] == '0' || u[k] == '.'),
        decreases n - i,
    {
        let c = f.get_char(i);
        if c != '.' && c != '0' {
            proof {
                assert(u[i - start] == c);
                assert(u[i - start] != '.' && u[i - start] != '0');
                assert(0 <= i - start < u.len());
                assert(!float_is_zero(f@));
            }
            return false;
        }
        proof {
            assert(u[i - start] == c);
        }
        i = i + 1;
    }
    true
}

/// Whether a predicate holds of a value.
pub fn predicate_matches(v: &Value, p: &Predicate) -> (r: bool)
    ensures
        r == predicate_holds(*v, *p),
{
    let absent = match v {
        Value::Null => true,
        _ => false,
    };
    match p {
        Predicate::Exists => !absent,
        Predicate::NotExists => absent,
        Predicate::NotZero => match int_of(v) {
            Some(i) => i != 0,
            None => match v {
                Value::Float(f) => !is_zero_text(f.as_str()),
                _ => false,
            },
        },
        Predicate::IsZero => match int_of(v) {
            Some(i) => i == 0,
            None => match v {
                Value::Float(f) => is_zero_text(f.as_str()),
                _ => false,
            },
        },
        Predicate::GreaterThan(t) => compare_with(v, t, 1),
        Predicate::LessThan(t) => compare_with(v, t, -1),
        Predicate::NotEmpty => match v {
            Value::Str(s) => s.unicode_len() > 0,
            Value::Array(a) => a.len() > 0,
            _ => false,
        },
        Predicate::IsEmpty => match v {
            Value::Str(s) => s.unicode_len() == 0,
            Value::Array(a) => a.len() == 0,
            _ => false,
        },
        Predicate::Equals(e) => !absent && matches_predicate_value(v, e),
        Predicate::NotEquals(e) => absent || !matches_predicate_value(v, e),
        Predicate::In(vs) => {
            if absent {
                return false;
            }
            let mut i: usize = 0;
            while i < vs.len()
                invariant
                    *p == Predicate::In(*vs),
                    !(*v is Null),
                    i <= vs@.len(),
                    forall|j: int| 0 <= j < i ==> !matches_literal(*v, #[trigger] vs@[j]),
                decreases vs.len() - i,
            {
                if matches_predicate_value(v, &vs[i]) {
                    proof {
                        assert(matches_literal(*v, vs@[i as int]));
                        assert(matches_any(*v, vs@));
                    }
                    return true;
                }
                i = i + 1;
            }
            false
        },
        Predicate::IsString => match v {
            Value::Str(_) => true,
            _ => false,
        },
        Predicate::IsNumber => match int_of(v) {
            Some(_) => true,
            None => match v {
                Value::Float(_) => true,
                _ => false,
            },
        },
        Predicate::IsList => match v {
            Value::Array(_) => true,
            _ => false,
        },
        Predicate::IsMap => match v {
            Value::Object(_) => true,
            _ => false,
        },
    }
}

/// Evaluates a condition's path on a document and tests its predicate.
pub fn evaluate_condition(doc: &Value, cond: &InferCondition) -> (r: bool)
    ensures
        r == condition_holds(*doc, *cond),
{
    let x = evaluate(doc, &cond.path);
    let r = predicate_matches(&x, &cond.predicate);
    proof {
        if !r {
            assert forall|y: Value| #[trigger] evaluates(*doc, segs_view(cond.path@), y) implies !predicate_holds(
                y,
                cond.predicate,
            ) by {
                lemma_evaluates_unique(*doc, segs_view(cond.path@), x, y);
                lemma_predicate_same(x, y, cond.predicate);
            }
        }
    }
    r
}

/// Whether a rule matches a document.
pub fn rule_matches_exec(doc: &Value, rule: &InferRule) -> (r: bool)
    ensures
        r == rule_matches(*doc, *rule),
{
    let mut any_match = rule.any.len() == 0;
    let mut i: usize = 0;
    while i < rule.any.len() && !any_match
        invariant
            i <= rule.any@.len(),
            any_match ==> (rule.any@.len() == 0 || exists|j: int|
                0 <= j < rule.any@.len() && condition_holds(*doc, #[trigger] rule.any@[j])),
            !any_match ==> rule.any@.len() > 0 && forall|j: int|
                0 <= j < i ==> !condition_holds(*doc, #[trigger] rule.any@[j]),
        decreases rule.any.len() - i,
    {
        if evaluate_condition(doc, &rule.any[i]) {
            any_match = true;
        }
        i = i + 1;
    }
    if !any_match {
        return false;
    }
    let mut j: usize = 0;
    while j < rule.all.len()
        invariant
            j <= rule.all@.len(),
            forall|k: int| 0 <= k < j ==> condition_holds(*doc, #[trigger] rule.all@[k]),
        decreases rule.all.len() - j,
    {
        if !evaluate_condition(doc, &rule.all[j]) {
            return false;
        }
        j = j + 1;
    }
    true
}

/// Runs the inference rules in order and returns the code of the first that
/// matches and names a known enum value.
pub fn evaluate_infer_rules(doc: &Value, enum8_data: &Enum8Data) -> (r: Option<i8>)
    ensures
        r == infer_spec(*doc, enum8_data.infer_rules@, enum8_data.value_map@),
{
    let rules = &enum8_data.infer_rules;
    let mut i: usize = 0;
    proof {
        assert(rules@.subrange(0, rules@.len() as int) == rules@);
    }
    while i < rules.len()
        invariant
            rules@ == enum8_data.infer_rules@,
            i <= rules@.len(),
            infer_spec(*doc, rules@, enum8_data.value_map@) == infer_spec(
                *doc,
                rules@.subrange(i as int, rules@.len() as int),
                enum8_data.value_map@,
            ),
        decreases rules.len() - i,
    {
        let ghost t = rules@.subrange(i as int, rules@.len() as int);
        proof {
            assert(t[0] == rules@[i as int]);
            assert(t.drop_first() == rules@.subrange(i + 1, rules@.len() as int));
        }
        if rule_matches_exec(doc, &rules[i]) {
            match get_key(&enum8_data.value_map, rules[i].result.as_str()) {
                Some(code) => {
                    proof {
                        assert(t.len() > 0);
                        assert(rule_matches(*doc, t[0]));
                        assert(lookup(enum8_data.value_map@, t[0].result@) == Some(code));
                        assert(infer_spec(*doc, t, enum8_data.value_map@) == Some(code));
                        assert(infer_spec(*doc, rules@, enum8_data.value_map@) == Some(code));
                        assert(infer_spec(*doc, t, enum8_data.value_map@) == lookup(
                            enum8_data.value_map@,
                            t[0].result@,
                        ));
                    }
                    return Some(code);
                },
                None => {},
            }
        }
        i = i + 1;
    }
    None
}

} // verus!

//! Document values, their structural sameness, and object lookups.

use vstd::prelude::*;

verus! {

/// A document value: what the mapper reads and what it produces.
///
/// `UInt` carries an unsigned result that may exceed `i64` (what the
/// unsigned coercions produce); up to `i64::MAX` it reads as an integer.
/// A float is held as a decimal rendering (an optional `-`, digits, and an
/// optional `.` followed by digits), so that it passes through without loss:
/// the shortest rendering for a float read from a document, the digits as
/// written for one read from text.
/// An object is a list of entries; its keys are meant to be distinct, and a
/// lookup takes the first entry with the key.
#[derive(Debug, PartialEq)]
pub enum Value {
    Null,
    Bool(bool),
    Int(i64),
    UInt(u64),
    Float(String),
    Str(String),
    Array(Vec<Value>),
    Object(Vec<(String, Value)>),
}

/// The integer a value reads as: an `Int`, or a `UInt` that fits an `i64`.
pub open spec fn as_int(v: Value) -> Option<i64> {
    match v {
        Value::Int(i) => Some(i),
        Value::UInt(u) => if u <= i64::MAX {
            Some(u as i64)
        } else {
            None
        },
        _ => None,
    }
}

/// The integer a value reads as, if any.
pub fn int_of(v: &Value) -> (r: Option<i64>)
    ensures
        r == as_int(*v),
{
    match v {
        Value::Int(i) => Some(*i),
        Value::UInt(u) => if *u <= i64::MAX as u64 {
            Some(*u as i64)
        } else {
            None
        },
        _ => None,
    }
}

/// A scalar result, as the contracts describe it.
pub enum Scalar {
    Null,
    Bool(bool),
    Int(int),
    UInt(nat),
    Float(Seq<char>),
    Str(Seq<char>),
}

/// Whether `r` is the scalar `s`.
pub open spec fn is_scalar(r: Value, s: Scalar) -> bool {
    match (r, s) {
        (Value::Null, Scalar::Null) => true,
        (Value::Bool(a), Scalar::Bool(b)) => a == b,
        (Value::Int(a), Scalar::Int(b)) => a as int == b,
        (Value::UInt(a), Scalar::UInt(b)) => a as nat == b,
        (Value::Float(a), Scalar::Float(b)) => a@ == b,
        (Value::Str(a), Scalar::Str(b)) => a@ == b,
        _ => false,
    }
}

/// Whether two values hold the same data: the same variant, equal scalars,
/// equal texts, and element by element (entry by entry) the same children.
pub open spec fn same(a: Value, b: Value) -> bool
    decreases a,
{
    match (a, b) {
        (Value::Null, Value::Null) => true,
        (Value::Bool(x), Value::Bool(y)) => x == y,
        (Value::Int(x), Value::Int(y)) => x == y,
        (Value::UInt(x), Value::UInt(y)) => x == y,
        (Value::Float(x), Value::Float(y)) => x@ == y@,
        (Value::Str(x), Value::Str(y)) => x@ == y@,
        (Value::Array(x), Value::Array(y)) => x@.len() == y@.len() && forall|i: int|
            0 <= i < x@.len() ==> same(#[trigger] x@[i], y@[i]),
        (Value::Object(x), Value::Object(y)) => x@.len() == y@.len() && forall|i: int|
            0 <= i < x@.len() ==> (#[trigger] x@[i]).0@ == y@[i].0@ && same(x@[i].1, y@[i].1),
        _ => false,
    }
}

pub proof fn lemma_same_refl(a: Value)
    ensures
        same(a, a),
    decreases a,
{
    match a {
        Value::Array(x) => {
            assert forall|i: int| 0 <= i < x@.len() implies same(#[trigger] x@[i], x@[i]) by {
                lemma_same_refl(x@[i]);
            }
        },
        Value::Object(x) => {
            assert forall|i: int| 0 <= i < x@.len() implies (#[trigger] x@[i]).0@ == x@[i].0@
                && same(x@[i].1, x@[i].1) by {
                lemma_same_refl(x@[i].1);
            }
        },
        _ => {},
    }
}

pub proof fn lemma_same_sym(a: Value, b: Value)
    requires
        same(a, b),
    ensures
        same(b, a),
    decreases a,
{
    match (a, b) {
        (Value::Array(x), Value::Array(y)) => {
            assert forall|i: int| 0 <= i < y@.len() implies same(#[trigger] y@[i], x@[i]) by {
                lemma_same_sym(x@[i], y@[i]);
            }
        },
        (Value::Object(x), Value::Object(y)) => {
            assert forall|i: int| 0 <= i < y@.len() implies (#[trigger] y@[i]).0@ == x@[i].0@
                && same(y@[i].1, x@[i].1) by {
                lemma_same_sym(x@[i].1, y@[i].1);
            }
        },
        _ => {},
    }
}

pub proof fn lemma_same_trans(a: Value, b: Value, c: Value)
    requires
        same(a, b),
        same(b, c),
    ensures
        same(a, c),
    decreases a,
{
    match (a, b, c) {
        (Value::Array(x), Value::Array(y), Value::Array(z)) => {
            assert forall|i: int| 0 <= i < x@.len() implies same(#[trigger] x@[i], z@[i]) by {
                lemma_same_trans(x@[i], y@[i], z@[i]);
            }
        },
        (Value::Object(x), Value::Object(y), Value::Object(z)) => {
            assert forall|i: int| 0 <= i < x@.len() implies (#[trigger] x@[i]).0@ == z@[i].0@
                && same(x@[i].1, z@[i].1) by {
                lemma_same_trans(x@[i].1, y@[i].1, z@[i].1);
            }
        },
        _ => {},
    }
}

/// The first entry of `entries` whose key is `key`, as an index.
pub open spec fn find_key(entries: Seq<(String, Value)>, key: Seq<char>) -> Option<int>
    decreases entries.len(),
{
    if entries.len() == 0 {
        None
    } else if entries[0].0@ == key {
        Some(0)
    } else {
        match find_key(entries.drop_first(), key) {
            Some(i) => Some(i + 1),
            None => None,
        }
    }
}

/// The value stored under `key` in an object's entries.
pub open spec fn object_get(entries: Seq<(String, Value)>, key: Seq<char>) -> Option<Value> {
    match find_key(entries, key) {
        Some(i) => Some(entries[i].1),
        None => None,
    }
}

/// The keys of an object's entries, in order.
pub open spec fn keys_of(entries: Seq<(String, Value)>) -> Seq<Seq<char>> {
    entries.map_values(|e: (String, Value)| e.0@)
}

pub proof fn lemma_find_key(entries: Seq<(String, Value)>, key: Seq<char>)
    ensures
        find_key(entries, key) matches Some(i) ==> 0 <= i < entries.len() && entries[i].0@ == key
            && forall|j: int| 0 <= j < i ==> entries[j].0@ != key,
        find_key(entries, key) is None ==> forall|j: int|
            0 <= j < entries.len() ==> entries[j].0@ != key,
    decreases entries.len(),
{
    if entries.len() > 0 {
        lemma_find_key(entries.drop_first(), key);
        if entries[0].0@ != key {
            assert forall|j: int| 1 <= j < entries.len() implies entries[j] == entries.drop_first()[j
                - 1] by {}
        }
    }
}

/// A copy of `v`.
pub fn clone_value(v: &Value) -> (r: Value)
    ensures
        same(*v, r),
    decreases v,
{
    match v {
        Value::Null => Value::Null,
        Value::Bool(b) => Value::Bool(*b),
        Value::Int(i) => Value::Int(*i),
        Value::UInt(u) => Value::UInt(*u),
        Value::Float(f) => Value::Float(f.clone()),
        Value::Str(s) => Value::Str(s.clone()),
        Value::Array(a) => {
            let mut out: Vec<Value> = Vec::new();
            let mut i: usize = 0;
            while i < a.len()
                invariant
                    *v == Value::Array(*a),
                    i <= a@.len(),
                    out@.len() == i,
                    forall|j: int| 0 <= j < i ==> same(#[trigger] a@[j], out@[j]),
                decreases a.len() - i,
            {
                proof {
                    assert(decreases_to!(*v => v->Array_0));
                    assert(decreases_to!(*a => a[i as int]));
                }
                let c = clone_value(&a[i]);
                out.push(c);
                i = i + 1;
            }
            Value::Array(out)
        },
        Value::Object(es) => {
            let mut out: Vec<(String, Value)> = Vec::new();
            let mut i: usize = 0;
            while i < es.len()
                invariant
                    *v == Value::Object(*es),
                    i <= es@.len(),
                    out@.len() == i,
                    forall|j: int|
                        0 <= j < i ==> (#[trigger] es@[j]).0@ == out@[j].0@ && same(
                            es@[j].1,
                            out@[j].1,
                        ),
                decreases es.len() - i,
            {
                proof {
                    assert(decreases_to!(*v => v->Object_0));
                    assert(decreases_to!(*es => es[i as int]));
                    assert(decreases_to!(es[i as int] => es[i as int].1));
                }
                let c = clone_value(&es[i].1);
                out.push((es[i].0.clone(), c));
                i = i + 1;
            }
            Value::Object(out)
        },
    }
}

/// Whether two strings hold the same characters.
pub fn str_eq(a: &str, b: &str) -> (r: bool)
    ensures
        r == (a@ == b@),
{
    let n = a.unicode_len();
    if n != b.unicode_len() {
        return false;
    }
    let mut i: usize = 0;
    while i < n
        invariant
            n == a@.len() == b@.len(),
            i <= n,
            a@.subrange(0, i as int) == b@.subrange(0, i as int),
        decreases n - i,
    {
        if a.get_char(i) != b.get_char(i) {
            return false;
        }
        proof {
            assert(a@.subrange(0, i + 1) == a@.subrange(0, i as int).push(a@[i as int]));
            assert(b@.subrange(0, i + 1) == b@.subrange(0, i as int).push(b@[i as int]));
        }
        i = i + 1;
    }
    proof {
        assert(a@ == a@.subrange(0, n as int));
        assert(b@ == b@.subrange(0, n as int));
    }
    true
}

/// Looks up `key` among an object's entries.
pub fn get_entry<'a>(entries: &'a Vec<(String, Value)>, key: &str) -> (r: Option<&'a Value>)
    ensures
        match object_get(entries@, key@) {
            Some(v) => r == Some(&v),
            None => r is None,
        },
{
    let mut i: usize = 0;
    while i < entries.len()
        invariant
            i <= entries@.len(),
            forall|j: int| 0 <= j < i ==> entries@[j].0@ != key@,
        decreases entries.len() - i,
    {
        if str_eq(entries[i].0.as_str(), key) {
            proof {
                lemma_find_key(entries@, key@);
            }
            return Some(&entries[i].1);
        }
        i = i + 1;
    }
    proof {
        lemma_find_key(entries@, key@);
    }
    None
}

} // verus!

//! Operations on JSON fields: sparse pick, key exclusion and key elevation.

use vstd::prelude::*;
use crate::mapping::PickEntry;
use crate::query::{evaluates_first, paths_view, evaluate_first};
use crate::value::{Value, same, keys_of, clone_value, str_eq, lemma_same_refl};

verus! {

/// Two entry lists with the same keys, in order, and the same values.
pub open spec fn entries_same(a: Seq<(String, Value)>, b: Seq<(String, Value)>) -> bool {
    a.len() == b.len() && forall|i: int|
        0 <= i < a.len() ==> (#[trigger] a[i]).0@ == b[i].0@ && same(a[i].1, b[i].1)
}

/// Whether `k` is one of the key texts.
pub open spec fn listed(keys: Seq<String>, k: Seq<char>) -> bool {
    exists|j: int| 0 <= j < keys.len() && (#[trigger] keys[j])@ == k
}

/// Whether `k` is one of the key texts.
pub fn is_listed(keys: &Vec<String>, k: &str) -> (r: bool)
    ensures
        r == listed(keys@, k@),
{
    let mut j: usize = 0;
    while j < keys.len()
        invariant
            j <= keys@.len(),
            forall|m: int| 0 <= m < j ==> (#[trigger] keys@[m])@ != k@,
        decreases keys.len() - j,
    {
        if str_eq(keys[j].as_str(), k) {
            return true;
        }
        j = j + 1;
    }
    false
}

/// The entries whose keys are not listed, in order.
pub open spec fn without_keys(es: Seq<(String, Value)>, keys: Seq<String>) -> Seq<(String, Value)>
    decreases es.len(),
{
    if es.len() == 0 {
        seq![]
    } else if listed(keys, es.last().0@) {
        without_keys(es.drop_last(), keys)
    } else {
        without_keys(es.drop_last(), keys).push(es.last())
    }
}

/// Removes the listed top-level keys from an object's entries; a listed key
/// that is absent changes nothing.
pub fn apply_exclude_keys(entries: &Vec<(String, Value)>, exclude: &Vec<String>) -> (r: Vec<(String, Value)>)
    ensures
        entries_same(r@, without_keys(entries@, exclude@)),
{
    let mut out: Vec<(String, Value)> = Vec::new();
    let mut i: usize = 0;
    while i < entries.len()
        invariant
            i <= entries@.len(),
            entries_same(out@, without_keys(entries@.subrange(0, i as int), exclude@)),
        decreases entries.len() - i,
    {
        proof {
            assert(entries@.subrange(0, i + 1).drop_last() == entries@.subrange(0, i as int));
            assert(entries@.subrange(0, i + 1).last() == entries@[i as int]);
        }
        if !is_listed(exclude, entries[i].0.as_str()) {
            let v = clone_value(&entries[i].1);
            let ghost before = out@;
            out.push((entries[i].0.clone(), v));
            proof {
                crate::value::lemma_same_sym(entries@[i as int].1, v);
                let sp = without_keys(entries@.subrange(0, i as int), exclude@).push(entries@[i as int]);
                assert forall|m: int| 0 <= m < out@.len() implies (#[trigger] out@[m]).0@ == sp[m].0@
                    && same(out@[m].1, sp[m].1) by {
                    if m < before.len() {
                        assert(out@[m] == before[m]);
                    }
                }
            }
        }
        i = i + 1;
    }
    proof {
        assert(entries@.subrange(0, entries@.len() as int) == entries@);
    }
    out
}

/// `acc` extended by the entries of `cs` whose keys it does not hold yet
/// (by then).
pub open spec fn add_missing(acc: Seq<(String, Value)>, cs: Seq<(String, Value)>) -> Seq<(String, Value)>
    decreases cs.len(),
{
    if cs.len() == 0 {
        acc
    } else {
        let a = add_missing(acc, cs.drop_last());
        if keys_of(a).contains(cs.last().0@) {
            a
        } else {
            a.push(cs.last())
        }
    }
}

/// `acc` with the children of each listed object among `es` added in turn.
pub open spec fn elevate_fold(acc: Seq<(String, Value)>, es: Seq<(String, Value)>, keys: Seq<String>) -> Seq<
    (String, Value),
>
    decreases es.len(),
{
    if es.len() == 0 {
        acc
    } else {
        let a = elevate_fold(acc, es.drop_last(), keys);
        if listed(keys, es.last().0@) {
            match es.last().1 {
                Value::Object(c) => add_missing(a, c@),
                _ => a,
            }
        } else {
            a
        }
    }
}

/// Whether an entry is elevated: its key is listed and its value is an
/// object.
pub open spec fn is_elevated(e: (String, Value), keys: Seq<String>) -> bool {
    listed(keys, e.0@) && e.1 is Object
}

/// The entries that are not elevated, in order.
pub open spec fn without_elevated(es: Seq<(String, Value)>, keys: Seq<String>) -> Seq<(String, Value)>
    decreases es.len(),
{
    if es.len() == 0 {
        seq![]
    } else if is_elevated(es.last(), keys) {
        without_elevated(es.drop_last(), keys)
    } else {
        without_elevated(es.drop_last(), keys).push(es.last())
    }
}

/// Elevation: every entry stays but the listed ones that hold an object; the
/// entries of each such object move up to the top level, except where a key
/// is already there (the top-level entry, or the first elevated one, wins).
pub open spec fn elevated(es: Seq<(String, Value)>, keys: Seq<String>) -> Seq<(String, Value)> {
    elevate_fold(without_elevated(es, keys), es, keys)
}

/// The entries that are not elevated.
fn drop_elevated(entries: &Vec<(String, Value)>, keys: &Vec<String>) -> (r: Vec<(String, Value)>)
    ensures
        entries_same(r@, without_elevated(entries@, keys@)),
{
    let mut out: Vec<(String, Value)> = Vec::new();
    let mut i: usize = 0;
    while i < entries.len()
        invariant
            i <= entries@.len(),
            entries_same(out@, without_elevated(entries@.subrange(0, i as int), keys@)),
        decreases entries.len() - i,
    {
        proof {
            assert(entries@.subrange(0, i + 1).drop_last() == entries@.subrange(0, i as int));
            assert(entries@.subrange(0, i + 1).last() == entries@[i as int]);
        }
        let holds_object = match &entries[i].1 {
            Value::Object(_) => true,
            _ => false,
        };
        if !(holds_object && is_listed(keys, entries[i].0.as_str())) {
            let v = clone_value(&entries[i].1);
            let ghost before = out@;
            out.push((entries[i].0.clone(), v));
            proof {
                crate::value::lemma_same_sym(entries@[i as int].1, v);
                let sp = without_elevated(entries@.subrange(0, i as int), keys@).push(entries@[i as int]);
                assert forall|m: int| 0 <= m < out@.len() implies (#[trigger] out@[m]).0@ == sp[m].0@
                    && same(out@[m].1, sp[m].1) by {
                    if m < before.len() {
                        assert(out@[m] == before[m]);
                    }
                }
            }
        }
        i = i + 1;
    }
    proof {
        assert(entries@.subrange(0, entries@.len() as int) == entries@);
    }
    out
}

fn has_key(es: &Vec<(String, Value)>, k: &str) -> (r: bool)
    ensures
        r == keys_of(es@).contains(k@),
{
    let mut j: usize = 0;
    while j < es.len()
        invariant
            j <= es@.len(),
            forall|m: int| 0 <= m < j ==> (#[trigger] es@[m]).0@ != k@,
        decreases es.len() - j,
    {
        if str_eq(es[j].0.as_str(), k) {
            proof {
                assert(keys_of(es@)[j as int] == k@);
            }
            return true;
        }
        j = j + 1;
    }
    proof {
        if keys_of(es@).contains(k@) {
            let m = choose|m: int| 0 <= m < keys_of(es@).len() && keys_of(es@)[m] == k@;
            assert(es@[m].0@ == k@);
        }
    }
    false
}

proof fn lemma_same_keys(a: Seq<(String, Value)>, b: Seq<(String, Value)>)
    requires
        entries_same(a, b),
    ensures
        keys_of(a) == keys_of(b),
{
    assert(keys_of(a) =~= keys_of(b));
}

/// Moves the entries of the listed objects up to the top level and drops
/// those listed keys; a listed key whose value is not an object stays, and an
/// existing top-level key keeps its value.
pub fn apply_elevate_keys(entries: &Vec<(String, Value)>, elevate: &Vec<String>) -> (r: Vec<(String, Value)>)
    ensures
        entries_same(r@, elevated(entries@, elevate@)),
{
    let mut out = drop_elevated(entries, elevate);
    let ghost top = without_elevated(entries@, elevate@);
    let mut i: usize = 0;
    proof {
        assert(entries@.subrange(0, 0).len() == 0);
    }
    while i < entries.len()
        invariant
            i <= entries@.len(),
            top == without_elevated(entries@, elevate@),
            entries_same(out@, elevate_fold(top, entries@.subrange(0, i as int), elevate@)),
        decreases entries.len() - i,
    {
        let ghost pre = entries@.subrange(0, i as int);
        let ghost a = elevate_fold(top, pre, elevate@);
        proof {
            assert(entries@.subrange(0, i + 1).drop_last() == pre);
            assert(entries@.subrange(0, i + 1).last() == entries@[i as int]);
        }
        if is_listed(elevate, entries[i].0.as_str()) {
            match &entries[i].1 {
                Value::Object(c) => {
                    let mut j: usize = 0;
                    proof {
                        assert(c@.subrange(0, 0).len() == 0);
                    }
                    while j < c.len()
                        invariant
                            j <= c@.len(),
                            entries_same(out@, add_missing(a, c@.subrange(0, j as int))),
                        decreases c.len() - j,
                    {
                        let ghost b = add_missing(a, c@.subrange(0, j as int));
                        proof {
                            assert(c@.subrange(0, j + 1).drop_last() == c@.subrange(0, j as int));
                            assert(c@.subrange(0, j + 1).last() == c@[j as int]);
                            lemma_same_keys(out@, b);
                        }
                        if !has_key(&out, c[j].0.as_str()) {
                            let v = clone_value(&c[j].1);
                            let ghost before = out@;
                            out.push((c[j].0.clone(), v));
                            proof {
                                crate::value::lemma_same_sym(c@[j as int].1, v);
                                let nb = b.push(c@[j as int]);
                                assert forall|m: int| 0 <= m < out@.len() implies (#[trigger] out@[m]).0@
                                    == nb[m].0@ && same(out@[m].1, nb[m].1) by {
                                    if m < before.len() {
                                        assert(out@[m] == before[m]);
                                        assert(nb[m] == b[m]);
                                    }
                                }
                            }
                        }
                        j = j + 1;
                    }
                    proof {
                        assert(c@.subrange(0, c@.len() as int) == c@);
                    }
                },
                _ => {},
            }
        }
        i = i + 1;
    }
    proof {
        assert(entries@.subrange(0, entries@.len() as int) == entries@);
    }
    out
}

/// `out` is the sparse object of the pick entries `ps`: for each entry whose
/// paths yield a value, the entry's key with the first such value.
pub open spec fn picks(doc: Value, ps: Seq<PickEntry>, out: Seq<(String, Value)>) -> bool
    decreases ps.len(),
{
    if ps.len() == 0 {
        out.len() == 0
    } else {
        let e = ps.last();
        exists|x: Value|
            #[trigger] evaluates_first(doc, paths_view(e.paths@), false, x) && if x is Null {
                picks(doc, ps.drop_last(), out)
            } else {
                out.len() > 0 && picks(doc, ps.drop_last(), out.drop_last()) && out.last().0@ == e.key@
                    && same(x, out.last().1)
            }
    }
}

/// Builds the sparse object of the pick entries; `Null` when none yields a
/// value.
pub fn build_pick_map(doc: &Value, pick: &Vec<PickEntry>) -> (r: Value)
    ensures
        match r {
            Value::Null => picks(*doc, pick@, seq![]),
            Value::Object(es) => es@.len() > 0 && picks(*doc, pick@, es@),
            _ => false,
        },
{
    let mut out: Vec<(String, Value)> = Vec::new();
    let mut i: usize = 0;
    proof {
        assert(pick@.subrange(0, 0).len() == 0);
    }
    while i < pick.len()
        invariant
            i <= pick@.len(),
            picks(*doc, pick@.subrange(0, i as int), out@),
        decreases pick.len() - i,
    {
        let ghost pre = pick@.subrange(0, i as int);
        let ghost before = out@;
        proof {
            assert(pick@.subrange(0, i + 1).drop_last() == pre);
            assert(pick@.subrange(0, i + 1).last() == pick@[i as int]);
        }
        let x = evaluate_first(doc, &pick[i].paths, false);
        match x {
            Value::Null => {},
            _ => {
                let ghost xv = x;
                out.push((pick[i].key.clone(), x));
                proof {
                    assert(out@.drop_last() == before);
                    lemma_same_refl(xv);
                }
            },
        }
        i = i + 1;
    }
    proof {
        assert(pick@.subrange(0, pick@.len() as int) == pick@);
    }
    if out.len() == 0 {
        proof {
            assert(out@ =~= Seq::<(String, Value)>::empty());
        }
        Value::Null
    } else {
        Value::Object(out)
    }
}

} // verus!

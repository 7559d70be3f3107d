//! Evaluation of paths on documents, with wildcard fan-out and first-match
//! coalescing.

use vstd::prelude::*;
use crate::path::{PathSegment, Seg, segs_view};
use crate::value::{Value, same, object_get, get_entry, clone_value};

verus! {

/// `r` is what evaluating the segments `segs` on `v` gives. A key reads an
/// object's entry, an index an array's element; a wildcard maps the rest of
/// the path over every element of an array, keeping absent results. A key on
/// a non-object, an index on a non-array or out of bounds, a missing key, and
/// a wildcard on a non-array give `Null`.
pub open spec fn evaluates(v: Value, segs: Seq<Seg>, r: Value) -> bool
    decreases segs.len(),
{
    if segs.len() == 0 {
        same(v, r)
    } else {
        let rest = segs.drop_first();
        match segs[0] {
            Seg::Key(k) => match v {
                Value::Object(es) => match object_get(es@, k) {
                    Some(x) => evaluates(x, rest, r),
                    None => r is Null,
                },
                _ => r is Null,
            },
            Seg::Index(n) => match v {
                Value::Array(a) => if n < a@.len() {
                    evaluates(a@[n as int], rest, r)
                } else {
                    r is Null
                },
                _ => r is Null,
            },
            Seg::Wildcard => match v {
                Value::Array(a) => match r {
                    Value::Array(b) => b@.len() == a@.len() && forall|i: int|
                        0 <= i < a@.len() ==> evaluates(#[trigger] a@[i], rest, b@[i]),
                    _ => false,
                },
                _ => r is Null,
            },
        }
    }
}

/// Evaluation is deterministic: two results of one evaluation hold the same
/// data.
pub proof fn lemma_evaluates_unique(v: Value, segs: Seq<Seg>, r1: Value, r2: Value)
    requires
        evaluates(v, segs, r1),
        evaluates(v, segs, r2),
    ensures
        same(r1, r2),
    decreases segs.len(),
{
    if segs.len() == 0 {
        crate::value::lemma_same_sym(v, r1);
        crate::value::lemma_same_trans(r1, v, r2);
    } else {
        let rest = segs.drop_first();
        match segs[0] {
            Seg::Key(k) => match v {
                Value::Object(es) => match object_get(es@, k) {
                    Some(x) => lemma_evaluates_unique(x, rest, r1, r2),
                    None => {},
                },
                _ => {},
            },
            Seg::Index(n) => match v {
                Value::Array(a) => if n < a@.len() {
                    lemma_evaluates_unique(a@[n as int], rest, r1, r2);
                },
                _ => {},
            },
            Seg::Wildcard => match (v, r1, r2) {
                (Value::Array(a), Value::Array(b1), Value::Array(b2)) => {
                    assert forall|i: int| 0 <= i < b1@.len() implies same(#[trigger] b1@[i], b2@[i]) by {
                        assert(evaluates(a@[i], rest, b1@[i]));
                        lemma_evaluates_unique(a@[i], rest, b1@[i], b2@[i]);
                    }
                },
                _ => {},
            },
        }
    }
}

/// `r` is the first result among the paths that is present (and, with
/// `skip_empty`, not the empty string); `Null` when there is none.
pub open spec fn evaluates_first(v: Value, paths: Seq<Seq<Seg>>, skip_empty: bool, r: Value) -> bool
    decreases paths.len(),
{
    if paths.len() == 0 {
        r is Null
    } else {
        exists|x: Value|
            #![trigger evaluates(v, paths[0], x)]
            evaluates(v, paths[0], x) && if skips(x, skip_empty) {
                evaluates_first(v, paths.drop_first(), skip_empty, r)
            } else {
                same(x, r)
            }
    }
}

/// First-match evaluation is deterministic too.
pub proof fn lemma_evaluates_first_unique(
    v: Value,
    paths: Seq<Seq<Seg>>,
    skip_empty: bool,
    r1: Value,
    r2: Value,
)
    requires
        evaluates_first(v, paths, skip_empty, r1),
        evaluates_first(v, paths, skip_empty, r2),
    ensures
        same(r1, r2),
    decreases paths.len(),
{
    if paths.len() > 0 {
        let x1 = choose|x: Value|
            #[trigger] evaluates(v, paths[0], x) && if skips(x, skip_empty) {
                evaluates_first(v, paths.drop_first(), skip_empty, r1)
            } else {
                same(x, r1)
            };
        let x2 = choose|x: Value|
            #[trigger] evaluates(v, paths[0], x) && if skips(x, skip_empty) {
                evaluates_first(v, paths.drop_first(), skip_empty, r2)
            } else {
                same(x, r2)
            };
        lemma_evaluates_unique(v, paths[0], x1, x2);
        assert(skips(x1, skip_empty) == skips(x2, skip_empty));
        if skips(x1, skip_empty) {
            lemma_evaluates_first_unique(v, paths.drop_first(), skip_empty, r1, r2);
        } else {
            crate::value::lemma_same_sym(x1, r1);
            crate::value::lemma_same_trans(r1, x1, x2);
            crate::value::lemma_same_trans(r1, x2, r2);
        }
    } else {
    }
}

/// Whether a first-match scan passes over `x`.
pub open spec fn skips(x: Value, skip_empty: bool) -> bool {
    match x {
        Value::Null => true,
        Value::Str(s) => skip_empty && s@.len() == 0,
        _ => false,
    }
}

/// The denotation of a list of compiled paths.
pub open spec fn paths_view(p: Seq<Vec<PathSegment>>) -> Seq<Seq<Seg>> {
    p.map_values(|x: Vec<PathSegment>| segs_view(x@))
}

fn evaluate_from(v: &Value, segs: &Vec<PathSegment>, start: usize) -> (r: Value)
    requires
        start <= segs@.len(),
    ensures
        evaluates(*v, segs_view(segs@).subrange(start as int, segs@.len() as int), r),
    decreases segs@.len() - start, 1int,
{
    let ghost full = segs_view(segs@);
    if start == segs.len() {
        let r = clone_value(v);
        proof {
            assert(full.subrange(start as int, segs@.len() as int).len() == 0);
        }
        return r;
    }
    let ghost s = full.subrange(start as int, segs@.len() as int);
    proof {
        assert(s.drop_first() == full.subrange(start + 1, segs@.len() as int));
        assert(s[0] == segs@[start as int]@);
    }
    match &segs[start] {
        PathSegment::Key(k) => match v {
            Value::Object(es) => match get_entry(es, k.as_str()) {
                Some(x) => evaluate_from(x, segs, start + 1),
                None => Value::Null,
            },
            _ => Value::Null,
        },
        PathSegment::Index(n) => match v {
            Value::Array(a) => if *n < a.len() {
                evaluate_from(&a[*n], segs, start + 1)
            } else {
                Value::Null
            },
            _ => Value::Null,
        },
        PathSegment::Wildcard => evaluate_wildcard(v, segs, start),
    }
}

/// Evaluates the segments after the wildcard at `start` on each element of
/// an array, collecting the results; `Null` for a value that is not an array.
fn evaluate_wildcard(v: &Value, segs: &Vec<PathSegment>, start: usize) -> (r: Value)
    requires
        start < segs@.len(),
        segs@[start as int] is Wildcard,
    ensures
        evaluates(*v, segs_view(segs@).subrange(start as int, segs@.len() as int), r),
    decreases segs@.len() - start, 0int,
{
    let ghost full = segs_view(segs@);
    let ghost s = full.subrange(start as int, segs@.len() as int);
    proof {
        assert(s.drop_first() == full.subrange(start + 1, segs@.len() as int));
        assert(s[0] == segs@[start as int]@);
    }
    match v {
        Value::Array(a) => {
            let n = segs.len();
            let next = start + 1;
            let mut out: Vec<Value> = Vec::new();
            let mut i: usize = 0;
            while i < a.len()
                invariant
                    next == start + 1,
                    next <= n == segs@.len(),
                    s.drop_first() == full.subrange(start + 1, segs@.len() as int),
                    full == segs_view(segs@),
                    i <= a@.len(),
                    out@.len() == i,
                    forall|j: int|
                        0 <= j < i ==> evaluates(#[trigger] a@[j], s.drop_first(), out@[j]),
                decreases a.len() - i,
            {
                let x = evaluate_from(&a[i], segs, next);
                out.push(x);
                i = i + 1;
            }
            Value::Array(out)
        },
        _ => Value::Null,
    }
}

/// Evaluates a path on a document: the value it reaches, `Null` where it
/// reaches nothing, and an array of per-element results under a wildcard.
pub fn evaluate(v: &Value, segs: &Vec<PathSegment>) -> (r: Value)
    ensures
        evaluates(*v, segs_view(segs@), r),
{
    proof {
        assert(segs_view(segs@).subrange(0, segs@.len() as int) == segs_view(segs@));
    }
    evaluate_from(v, segs, 0)
}

/// Evaluates the paths in order and returns the first result that is present;
/// with `skip_empty_strings`, an empty string counts as absent too.
pub fn evaluate_first(v: &Value, paths: &Vec<Vec<PathSegment>>, skip_empty_strings: bool) -> (r:
    Value)
    ensures
        evaluates_first(*v, paths_view(paths@), skip_empty_strings, r),
{
    let ghost all = paths_view(paths@);
    let mut i: usize = 0;
    proof {
        assert(all.subrange(0, all.len() as int) == all);
    }
    while i < paths.len()
        invariant
            all == paths_view(paths@),
            i <= paths@.len(),
            forall|r: Value|
                evaluates_first(*v, all.subrange(i as int, all.len() as int), skip_empty_strings, r)
                    ==> #[trigger] evaluates_first(*v, all, skip_empty_strings, r),
        decreases paths.len() - i,
    {
        let x = evaluate(v, &paths[i]);
        let ghost tail = all.subrange(i as int, all.len() as int);
        proof {
            assert(tail[0] == segs_view(paths@[i as int]@));
            assert(tail.drop_first() == all.subrange(i + 1, all.len() as int));
        }
        let skip = match &x {
            Value::Null => true,
            Value::Str(s) => skip_empty_strings && s.unicode_len() == 0,
            _ => false,
        };
        if !skip {
            proof {
                assert(same(x, x)) by {
                    crate::value::lemma_same_refl(x);
                }
                assert(evaluates_first(*v, tail, skip_empty_strings, x));
            }
            return x;
        }
        proof {
            assert forall|r: Value|
                evaluates_first(*v, all.subrange(i + 1, all.len() as int), skip_empty_strings, r)
                implies #[trigger] evaluates_first(*v, all, skip_empty_strings, r) by {
                assert(evaluates_first(*v, tail, skip_empty_strings, r));
            }
        }
        i = i + 1;
    }
    proof {
        assert(all.subrange(i as int, all.len() as int).len() == 0);
        assert(evaluates_first(*v, all.subrange(i as int, all.len() as int), skip_empty_strings, Value::Null));
    }
    Value::Null
}

} // verus!

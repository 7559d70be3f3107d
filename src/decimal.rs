//! Exact comparison of decimal numbers (integers and float renderings).

use vstd::prelude::*;
use crate::numeric::pow10;
use crate::text::{
    all_digits, digits_value, digit_value, is_digit, nat_text, whole_digits, fraction_digits,
    unsigned_part, float_negative, format_int,
};

verus! {

/// A decimal number: a sign, its digits, and how many of them follow the
/// point. Its value is `±digits_value(digits) / 10^frac`.
pub struct Decimal {
    pub neg: bool,
    pub digits: Vec<char>,
    pub frac: usize,
}

/// A decimal number as the contracts see it: its sign, its digits, and how
/// many of them follow the point.
pub type Num = (bool, Seq<char>, nat);

impl View for Decimal {
    type V = Num;

    open spec fn view(&self) -> Num {
        (self.neg, self.digits@, self.frac as nat)
    }
}

impl Decimal {
    pub open spec fn wf(&self) -> bool {
        all_digits(self.digits@) && self.frac <= self.digits@.len()
    }
}

/// The value of `n` scaled by `10^n.2`, with its sign.
pub open spec fn units(n: Num) -> int {
    if n.0 {
        -digits_value(n.1)
    } else {
        digits_value(n.1) as int
    }
}

/// `x < y` as numbers.
pub open spec fn num_lt(x: Num, y: Num) -> bool {
    units(x) * pow10(y.2) < units(y) * pow10(x.2)
}

/// `x == y` as numbers.
pub open spec fn num_eq(x: Num, y: Num) -> bool {
    units(x) * pow10(y.2) == units(y) * pow10(x.2)
}

/// Whether two numbers are small enough to be compared here (together at
/// most a billion digits).
pub open spec fn comparable(x: Num, y: Num) -> bool {
    x.1.len() + y.1.len() <= 1_000_000_000
}

/// The number an integer is.
pub open spec fn num_of_int(i: int) -> Num {
    (i < 0, nat_text(crate::numeric::abs(i)), 0)
}

/// The number a float's decimal rendering is, when its parts are digits.
pub open spec fn num_of_float(f: Seq<char>) -> Option<Num> {
    let u = unsigned_part(f);
    let w = whole_digits(u);
    let fr = fraction_digits(u);
    if all_digits(w) && all_digits(fr) {
        Some((float_negative(f), w + fr, fr.len()))
    } else {
        None
    }
}

pub open spec fn zeros(k: nat) -> Seq<char> {
    Seq::new(k, |i: int| '0')
}

proof fn lemma_value_append(a: Seq<char>, b: Seq<char>)
    ensures
        digits_value(a + b) == digits_value(a) * pow10(b.len()) + digits_value(b),
    decreases b.len(),
{
    if b.len() == 0 {
        assert(a + b == a);
        assert(pow10(0) == 1);
        assert(digits_value(b) == 0);
    } else {
        lemma_value_append(a, b.drop_last());
        assert((a + b).drop_last() == a + b.drop_last());
        assert((a + b).last() == b.last());
        let p = pow10((b.len() - 1) as nat);
        assert(pow10(b.len()) == 10 * p);
        let va = digits_value(a);
        let vb = digits_value(b.drop_last());
        let d = digit_value(b.last());
        assert(digits_value(a + b) == 10 * digits_value(a + b.drop_last()) + d);
        assert(digits_value(a + b.drop_last()) == va * p + vb);
        assert(digits_value(b) == 10 * vb + d);
        assert(10 * (va * p + vb) + d == va * (10 * p) + (10 * vb + d)) by (nonlinear_arith);
    }
}

proof fn lemma_zeros_value(k: nat)
    ensures
        digits_value(zeros(k)) == 0,
    decreases k,
{
    if k > 0 {
        assert(zeros(k).drop_last() == zeros((k - 1) as nat));
        lemma_zeros_value((k - 1) as nat);
    }
}

proof fn lemma_value_bound(s: Seq<char>)
    requires
        all_digits(s),
    ensures
        digits_value(s) < pow10(s.len()),
    decreases s.len(),
{
    if s.len() > 0 {
        assert(all_digits(s.drop_last())) by {
            assert forall|i: int| 0 <= i < s.drop_last().len() implies is_digit(
                #[trigger] s.drop_last()[i],
            ) by {
                assert(s.drop_last()[i] == s[i]);
            }
        }
        lemma_value_bound(s.drop_last());
        assert(is_digit(s[s.len() - 1]));
        let p = pow10((s.len() - 1) as nat);
        assert(pow10(s.len()) == 10 * p);
        assert(10 * digits_value(s.drop_last()) + digit_value(s.last()) < 10 * p) by (nonlinear_arith)
            requires digits_value(s.drop_last()) < p, digit_value(s.last()) <= 9;
    }
}

/// Of two digit strings of one length, the one first larger at a position
/// where they differ is the larger number.
proof fn lemma_lex(a: Seq<char>, b: Seq<char>, i: int)
    requires
        all_digits(a),
        all_digits(b),
        a.len() == b.len(),
        0 <= i < a.len(),
        a.subrange(0, i) == b.subrange(0, i),
        a[i] < b[i],
    ensures
        digits_value(a) < digits_value(b),
{
    let n = a.len();
    let pa = a.subrange(0, i);
    let ta = a.subrange(i + 1, n as int);
    let tb = b.subrange(i + 1, n as int);
    assert(a == pa + seq![a[i]] + ta);
    assert(b == pa + seq![b[i]] + tb);
    lemma_value_append(pa + seq![a[i]], ta);
    lemma_value_append(pa + seq![b[i]], tb);
    lemma_value_append(pa, seq![a[i]]);
    lemma_value_append(pa, seq![b[i]]);
    assert(seq![a[i]].drop_last() == Seq::<char>::empty());
    assert(seq![b[i]].drop_last() == Seq::<char>::empty());
    assert(digits_value(Seq::<char>::empty()) == 0);
    assert(seq![a[i]].last() == a[i]);
    assert(seq![b[i]].last() == b[i]);
    assert(digits_value(seq![a[i]]) == digit_value(a[i]));
    assert(digits_value(seq![b[i]]) == digit_value(b[i]));
    assert(pow10(0) == 1);
    assert(pow10(1) == 10);
    assert(all_digits(ta)) by {
        assert forall|k: int| 0 <= k < ta.len() implies is_digit(#[trigger] ta[k]) by {
            assert(ta[k] == a[i + 1 + k]);
        }
    }
    lemma_value_bound(ta);
    let p = pow10(ta.len());
    let da = digit_value(a[i]);
    let db = digit_value(b[i]);
    assert(is_digit(a[i]) && is_digit(b[i]));
    assert(da < db);
    let v = digits_value(pa);
    assert(digits_value(tb) >= 0);
    assert((v * 10 + da) * p + digits_value(ta) < (v * 10 + db) * p + digits_value(tb))
        by (nonlinear_arith)
        requires da < db, digits_value(ta) < p, digits_value(tb) >= 0, p >= 1;
    crate::numeric::lemma_pow10_positive(ta.len());
}

/// Compares two digit strings of one length as numbers: -1, 0 or 1.
fn compare_digits(a: &Vec<char>, b: &Vec<char>) -> (r: i8)
    requires
        all_digits(a@),
        all_digits(b@),
        a@.len() == b@.len(),
    ensures
        r == -1 ==> digits_value(a@) < digits_value(b@),
        r == 0 ==> digits_value(a@) == digits_value(b@),
        r == 1 ==> digits_value(a@) > digits_value(b@),
        -1 <= r <= 1,
{
    let mut i: usize = 0;
    while i < a.len()
        invariant
            i <= a@.len() == b@.len(),
            all_digits(a@),
            all_digits(b@),
            a@.subrange(0, i as int) == b@.subrange(0, i as int),
        decreases a.len() - i,
    {
        if a[i] < b[i] {
            proof {
                lemma_lex(a@, b@, i as int);
            }
            return -1;
        }
        if a[i] > b[i] {
            proof {
                lemma_lex(b@, a@, i as int);
            }
            return 1;
        }
        proof {
            assert(a@.subrange(0, i + 1) == a@.subrange(0, i as int).push(a@[i as int]));
            assert(b@.subrange(0, i + 1) == b@.subrange(0, i as int).push(b@[i as int]));
        }
        i = i + 1;
    }
    proof {
        assert(a@ == a@.subrange(0, a@.len() as int));
        assert(b@ == b@.subrange(0, b@.len() as int));
    }
    0
}

/// `zeros(lead) + d + zeros(trail)` as a vector.
fn padded(d: &Vec<char>, lead: usize, trail: usize) -> (r: Vec<char>)
    requires
        lead + d@.len() + trail <= usize::MAX,
    ensures
        r@ == zeros(lead as nat) + d@ + zeros(trail as nat),
{
    let mut r: Vec<char> = Vec::new();
    let mut i: usize = 0;
    while i < lead
        invariant
            i <= lead,
            r@ == zeros(i as nat),
        decreases lead - i,
    {
        r.push('0');
        proof {
            assert(r@ == zeros((i + 1) as nat));
        }
        i = i + 1;
    }
    let mut j: usize = 0;
    while j < d.len()
        invariant
            j <= d@.len(),
            r@ == zeros(lead as nat) + d@.subrange(0, j as int),
        decreases d.len() - j,
    {
        r.push(d[j]);
        proof {
            assert(d@.subrange(0, j + 1) == d@.subrange(0, j as int).push(d@[j as int]));
            assert(r@ == zeros(lead as nat) + d@.subrange(0, j + 1));
        }
        j = j + 1;
    }
    proof {
        assert(d@.subrange(0, d@.len() as int) == d@);
    }
    let mut k: usize = 0;
    while k < trail
        invariant
            k <= trail,
            r@ == zeros(lead as nat) + d@ + zeros(k as nat),
        decreases trail - k,
    {
        r.push('0');
        proof {
            assert(zeros((k + 1) as nat) == zeros(k as nat).push('0'));
            assert(r@ == zeros(lead as nat) + d@ + zeros((k + 1) as nat));
        }
        k = k + 1;
    }
    r
}

proof fn lemma_padded_value(d: Seq<char>, lead: nat, trail: nat)
    ensures
        digits_value(zeros(lead) + d + zeros(trail)) == digits_value(d) * pow10(trail),
        all_digits(d) ==> all_digits(zeros(lead) + d + zeros(trail)),
{
    lemma_value_append(zeros(lead) + d, zeros(trail));
    lemma_value_append(zeros(lead), d);
    lemma_zeros_value(lead);
    lemma_zeros_value(trail);
    if all_digits(d) {
        let s = zeros(lead) + d + zeros(trail);
        assert forall|i: int| 0 <= i < s.len() implies is_digit(#[trigger] s[i]) by {
            if i < lead {
            } else if i < lead + d.len() {
                assert(s[i] == d[i - lead]);
            } else {
            }
        }
    }
}

/// Compares the magnitudes `digits_value(x) / 10^x.frac` and
/// `digits_value(y) / 10^y.frac`: -1, 0 or 1.
fn compare_magnitudes(x: &Decimal, y: &Decimal) -> (r: i8)
    requires
        x.wf(),
        y.wf(),
        x.digits@.len() + y.digits@.len() <= 1_000_000_000,
    ensures
        r == -1 ==> digits_value(x.digits@) * pow10(y.frac as nat) < digits_value(y.digits@) * pow10(
            x.frac as nat,
        ),
        r == 0 ==> digits_value(x.digits@) * pow10(y.frac as nat) == digits_value(y.digits@) * pow10(
            x.frac as nat,
        ),
        r == 1 ==> digits_value(x.digits@) * pow10(y.frac as nat) > digits_value(y.digits@) * pow10(
            x.frac as nat,
        ),
        -1 <= r <= 1,
{
    // Align the points: x gets y.frac trailing zeros and y gets x.frac, then
    // the two are padded in front to one length.
    let lx = x.digits.len() + y.frac;
    let ly = y.digits.len() + x.frac;
    let lead_x: usize = if lx < ly {
        ly - lx
    } else {
        0
    };
    let lead_y: usize = if ly < lx {
        lx - ly
    } else {
        0
    };
    let a = padded(&x.digits, lead_x, y.frac);
    let b = padded(&y.digits, lead_y, x.frac);
    proof {
        lemma_padded_value(x.digits@, lead_x as nat, y.frac as nat);
        lemma_padded_value(y.digits@, lead_y as nat, x.frac as nat);
    }
    compare_digits(&a, &b)
}

/// Compares two decimals as numbers: -1, 0 or 1.
pub fn compare_decimals(x: &Decimal, y: &Decimal) -> (r: i8)
    requires
        x.wf(),
        y.wf(),
        comparable(x@, y@),
    ensures
        r == -1 <==> num_lt(x@, y@),
        r == 0 <==> num_eq(x@, y@),
        r == 1 <==> num_lt(y@, x@),
{
    let m = compare_magnitudes(x, y);
    let ghost vx = digits_value(x.digits@) as int;
    let ghost vy = digits_value(y.digits@) as int;
    let ghost px = pow10(x.frac as nat);
    let ghost py = pow10(y.frac as nat);
    proof {
        crate::numeric::lemma_pow10_positive(x.frac as nat);
        crate::numeric::lemma_pow10_positive(y.frac as nat);
        assert(vx * py >= 0) by (nonlinear_arith)
            requires vx >= 0, py >= 1;
        assert(vy * px >= 0) by (nonlinear_arith)
            requires vy >= 0, px >= 1;
        assert((-vx) * py == -(vx * py)) by (nonlinear_arith);
        assert((-vy) * px == -(vy * px)) by (nonlinear_arith);
    }
    if x.neg == y.neg {
        if x.neg {
            -m
        } else {
            m
        }
    } else if m == 0 && is_zero_digits(&x.digits) {
        // both magnitudes are zero
        proof {
            assert(vx * py == 0) by (nonlinear_arith)
                requires vx == 0;
        }
        0
    } else if x.neg {
        proof {
            if m == 0 {
                assert(vx != 0);
                assert(vx * py > 0) by (nonlinear_arith)
                    requires vx > 0, py >= 1;
            }
        }
        -1
    } else {
        proof {
            if m == 0 {
                assert(vx != 0);
                assert(vx * py > 0) by (nonlinear_arith)
                    requires vx > 0, py >= 1;
            }
        }
        1
    }
}

/// Whether every digit is zero, that is, whether they spell zero.
fn is_zero_digits(d: &Vec<char>) -> (r: bool)
    requires
        all_digits(d@),
    ensures
        r == (digits_value(d@) == 0),
{
    let mut i: usize = 0;
    while i < d.len()
        invariant
            i <= d@.len(),
            all_digits(d@),
            digits_value(d@.subrange(0, i as int)) == 0,
        decreases d.len() - i,
    {
        proof {
            assert(d@.subrange(0, i + 1).drop_last() == d@.subrange(0, i as int));
            assert(is_digit(d@[i as int]));
        }
        if d[i] != '0' {
            proof {
                let t = d@.subrange(i + 1, d@.len() as int);
                assert(d@ == d@.subrange(0, i + 1) + t);
                lemma_value_append(d@.subrange(0, i + 1), t);
                crate::numeric::lemma_pow10_positive(t.len());
                assert(digits_value(d@.subrange(0, i + 1)) > 0);
                assert(digits_value(d@.subrange(0, i + 1)) * pow10(t.len()) > 0) by (nonlinear_arith)
                    requires digits_value(d@.subrange(0, i + 1)) > 0, pow10(t.len()) >= 1;
            }
            return false;
        }
        i = i + 1;
    }
    proof {
        assert(d@.subrange(0, d@.len() as int) == d@);
    }
    true
}

proof fn lemma_nat_text_digits(n: nat)
    ensures
        all_digits(nat_text(n)),
        nat_text(n).len() >= 1,
    decreases n,
{
    if n >= 10 {
        lemma_nat_text_digits(n / 10);
        let t = nat_text(n);
        assert forall|i: int| 0 <= i < t.len() implies is_digit(#[trigger] t[i]) by {
            if i < t.len() - 1 {
                assert(t[i] == nat_text(n / 10)[i]);
            }
        }
    }
}

/// The characters of `s` between `from` and `to`.
fn chars_of(s: &str, from: usize, to: usize) -> (r: Vec<char>)
    requires
        from <= to <= s@.len(),
    ensures
        r@ == s@.subrange(from as int, to as int),
{
    let mut r: Vec<char> = Vec::new();
    let mut i = from;
    while i < to
        invariant
            from <= i <= to <= s@.len(),
            r@ == s@.subrange(from as int, i as int),
        decreases to - i,
    {
        r.push(s.get_char(i));
        proof {
            assert(s@.subrange(from as int, i + 1) == s@.subrange(from as int, i as int).push(
                s@[i as int],
            ));
        }
        i = i + 1;
    }
    r
}

/// The decimal of an integer.
pub fn decimal_from_int(i: i64) -> (r: Decimal)
    ensures
        r@ == num_of_int(i as int),
        r.wf(),
{
    let t = format_int(i);
    let n = t.unicode_len();
    proof {
        lemma_nat_text_digits(crate::numeric::abs(i as int));
    }
    if i < 0 {
        proof {
            assert(t@.subrange(1, n as int) == nat_text(crate::numeric::abs(i as int)));
        }
        Decimal { neg: true, digits: chars_of(t.as_str(), 1, n), frac: 0 }
    } else {
        proof {
            assert(t@.subrange(0, n as int) == t@);
        }
        Decimal { neg: false, digits: chars_of(t.as_str(), 0, n), frac: 0 }
    }
}

/// The decimal of a float's rendering, when its parts are digits.
pub fn decimal_from_float(f: &str) -> (r: Option<Decimal>)
    ensures
        match num_of_float(f@) {
            Some(x) => r matches Some(d) && d@ == x && d.wf(),
            None => r is None,
        },
{
    let n = f.unicode_len();
    let neg = n > 0 && f.get_char(0) == '-';
    let start: usize = if neg {
        1
    } else {
        0
    };
    let ghost u = unsigned_part(f@);
    proof {
        assert(u == f@.subrange(start as int, n as int));
        crate::text::lemma_find_char(f@, '.', start as int);
        crate::text::lemma_find_char(u, '.', 0);
    }
    let dot = crate::text::find_char_exec(f, '.', start);
    let end = match dot {
        Some(j) => j,
        None => n,
    };
    let frac_start = match dot {
        Some(j) => j + 1,
        None => n,
    };
    proof {
        match crate::text::find_char(u, '.', 0) {
            Some(j) => {
                assert(crate::text::find_char(f@, '.', start as int) == Some(j + start)) by {
                    if crate::text::find_char(f@, '.', start as int) is None {
                        assert(f@[j + start] == u[j]);
                    } else {
                        let k = crate::text::find_char(f@, '.', start as int)->0;
                        if k < j + start {
                            assert(u[k - start] == '.');
                        }
                    }
                }
            },
            None => {
                assert(crate::text::find_char(f@, '.', start as int) is None) by {
                    if crate::text::find_char(f@, '.', start as int) is Some {
                        let k = crate::text::find_char(f@, '.', start as int)->0;
                        assert(u[k - start] == '.');
                    }
                }
            },
        }
        assert(whole_digits(u) == f@.subrange(start as int, end as int));
        assert(fraction_digits(u) =~= f@.subrange(frac_start as int, n as int));
    }
    if !crate::text::all_digits_exec(f, start, end) || !crate::text::all_digits_exec(f, frac_start, n) {
        return None;
    }
    let mut digits = chars_of(f, start, end);
    let fr = chars_of(f, frac_start, n);
    let mut k: usize = 0;
    let ghost w = digits@;
    while k < fr.len()
        invariant
            k <= fr@.len(),
            digits@ == w + fr@.subrange(0, k as int),
        decreases fr.len() - k,
    {
        digits.push(fr[k]);
        proof {
            assert(fr@.subrange(0, k + 1) == fr@.subrange(0, k as int).push(fr@[k as int]));
        }
        k = k + 1;
    }
    proof {
        assert(fr@.subrange(0, fr@.len() as int) == fr@);
        let d = digits@;
        let wd = whole_digits(u);
        let fd = fraction_digits(u);
        assert(all_digits(d)) by {
            assert forall|i: int| 0 <= i < d.len() implies is_digit(#[trigger] d[i]) by {
                if i < wd.len() {
                    assert(d[i] == wd[i]);
                } else {
                    assert(d[i] == fd[i - wd.len()]);
                }
            }
        }
    }
    Some(Decimal { neg, digits, frac: fr.len() })
}

} // verus!

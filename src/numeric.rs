//! Timestamp arithmetic: digit counts, precision inference and rescaling.

use vstd::prelude::*;

verus! {

/// `10^n`.
pub open spec fn pow10(n: nat) -> int
    decreases n,
{
    if n == 0 {
        1
    } else {
        10 * pow10((n - 1) as nat)
    }
}

/// The number of decimal digits of `n` (zero has one digit).
pub open spec fn digit_count(n: nat) -> nat
    decreases n,
{
    if n < 10 {
        1
    } else {
        1 + digit_count(n / 10)
    }
}

proof fn lemma_digit_count_bound(n: nat, k: nat)
    requires
        k >= 1,
        n < pow10(k),
    ensures
        digit_count(n) <= k,
    decreases k,
{
    if n >= 10 {
        let p = pow10((k - 1) as nat);
        assert(pow10(k) == 10 * p);
        assert(n / 10 < p) by (nonlinear_arith)
            requires n < 10 * p;
        if k == 1 {
            assert(p == 1);
        } else {
            lemma_digit_count_bound(n / 10, (k - 1) as nat);
        }
    }
}

proof fn lemma_digit_count_u64(n: nat)
    requires
        n <= u64::MAX,
    ensures
        digit_count(n) <= 20,
{
    lemma_pow10_small(9);
    assert(pow10(10) == 10 * pow10(9));
    assert(pow10(11) == 10 * pow10(10));
    assert(pow10(12) == 10 * pow10(11));
    assert(pow10(13) == 10 * pow10(12));
    assert(pow10(14) == 10 * pow10(13));
    assert(pow10(15) == 10 * pow10(14));
    assert(pow10(16) == 10 * pow10(15));
    assert(pow10(17) == 10 * pow10(16));
    assert(pow10(18) == 10 * pow10(17));
    assert(pow10(19) == 10 * pow10(18));
    assert(pow10(20) == 10 * pow10(19));
    assert(pow10(20) == 100000000000000000000);
    lemma_digit_count_bound(n, 20);
}

/// The sub-second precision (0, 3, 6 or 9 fractional digits) that a Unix
/// timestamp of `digits` decimal digits is taken to carry.
pub open spec fn precision_of_digits(digits: nat) -> u8 {
    if digits <= 10 {
        0
    } else if digits <= 13 {
        3
    } else if digits <= 16 {
        6
    } else {
        9
    }
}

pub open spec fn abs(v: int) -> nat {
    if v < 0 {
        (-v) as nat
    } else {
        v as nat
    }
}

/// Division truncating toward zero, as Rust's integer `/` does.
pub open spec fn div_trunc(a: int, b: int) -> int
    recommends
        b > 0,
{
    if a >= 0 {
        a / b
    } else {
        -((-a) / b)
    }
}

/// `v` clamped to the range of `i64`.
pub open spec fn clamp_i64(v: int) -> i64 {
    if v < i64::MIN {
        i64::MIN
    } else if v > i64::MAX {
        i64::MAX
    } else {
        v as i64
    }
}

/// A timestamp carrying `from` fractional digits, re-expressed with `to`
/// fractional digits: scaling up multiplies (saturating), scaling down divides
/// (truncating toward zero).
pub open spec fn scale_spec(value: int, from: nat, to: nat) -> i64 {
    if from == to {
        clamp_i64(value)
    } else if from < to {
        clamp_i64(value * pow10((to - from) as nat))
    } else {
        clamp_i64(div_trunc(value, pow10((from - to) as nat)))
    }
}

pub proof fn lemma_pow10_positive(n: nat)
    ensures
        pow10(n) >= 1,
    decreases n,
{
    if n > 0 {
        lemma_pow10_positive((n - 1) as nat);
    }
}

/// Counts the decimal digits of `n`.
pub fn count_digits(n: u64) -> (r: u32)
    ensures
        r as nat == digit_count(n as nat),
{
    let mut m: u64 = n;
    let mut count: u32 = 1;
    while m >= 10
        invariant
            count as nat + digit_count(m as nat) == 1 + digit_count(n as nat),
        decreases m,
    {
        proof {
            lemma_digit_count_u64(n as nat);
        }
        proof {
            assert(digit_count(m as nat) == 1 + digit_count((m / 10) as nat));
        }
        m = m / 10;
        count = count + 1;
    }
    count
}

/// The precision of a Unix timestamp, inferred from the number of digits of
/// its absolute value: up to 10 digits are seconds (0), 11 to 13 milliseconds
/// (3), 14 to 16 microseconds (6), and more nanoseconds (9).
pub fn detect_precision(value: i64) -> (r: u8)
    ensures
        r == precision_of_digits(digit_count(abs(value as int))),
{
    let magnitude: u64 = if value < 0 {
        ((-(value as i128)) as u64)
    } else {
        value as u64
    };
    let digits = count_digits(magnitude);
    if digits <= 10 {
        0
    } else if digits <= 13 {
        3
    } else if digits <= 16 {
        6
    } else {
        9
    }
}

/// `10^n` for a small `n`.
fn pow10_exec(n: u8) -> (r: i64)
    requires
        n <= 9,
    ensures
        r as int == pow10(n as nat),
{
    let mut r: i64 = 1;
    let mut i: u8 = 0;
    while i < n
        invariant
            i <= n <= 9,
            r as int == pow10(i as nat),
        decreases n - i,
    {
        proof {
            lemma_pow10_small(i as nat);
            assert(pow10((i + 1) as nat) == 10 * pow10(i as nat));
        }
        r = r * 10;
        i = i + 1;
    }
    r
}

proof fn lemma_pow10_small(n: nat)
    requires
        n <= 9,
    ensures
        1 <= pow10(n) <= 1_000_000_000,
        pow10(9) == 1_000_000_000,
{
    assert(pow10(0) == 1);
    assert(pow10(1) == 10);
    assert(pow10(2) == 100);
    assert(pow10(3) == 1000);
    assert(pow10(4) == 10000);
    assert(pow10(5) == 100000);
    assert(pow10(6) == 1000000);
    assert(pow10(7) == 10000000);
    assert(pow10(8) == 100000000);
    assert(pow10(9) == 1000000000);
}

/// Re-expresses a timestamp with `from` fractional digits with `to`
/// fractional digits.
pub fn scale(value: i64, from: u8, to: u8) -> (r: i64)
    requires
        from <= 9,
        to <= 9,
    ensures
        r == scale_spec(value as int, from as nat, to as nat),
{
    if from == to {
        value
    } else if from < to {
        let factor = pow10_exec(to - from);
        match value.checked_mul(factor) {
            Some(v) => v,
            None => {
                proof {
                    lemma_pow10_positive((to - from) as nat);
                    if value >= 0 {
                        assert(value * factor >= 0) by (nonlinear_arith)
                            requires value >= 0, factor >= 1;
                    } else {
                        assert(value * factor < 0) by (nonlinear_arith)
                            requires value < 0, factor >= 1;
                    }
                }
                if value < 0 {
                    i64::MIN
                } else {
                    i64::MAX
                }
            },
        }
    } else {
        let divisor = pow10_exec(from - to);
        proof {
            lemma_pow10_positive((from - to) as nat);
        }
        let wide: i128 = value as i128;
        let q: i128 = if wide >= 0 {
            wide / (divisor as i128)
        } else {
            -((-wide) / (divisor as i128))
        };
        proof {
            let w: int = wide as int;
            let d: int = divisor as int;
            if w >= 0 {
                assert(w / d <= w) by (nonlinear_arith)
                    requires w >= 0, d >= 1;
                assert(w / d >= 0) by (nonlinear_arith)
                    requires w >= 0, d >= 1;
            } else {
                assert((-w) / d <= -w) by (nonlinear_arith)
                    requires -w >= 0, d >= 1;
                assert((-w) / d >= 0) by (nonlinear_arith)
                    requires -w >= 0, d >= 1;
            }
        }
        q as i64
    }
}

} // verus!

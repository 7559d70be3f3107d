//! Decimal texts: reading and writing integers, and the parts of a float's
//! decimal rendering.

use vstd::prelude::*;

verus! {

pub open spec fn is_digit(c: char) -> bool {
    '0' <= c <= '9'
}

pub open spec fn digit_value(c: char) -> nat {
    (c as u32 - '0' as u32) as nat
}

pub open spec fn all_digits(s: Seq<char>) -> bool {
    forall|i: int| 0 <= i < s.len() ==> is_digit(#[trigger] s[i])
}

/// The number that a sequence of decimal digits spells.
pub open spec fn digits_value(s: Seq<char>) -> nat
    decreases s.len(),
{
    if s.len() == 0 {
        0
    } else {
        10 * digits_value(s.drop_last()) + digit_value(s.last())
    }
}

/// One or more decimal digits, and the number they spell.
pub open spec fn digits_text(s: Seq<char>) -> Option<nat> {
    if s.len() > 0 && all_digits(s) {
        Some(digits_value(s))
    } else {
        None
    }
}

/// An unsigned integer in decimal: an optional `+`, then one or more digits.
pub open spec fn unsigned_text(s: Seq<char>) -> Option<nat> {
    if s.len() > 0 && s[0] == '+' {
        digits_text(s.drop_first())
    } else {
        digits_text(s)
    }
}

/// A signed integer in decimal: an optional `+` or `-`, then one or more
/// digits.
pub open spec fn signed_text(s: Seq<char>) -> Option<int> {
    if s.len() > 0 && s[0] == '-' {
        match digits_text(s.drop_first()) {
            Some(n) => Some(-n),
            None => None,
        }
    } else {
        match unsigned_text(s) {
            Some(n) => Some(n as int),
            None => None,
        }
    }
}

/// The character of a decimal digit.
pub open spec fn digit_char(d: nat) -> char {
    if d == 0 {
        '0'
    } else if d == 1 {
        '1'
    } else if d == 2 {
        '2'
    } else if d == 3 {
        '3'
    } else if d == 4 {
        '4'
    } else if d == 5 {
        '5'
    } else if d == 6 {
        '6'
    } else if d == 7 {
        '7'
    } else if d == 8 {
        '8'
    } else {
        '9'
    }
}

/// The decimal numeral of `n`, without leading zeros.
pub open spec fn nat_text(n: nat) -> Seq<char>
    decreases n,
{
    if n < 10 {
        seq![digit_char(n)]
    } else {
        nat_text(n / 10).push(digit_char(n % 10))
    }
}

/// The decimal numeral of `i`, with a `-` when it is negative.
pub open spec fn int_text(i: int) -> Seq<char> {
    if i < 0 {
        seq!['-'] + nat_text((-i) as nat)
    } else {
        nat_text(i as nat)
    }
}

/// Reads the digits of `s` from `start` to its end, refusing an empty run, a
/// character that is not a digit, and a number above `limit`.
pub fn parse_digits(s: &str, start: usize, limit: u64) -> (r: Option<u64>)
    requires
        start <= s@.len(),
    ensures
        match digits_text(s@.subrange(start as int, s@.len() as int)) {
            Some(n) if n <= limit => r == Some(n as u64),
            _ => r is None,
        },
{
    let n = s.unicode_len();
    let ghost d = s@.subrange(start as int, n as int);
    if start >= n {
        return None;
    }
    let mut value: u64 = 0;
    let mut i: usize = start;
    let mut over = false;
    while i < n
        invariant
            start <= i <= n,
            n == s@.len(),
            d == s@.subrange(start as int, n as int),
            all_digits(s@.subrange(start as int, i as int)),
            !over ==> value as nat == digits_value(s@.subrange(start as int, i as int)),
            !over ==> value <= limit,
            over ==> digits_value(s@.subrange(start as int, i as int)) > limit,
        decreases n - i,
    {
        let c = s.get_char(i);
        if !('0' <= c && c <= '9') {
            proof {
                assert(d[i - start] == c);
                assert(!is_digit(d[i - start]));
            }
            return None;
        }
        let ghost prev = s@.subrange(start as int, i as int);
        let ghost next = s@.subrange(start as int, i + 1);
        proof {
            assert(next.drop_last() == prev);
            assert(next.last() == c);
            assert(all_digits(next)) by {
                assert forall|k: int| 0 <= k < next.len() implies is_digit(#[trigger] next[k]) by {
                    if k < prev.len() {
                        assert(next[k] == prev[k]);
                    }
                }
            }
        }
        let dv: u64 = (c as u32 - '0' as u32) as u64;
        if !over {
            if dv > limit || value > (limit - dv) / 10 {
                over = true;
                proof {
                    if dv <= limit {
                        assert(value * 10 + dv > limit) by (nonlinear_arith)
                            requires value > (limit - dv) / 10, dv <= limit;
                    }
                }
            } else {
                proof {
                    assert(value * 10 + dv <= limit) by (nonlinear_arith)
                        requires value <= (limit - dv) / 10, dv <= 9;
                }
                value = value * 10 + dv;
            }
        } else {
            proof {
                assert(digits_value(next) >= 10 * digits_value(prev));
            }
        }
        i = i + 1;
    }
    proof {
        assert(s@.subrange(start as int, n as int) == d);
    }
    if over {
        None
    } else {
        Some(value)
    }
}

/// Reads an unsigned decimal integer (an optional `+`, then digits) that is at
/// most `limit`.
pub fn parse_unsigned(s: &str, limit: u64) -> (r: Option<u64>)
    ensures
        match unsigned_text(s@) {
            Some(n) if n <= limit => r == Some(n as u64),
            _ => r is None,
        },
{
    if s.unicode_len() > 0 && s.get_char(0) == '+' {
        proof {
            assert(s@.drop_first() == s@.subrange(1, s@.len() as int));
        }
        parse_digits(s, 1, limit)
    } else {
        proof {
            assert(s@ == s@.subrange(0, s@.len() as int));
        }
        parse_digits(s, 0, limit)
    }
}

/// Reads a signed decimal integer that fits an `i32`.
pub fn parse_i32(s: &str) -> (r: Option<i32>)
    ensures
        match signed_text(s@) {
            Some(n) if i32::MIN <= n <= i32::MAX => r == Some(n as i32),
            _ => r is None,
        },
{
    if s.unicode_len() > 0 && s.get_char(0) == '-' {
        proof {
            assert(s@.drop_first() == s@.subrange(1, s@.len() as int));
        }
        match parse_digits(s, 1, 2147483648) {
            Some(n) => Some((-(n as i64)) as i32),
            None => None,
        }
    } else {
        match parse_unsigned(s, 2147483647) {
            Some(n) => Some(n as i32),
            None => None,
        }
    }
}

/// The one-character text of a decimal digit.
fn digit_str(d: u64) -> (r: &'static str)
    requires
        d <= 9,
    ensures
        r@ == seq![digit_char(d as nat)],
{
    proof {
        reveal_strlit("0");
        reveal_strlit("1");
        reveal_strlit("2");
        reveal_strlit("3");
        reveal_strlit("4");
        reveal_strlit("5");
        reveal_strlit("6");
        reveal_strlit("7");
        reveal_strlit("8");
        reveal_strlit("9");
    }
    if d == 0 {
        "0"
    } else if d == 1 {
        "1"
    } else if d == 2 {
        "2"
    } else if d == 3 {
        "3"
    } else if d == 4 {
        "4"
    } else if d == 5 {
        "5"
    } else if d == 6 {
        "6"
    } else if d == 7 {
        "7"
    } else if d == 8 {
        "8"
    } else {
        "9"
    }
}

/// Appends the decimal numeral of `n` to `out`.
fn append_nat(out: &mut String, n: u64)
    ensures
        final(out)@ == old(out)@ + nat_text(n as nat),
    decreases n,
{
    if n >= 10 {
        append_nat(out, n / 10);
    }
    let d = digit_str(n % 10);
    out.append(d);
    proof {
        if n < 10 {
            assert(n % 10 == n);
        }
    }
}

/// The decimal rendering of an integer.
pub fn format_int(i: i64) -> (r: String)
    ensures
        r@ == int_text(i as int),
{
    proof {
        reveal_strlit("");
        reveal_strlit("-");
    }
    let mut out = String::from_str("");
    if i < 0 {
        out.append("-");
        let m: u64 = (-(i as i128)) as u64;
        append_nat(&mut out, m);
    } else {
        append_nat(&mut out, i as u64);
    }
    out
}

/// The position of the first `c` in `s` at or after `from`.
pub open spec fn find_char(s: Seq<char>, c: char, from: int) -> Option<int>
    decreases s.len() - from,
{
    if from < 0 || from >= s.len() {
        None
    } else if s[from] == c {
        Some(from)
    } else {
        find_char(s, c, from + 1)
    }
}

pub proof fn lemma_find_char(s: Seq<char>, c: char, from: int)
    requires
        0 <= from,
    ensures
        find_char(s, c, from) matches Some(j) ==> from <= j < s.len() && s[j] == c && forall|k: int|
            from <= k < j ==> s[k] != c,
        find_char(s, c, from) is None ==> forall|k: int| from <= k < s.len() ==> s[k] != c,
    decreases s.len() - from,
{
    if from < s.len() && s[from] != c {
        lemma_find_char(s, c, from + 1);
    }
}

/// Finds the first `c` in `s` at or after `from`.
pub fn find_char_exec(s: &str, c: char, from: usize) -> (r: Option<usize>)
    ensures
        match find_char(s@, c, from as int) {
            Some(j) => r == Some(j as usize),
            None => r is None,
        },
{
    let n = s.unicode_len();
    let mut i = from;
    proof {
        lemma_find_char(s@, c, from as int);
    }
    while i < n
        invariant
            from <= i,
            n == s@.len(),
            forall|k: int| from <= k < i ==> s@[k] != c,
            find_char(s@, c, from as int) matches Some(j) ==> i <= j,
        decreases n - i,
    {
        proof {
            lemma_find_char(s@, c, from as int);
        }
        if s.get_char(i) == c {
            return Some(i);
        }
        i = i + 1;
    }
    None
}

/// The text of a float without its sign.
pub open spec fn unsigned_part(f: Seq<char>) -> Seq<char> {
    if f.len() > 0 && f[0] == '-' {
        f.drop_first()
    } else {
        f
    }
}

/// The digits before the point.
pub open spec fn whole_digits(u: Seq<char>) -> Seq<char> {
    match find_char(u, '.', 0) {
        Some(i) => u.subrange(0, i),
        None => u,
    }
}

/// The digits after the point.
pub open spec fn fraction_digits(u: Seq<char>) -> Seq<char> {
    match find_char(u, '.', 0) {
        Some(i) => u.subrange(i + 1, u.len() as int),
        None => seq![],
    }
}

/// Whether a float's decimal rendering is negative (zero included when it is
/// written `-0`).
pub open spec fn float_negative(f: Seq<char>) -> bool {
    f.len() > 0 && f[0] == '-'
}

/// The magnitude of a float's decimal rendering, truncated toward zero.
pub open spec fn float_trunc(f: Seq<char>) -> nat {
    let w = whole_digits(unsigned_part(f));
    if all_digits(w) {
        digits_value(w)
    } else {
        0
    }
}

/// Whether every digit of a float's decimal rendering is zero.
pub open spec fn float_is_zero(f: Seq<char>) -> bool {
    let u = unsigned_part(f);
    forall|i: int| 0 <= i < u.len() ==> (#[trigger] u[i] == '0' || u[i] == '.')
}

/// A decimal float in text without an exponent: an optional sign, then
/// digits with at most one point and at least one digit. Its rendering drops
/// a `+`, and writes a missing whole part as `0` and a missing fraction not at
/// all.
pub open spec fn plain_decimal_text(s: Seq<char>) -> Option<Seq<char>> {
    let neg = s.len() > 0 && s[0] == '-';
    let u = if s.len() > 0 && (s[0] == '-' || s[0] == '+') {
        s.drop_first()
    } else {
        s
    };
    let w = whole_digits(u);
    let fr = fraction_digits(u);
    if all_digits(w) && all_digits(fr) && w.len() + fr.len() > 0 {
        Some(
            (if neg {
                seq!['-']
            } else {
                seq![]
            }) + (if w.len() == 0 {
                seq!['0']
            } else {
                w
            }) + (if fr.len() == 0 {
                seq![]
            } else {
                seq!['.'] + fr
            }),
        )
    } else {
        None
    }
}

/// The number spelled by the digits of `s` between `from` and `to`, capped at
/// `limit`; 0 where a character there is not a digit.
pub fn digits_capped(s: &str, from: usize, to: usize, limit: u64) -> (r: u64)
    requires
        from <= to <= s@.len(),
    ensures
        r as nat == (if all_digits(s@.subrange(from as int, to as int)) {
            if digits_value(s@.subrange(from as int, to as int)) <= limit {
                digits_value(s@.subrange(from as int, to as int))
            } else {
                limit as nat
            }
        } else {
            0
        }),
{
    let mut value: u64 = 0;
    let mut i: usize = from;
    let mut over = false;
    while i < to
        invariant
            from <= i <= to <= s@.len(),
            all_digits(s@.subrange(from as int, i as int)),
            !over ==> value as nat == digits_value(s@.subrange(from as int, i as int)),
            !over ==> value <= limit,
            over ==> digits_value(s@.subrange(from as int, i as int)) > limit,
        decreases to - i,
    {
        let c = s.get_char(i);
        if !('0' <= c && c <= '9') {
            proof {
                let d = s@.subrange(from as int, to as int);
                assert(d[i - from] == c);
                assert(!is_digit(d[i - from]));
            }
            return 0;
        }
        let ghost prev = s@.subrange(from as int, i as int);
        let ghost next = s@.subrange(from as int, i + 1);
        proof {
            assert(next.drop_last() == prev);
            assert(next.last() == c);
            assert(all_digits(next)) by {
                assert forall|k: int| 0 <= k < next.len() implies is_digit(#[trigger] next[k]) by {
                    if k < prev.len() {
                        assert(next[k] == prev[k]);
                    }
                }
            }
        }
        let dv: u64 = (c as u32 - '0' as u32) as u64;
        if !over {
            if dv > limit || value > (limit - dv) / 10 {
                over = true;
                proof {
                    if dv <= limit {
                        assert(value * 10 + dv > limit) by (nonlinear_arith)
                            requires value > (limit - dv) / 10, dv <= limit;
                    }
                }
            } else {
                proof {
                    assert(value * 10 + dv <= limit) by (nonlinear_arith)
                        requires value <= (limit - dv) / 10, dv <= 9;
                }
                value = value * 10 + dv;
            }
        } else {
            proof {
                assert(digits_value(next) >= 10 * digits_value(prev));
            }
        }
        i = i + 1;
    }
    if over {
        limit
    } else {
        value
    }
}

/// Whether every character of `s` between `from` and `to` is a digit.
pub fn all_digits_exec(s: &str, from: usize, to: usize) -> (r: bool)
    requires
        from <= to <= s@.len(),
    ensures
        r == all_digits(s@.subrange(from as int, to as int)),
{
    let mut i = from;
    while i < to
        invariant
            from <= i <= to <= s@.len(),
            all_digits(s@.subrange(from as int, i as int)),
        decreases to - i,
    {
        let c = s.get_char(i);
        if !('0' <= c && c <= '9') {
            proof {
                let d = s@.subrange(from as int, to as int);
                assert(d[i - from] == c);
                assert(!is_digit(d[i - from]));
            }
            return false;
        }
        proof {
            let prev = s@.subrange(from as int, i as int);
            let next = s@.subrange(from as int, i + 1);
            assert forall|k: int| 0 <= k < next.len() implies is_digit(#[trigger] next[k]) by {
                if k < prev.len() {
                    assert(next[k] == prev[k]);
                }
            }
        }
        i = i + 1;
    }
    true
}

/// The truncated magnitude of a float's decimal rendering, capped at `limit`,
/// and whether the rendering is negative.
pub fn float_trunc_capped(f: &str, limit: u64) -> (r: (bool, u64))
    ensures
        r.0 == float_negative(f@),
        r.1 as nat == if float_trunc(f@) <= limit {
            float_trunc(f@)
        } else {
            limit as nat
        },
{
    let n = f.unicode_len();
    let neg = n > 0 && f.get_char(0) == '-';
    let start: usize = if neg {
        1
    } else {
        0
    };
    let ghost u = unsigned_part(f@);
    proof {
        assert(u == f@.subrange(start as int, n as int));
    }
    let end = match find_char_exec(f, '.', start) {
        Some(j) => j,
        None => n,
    };
    proof {
        lemma_find_char(f@, '.', start as int);
        lemma_find_char(u, '.', 0);
        match find_char(u, '.', 0) {
            Some(j) => {
                assert(f@[j + start] == '.');
                assert(find_char(f@, '.', start as int) == Some(j + start)) by {
                    if find_char(f@, '.', start as int) is None {
                        assert(f@[j + start] != '.');
                    } else {
                        let k = find_char(f@, '.', start as int)->0;
                        if k < j + start {
                            assert(u[k - start] == '.');
                        }
                    }
                }
                assert(whole_digits(u) == f@.subrange(start as int, end as int));
            },
            None => {
                assert(find_char(f@, '.', start as int) is None) by {
                    if find_char(f@, '.', start as int) is Some {
                        let k = find_char(f@, '.', start as int)->0;
                        assert(u[k - start] == '.');
                    }
                }
                assert(whole_digits(u) == f@.subrange(start as int, end as int));
            },
        }
    }
    if !all_digits_exec(f, start, end) {
        return (neg, 0);
    }
    (neg, digits_capped(f, start, end, limit))
}

/// Reads a decimal float in text without an exponent (see
/// `plain_decimal_text`) into its rendering.
fn normalize_plain(s: &str) -> (r: Option<String>)
    ensures
        match plain_decimal_text(s@) {
            Some(t) => r matches Some(x) && x@ == t,
            None => r is None,
        },
{
    let n = s.unicode_len();
    let neg = n > 0 && s.get_char(0) == '-';
    let signed = n > 0 && (s.get_char(0) == '-' || s.get_char(0) == '+');
    let start: usize = if signed {
        1
    } else {
        0
    };
    let ghost u = if s@.len() > 0 && (s@[0] == '-' || s@[0] == '+') {
        s@.drop_first()
    } else {
        s@
    };
    proof {
        assert(u == s@.subrange(start as int, n as int));
        lemma_find_char(s@, '.', start as int);
        lemma_find_char(u, '.', 0);
    }
    let dot = find_char_exec(s, '.', start);
    let end = match dot {
        Some(j) => j,
        None => n,
    };
    let frac_start = match dot {
        Some(j) => j + 1,
        None => n,
    };
    proof {
        match find_char(u, '.', 0) {
            Some(j) => {
                assert(find_char(s@, '.', start as int) == Some(j + start)) by {
                    if find_char(s@, '.', start as int) is None {
                        assert(s@[j + start] == u[j]);
                    } else {
                        let k = find_char(s@, '.', start as int)->0;
                        if k < j + start {
                            assert(u[k - start] == '.');
                        }
                    }
                }
            },
            None => {
                assert(find_char(s@, '.', start as int) is None) by {
                    if find_char(s@, '.', start as int) is Some {
                        let k = find_char(s@, '.', start as int)->0;
                        assert(u[k - start] == '.');
                    }
                }
            },
        }
        assert(whole_digits(u) == s@.subrange(start as int, end as int));
        assert(fraction_digits(u) =~= s@.subrange(frac_start as int, n as int));
    }
    if !all_digits_exec(s, start, end) || !all_digits_exec(s, frac_start, n) || (end == start
        && frac_start >= n) {
        return None;
    }
    proof {
        reveal_strlit("");
        reveal_strlit("-");
        reveal_strlit("0");
        reveal_strlit(".");
    }
    let mut out = String::from_str("");
    if neg {
        out.append("-");
    }
    if end == start {
        out.append("0");
    } else {
        out.append(s.substring_char(start, end));
    }
    if frac_start < n {
        out.append(".");
        out.append(s.substring_char(frac_start, n));
    }
    proof {
        let t = plain_decimal_text(s@)->0;
        assert(out@ =~= t);
    }
    Some(out)
}

/// The position of the first exponent mark (`e` or `E`) in `s` at or after
/// `from`.
pub open spec fn find_exp(s: Seq<char>, from: int) -> Option<int>
    decreases s.len() - from,
{
    if from < 0 || from >= s.len() {
        None
    } else if s[from] == 'e' || s[from] == 'E' {
        Some(from)
    } else {
        find_exp(s, from + 1)
    }
}

proof fn lemma_find_exp(s: Seq<char>, from: int)
    requires
        0 <= from,
    ensures
        find_exp(s, from) matches Some(j) ==> from <= j < s.len() && (s[j] == 'e' || s[j] == 'E')
            && forall|k: int| from <= k < j ==> s[k] != 'e' && s[k] != 'E',
        find_exp(s, from) is None ==> forall|k: int| from <= k < s.len() ==> s[k] != 'e' && s[k] != 'E',
    decreases s.len() - from,
{
    if from < s.len() && s[from] != 'e' && s[from] != 'E' {
        lemma_find_exp(s, from + 1);
    }
}

pub open spec fn zero_run(k: nat) -> Seq<char> {
    Seq::new(k, |i: int| '0')
}

/// A plain rendering (`-?W(.F)?`) with its point moved `n` places to the
/// right (to the left for a negative `n`).
pub open spec fn shifted(p: Seq<char>, n: int) -> Seq<char> {
    let neg = p.len() > 0 && p[0] == '-';
    let sign = if neg {
        seq!['-']
    } else {
        seq![]
    };
    let body = if neg {
        p.drop_first()
    } else {
        p
    };
    let w = whole_digits(body);
    let m = w + fraction_digits(body);
    let q = w.len() + n;
    if q <= 0 {
        sign + seq!['0', '.'] + zero_run((-q) as nat) + m
    } else if q >= m.len() {
        sign + m + zero_run((q - m.len()) as nat)
    } else {
        sign + m.subrange(0, q) + seq!['.'] + m.subrange(q, m.len() as int)
    }
}

/// A decimal float in text: a plain decimal (see `plain_decimal_text`),
/// optionally followed by `e` or `E` and a signed exponent of at most four
/// digits' worth (up to 9999 in size). Its rendering is plain: the point is
/// moved by the exponent.
pub open spec fn decimal_text(s: Seq<char>) -> Option<Seq<char>> {
    match find_exp(s, 0) {
        None => plain_decimal_text(s),
        Some(i) => match (plain_decimal_text(s.subrange(0, i)), signed_text(s.subrange(i + 1, s.len() as int))) {
            (Some(p), Some(n)) => if -9999 <= n <= 9999 {
                Some(shifted(p, n))
            } else {
                None
            },
            _ => None,
        },
    }
}

fn append_zeros(out: &mut String, k: usize)
    ensures
        final(out)@ == old(out)@ + zero_run(k as nat),
{
    proof {
        reveal_strlit("0");
        assert("0"@ =~= seq!['0']);
    }
    let mut i: usize = 0;
    while i < k
        invariant
            i <= k,
            out@ == old(out)@ + zero_run(i as nat),
            "0"@ == seq!['0'],
        decreases k - i,
    {
        out.append("0");
        proof {
            assert(zero_run((i + 1) as nat) =~= zero_run(i as nat) + seq!['0']);
            assert(out@ =~= old(out)@ + zero_run((i + 1) as nat));
        }
        i = i + 1;
    }
}

/// Moves the point of a plain rendering `n` places.
fn shift_decimal(p: &str, n: i32) -> (r: String)
    requires
        -9999 <= n <= 9999,
    ensures
        r@ == shifted(p@, n as int),
{
    let len = p.unicode_len();
    let neg = len > 0 && p.get_char(0) == '-';
    let start: usize = if neg {
        1
    } else {
        0
    };
    let ghost body = if neg {
        p@.drop_first()
    } else {
        p@
    };
    proof {
        assert(body == p@.subrange(start as int, len as int));
        lemma_find_char(p@, '.', start as int);
        lemma_find_char(body, '.', 0);
    }
    let dot = find_char_exec(p, '.', start);
    let end = match dot {
        Some(j) => j,
        None => len,
    };
    let frac_start = match dot {
        Some(j) => j + 1,
        None => len,
    };
    proof {
        match find_char(body, '.', 0) {
            Some(j) => {
                assert(find_char(p@, '.', start as int) == Some(j + start)) by {
                    if find_char(p@, '.', start as int) is None {
                        assert(p@[j + start] == body[j]);
                    } else {
                        let k = find_char(p@, '.', start as int)->0;
                        if k < j + start {
                            assert(body[k - start] == '.');
                        }
                    }
                }
            },
            None => {
                assert(find_char(p@, '.', start as int) is None) by {
                    if find_char(p@, '.', start as int) is Some {
                        let k = find_char(p@, '.', start as int)->0;
                        assert(body[k - start] == '.');
                    }
                }
            },
        }
        assert(whole_digits(body) == p@.subrange(start as int, end as int));
        assert(fraction_digits(body) =~= p@.subrange(frac_start as int, len as int));
    }
    proof {
        reveal_strlit("");
        reveal_strlit("-");
        reveal_strlit("0.");
        reveal_strlit(".");
        assert(""@ =~= Seq::<char>::empty());
        assert("-"@ =~= seq!['-']);
        assert("0."@ =~= seq!['0', '.']);
        assert("."@ =~= seq!['.']);
    }
    let mut m = String::from_str(p.substring_char(start, end));
    m.append(p.substring_char(frac_start, len));
    let mlen = m.unicode_len();
    let wlen: i128 = (end - start) as i128;
    let q: i128 = wlen + n as i128;
    proof {
        assert(m@ == p@.subrange(start as int, end as int) + p@.subrange(frac_start as int, len as int));
        assert(wlen <= mlen);
    }
    let mut out = if neg {
        String::from_str("-")
    } else {
        String::from_str("")
    };
    if q <= 0 {
        out.append("0.");
        append_zeros(&mut out, (-q) as usize);
        out.append(m.as_str());
    } else if q >= mlen as i128 {
        out.append(m.as_str());
        append_zeros(&mut out, (q - mlen as i128) as usize);
    } else {
        out.append(m.substring_char(0, q as usize));
        out.append(".");
        out.append(m.substring_char(q as usize, mlen));
    }
    proof {
        assert(out@ =~= shifted(p@, n as int));
    }
    out
}

/// Reads a decimal float in text (see `decimal_text`) into its rendering.
pub fn normalize_decimal(s: &str) -> (r: Option<String>)
    ensures
        match decimal_text(s@) {
            Some(t) => r matches Some(x) && x@ == t,
            None => r is None,
        },
{
    let n = s.unicode_len();
    let mut i: usize = 0;
    let mut at: usize = n;
    while i < n
        invariant
            i <= n == s@.len(),
            at == n ==> forall|k: int| 0 <= k < i ==> s@[k] != 'e' && s@[k] != 'E',
            at < n ==> at < i && (s@[at as int] == 'e' || s@[at as int] == 'E') && forall|k: int|
                0 <= k < at ==> s@[k] != 'e' && s@[k] != 'E',
            at <= n,
        decreases n - i,
    {
        if at == n {
            let c = s.get_char(i);
            if c == 'e' || c == 'E' {
                at = i;
            }
        }
        i = i + 1;
    }
    proof {
        lemma_find_exp(s@, 0);
    }
    if at == n {
        proof {
            assert(find_exp(s@, 0) is None) by {
                if find_exp(s@, 0) is Some {
                    let j = find_exp(s@, 0)->0;
                    assert(s@[j] != 'e' && s@[j] != 'E');
                }
            }
        }
        return normalize_plain(s);
    }
    let i = at;
    proof {
        assert(find_exp(s@, 0) == Some(i as int)) by {
            if find_exp(s@, 0) is None {
                assert(s@[i as int] != 'e' && s@[i as int] != 'E');
            } else {
                let j = find_exp(s@, 0)->0;
                if j < i {
                    assert(s@[j] != 'e' && s@[j] != 'E');
                }
            }
        }
    }
    let mantissa = s.substring_char(0, i);
    let exponent = s.substring_char(i + 1, n);
    match (normalize_plain(mantissa), parse_i32(exponent)) {
        (Some(p), Some(e)) => if -9999 <= e && e <= 9999 {
            Some(shift_decimal(p.as_str(), e))
        } else {
            None
        },
        _ => None,
    }
}

} // verus!

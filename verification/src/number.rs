//! Reading numbers written in decimal, as Rust's `str::parse` reads them
//! for `i32`, `i64`, `f32` and `f64`: an optional sign, then ASCII digits;
//! for the floating-point types also the wider grammar of the standard
//! library (fractions, exponents, `inf`, `infinity`, `nan`).
use vstd::prelude::*;

use crate::text::chars_of;

verus! {

pub open spec fn is_ascii_digit(c: char) -> bool {
    '0' <= c <= '9'
}

pub open spec fn all_ascii_digits(w: Seq<char>) -> bool {
    forall|i: int| 0 <= i < w.len() ==> is_ascii_digit(#[trigger] w[i])
}

/// The value of a run of ASCII digits.
pub open spec fn decimal_value(w: Seq<char>) -> nat
    decreases w.len(),
{
    if w.len() == 0 {
        0
    } else {
        decimal_value(w.drop_last()) * 10 + ((w.last() as int) - ('0' as int)) as nat
    }
}

/// The integer written by `w`: an optional `+` or `-`, then at least one
/// ASCII digit, and nothing else.
pub open spec fn signed_decimal(w: Seq<char>) -> Option<int> {
    if w.len() > 0 && (w[0] == '+' || w[0] == '-') {
        let d = w.drop_first();
        if d.len() > 0 && all_ascii_digits(d) {
            Some(
                if w[0] == '-' {
                    -(decimal_value(d) as int)
                } else {
                    decimal_value(d) as int
                },
            )
        } else {
            None
        }
    } else if w.len() > 0 && all_ascii_digits(w) {
        Some(decimal_value(w) as int)
    } else {
        None
    }
}

/// What `str::parse::<i32>` gives for `w`.
pub open spec fn parse_i32_spec(w: Seq<char>) -> Option<i32> {
    match signed_decimal(w) {
        Some(v) => if i32::MIN <= v <= i32::MAX {
            Some(v as i32)
        } else {
            None
        },
        None => None,
    }
}

/// What `str::parse::<i64>` gives for `w`.
pub open spec fn parse_i64_spec(w: Seq<char>) -> Option<i64> {
    match signed_decimal(w) {
        Some(v) => if i64::MIN <= v <= i64::MAX {
            Some(v as i64)
        } else {
            None
        },
        None => None,
    }
}

proof fn lemma_decimal_step(w: Seq<char>, k: int)
    requires
        0 <= k < w.len(),
    ensures
        decimal_value(w.take(k + 1)) == decimal_value(w.take(k)) * 10 + ((w[k] as int) - (
        '0' as int)) as nat,
{
    assert(w.take(k + 1).drop_last() =~= w.take(k));
}

proof fn lemma_decimal_grows(w: Seq<char>, k: int)
    requires
        0 <= k <= w.len(),
        all_ascii_digits(w),
    ensures
        decimal_value(w.take(k)) <= decimal_value(w),
    decreases w.len() - k,
{
    if k < w.len() {
        lemma_decimal_step(w, k);
        lemma_decimal_grows(w, k + 1);
    } else {
        assert(w.take(k) =~= w);
    }
}

/// The magnitude written by the digits `w[from..]`, if it is at most
/// `limit`.
fn digits_value(w: &Vec<char>, from: usize, limit: u64) -> (r: Option<u64>)
    requires
        from <= w@.len(),
        all_ascii_digits(w@.skip(from as int)),
        9 <= limit,
    ensures
        match r {
            Some(v) => v == decimal_value(w@.skip(from as int)) && v <= limit,
            None => decimal_value(w@.skip(from as int)) > limit,
        },
{
    let ghost d = w@.skip(from as int);
    let mut acc: u64 = 0;
    let mut k = from;
    assert(d.take(0) =~= Seq::<char>::empty());
    while k < w.len()
        invariant
            from <= k <= w@.len(),
            d == w@.skip(from as int),
            all_ascii_digits(d),
            acc == decimal_value(d.take(k - from)),
            acc <= limit,
            9 <= limit,
        decreases w@.len() - k,
    {
        let c = w[k];
        assert(d[k - from] == c);
        assert(is_ascii_digit(d[k - from]));
        let digit = (c as u32 - '0' as u32) as u64;
        proof {
            lemma_decimal_step(d, k - from);
        }
        if acc > (limit - digit) / 10 {
            proof {
                lemma_decimal_grows(d, k - from + 1);
                assert(acc * 10 + digit > limit) by (nonlinear_arith)
                    requires
                        acc > (limit - digit) / 10,
                        digit <= 9,
                        9 <= limit,
                ;
            }
            return None;
        }
        proof {
            assert(acc * 10 + digit <= limit) by (nonlinear_arith)
                requires
                    acc <= (limit - digit) / 10,
                    digit <= 9,
                    9 <= limit,
            ;
        }
        acc = acc * 10 + digit;
        k = k + 1;
    }
    assert(d.take(k - from) =~= d);
    Some(acc)
}

fn all_digits_from(w: &Vec<char>, from: usize) -> (r: bool)
    requires
        from <= w@.len(),
    ensures
        r == all_ascii_digits(w@.skip(from as int)),
{
    let mut k = from;
    while k < w.len()
        invariant
            from <= k <= w@.len(),
            forall|i: int| from <= i < k ==> is_ascii_digit(#[trigger] w@[i]),
        decreases w@.len() - k,
    {
        let c = w[k];
        if !('0' <= c && c <= '9') {
            assert(w@.skip(from as int)[k - from] == c);
            return false;
        }
        k = k + 1;
    }
    assert forall|i: int| 0 <= i < w@.skip(from as int).len() implies is_ascii_digit(
        #[trigger] w@.skip(from as int)[i],
    ) by {
        assert(w@.skip(from as int)[i] == w@[from + i]);
    }
    true
}

/// The integer written by `w`, when it lies in `-neg_limit ..= pos_limit`.
fn read_signed(w: &Vec<char>, pos_limit: u64, neg_limit: u64) -> (r: Option<i128>)
    requires
        9 <= pos_limit,
        9 <= neg_limit,
    ensures
        match r {
            Some(v) => signed_decimal(w@) == Some(v as int) && -(neg_limit as int) <= v
                <= pos_limit,
            None => match signed_decimal(w@) {
                Some(v) => v < -(neg_limit as int) || v > pos_limit,
                None => true,
            },
        },
{
    let n = w.len();
    if n > 0 && (w[0] == '+' || w[0] == '-') {
        let negative = w[0] == '-';
        assert(w@.drop_first() =~= w@.skip(1));
        if n == 1 || !all_digits_from(w, 1) {
            return None;
        }
        let limit = if negative {
            neg_limit
        } else {
            pos_limit
        };
        match digits_value(w, 1, limit) {
            Some(v) => {
                if negative {
                    Some(-(v as i128))
                } else {
                    Some(v as i128)
                }
            },
            None => None,
        }
    } else {
        assert(w@.skip(0) =~= w@);
        if n == 0 || !all_digits_from(w, 0) {
            return None;
        }
        match digits_value(w, 0, pos_limit) {
            Some(v) => Some(v as i128),
            None => None,
        }
    }
}

/// Reads an `i32` the way `str::parse::<i32>` does.
pub fn parse_i32(text: &str) -> (r: Option<i32>)
    ensures
        r == parse_i32_spec(text@),
{
    let w = chars_of(text);
    match read_signed(&w, 2147483647, 2147483648) {
        Some(v) => Some(v as i32),
        None => None,
    }
}

/// Reads an `i64` the way `str::parse::<i64>` does.
pub fn parse_i64(text: &str) -> (r: Option<i64>)
    ensures
        r == parse_i64_spec(text@),
{
    let w = chars_of(text);
    match read_signed(&w, 9223372036854775807, 9223372036854775808) {
        Some(v) => Some(v as i64),
        None => None,
    }
}

/// The end of the run of ASCII digits of `b` that starts at `i`.
pub open spec fn digit_run_end(b: Seq<char>, i: int) -> int
    decreases b.len() - i,
{
    if 0 <= i < b.len() && is_ascii_digit(b[i]) {
        digit_run_end(b, i + 1)
    } else {
        i
    }
}

/// `b` spells a word whose letters are given in `lower` and `upper` case,
/// each letter in either case.
pub open spec fn word_ignoring_case(b: Seq<char>, lower: Seq<char>, upper: Seq<char>) -> bool {
    b.len() == lower.len() && b.len() == upper.len() && forall|i: int|
        0 <= i < b.len() ==> b[i] == lower[i] || b[i] == upper[i]
}

/// After the mantissa, at position `m`: nothing, or an exponent
/// (`e` or `E`, an optional sign, at least one digit) that ends the text.
pub open spec fn exponent_ok(b: Seq<char>, m: int) -> bool {
    m == b.len() || (m < b.len() && (b[m] == 'e' || b[m] == 'E') && {
        let j = if m + 1 < b.len() && (b[m + 1] == '+' || b[m + 1] == '-') {
            m + 2
        } else {
            m + 1
        };
        let k = digit_run_end(b, j);
        k > j && k == b.len()
    })
}

/// `Digit+ | Digit+ '.' Digit* | Digit* '.' Digit+`, then an optional
/// exponent.
pub open spec fn is_decimal_number(b: Seq<char>) -> bool {
    let a = digit_run_end(b, 0);
    if a < b.len() && b[a] == '.' {
        let e = digit_run_end(b, a + 1);
        (a > 0 || e > a + 1) && exponent_ok(b, e)
    } else {
        a > 0 && exponent_ok(b, a)
    }
}

/// Whether `str::parse::<f32>` (or `f64`) accepts `w`: an optional sign,
/// then `inf`, `infinity`, `nan` (in any case) or a decimal number.
pub open spec fn is_float_literal(w: Seq<char>) -> bool {
    let b = if w.len() > 0 && (w[0] == '+' || w[0] == '-') {
        w.drop_first()
    } else {
        w
    };
    word_ignoring_case(b, seq!['i', 'n', 'f'], seq!['I', 'N', 'F']) || word_ignoring_case(
        b,
        seq!['i', 'n', 'f', 'i', 'n', 'i', 't', 'y'],
        seq!['I', 'N', 'F', 'I', 'N', 'I', 'T', 'Y'],
    ) || word_ignoring_case(b, seq!['n', 'a', 'n'], seq!['N', 'A', 'N']) || is_decimal_number(b)
}

fn find_digit_run_end(b: &Vec<char>, i: usize) -> (r: usize)
    requires
        i <= b@.len(),
    ensures
        r == digit_run_end(b@, i as int),
        i <= r <= b@.len(),
{
    let mut k = i;
    while k < b.len() && '0' <= b[k] && b[k] <= '9'
        invariant
            i <= k <= b@.len(),
            digit_run_end(b@, i as int) == digit_run_end(b@, k as int),
        decreases b@.len() - k,
    {
        k = k + 1;
    }
    k
}

fn letters_match(b: &Vec<char>, from: usize, lower: &str, upper: &str) -> (r: bool)
    requires
        from <= b@.len(),
    ensures
        r == word_ignoring_case(b@.skip(from as int), lower@, upper@),
{
    let lo = chars_of(lower);
    let up = chars_of(upper);
    let n = b.len();
    if n - from != lo.len() || lo.len() != up.len() {
        return false;
    }
    let mut k: usize = 0;
    while k < lo.len()
        invariant
            lo@ == lower@,
            up@ == upper@,
            n == b@.len(),
            from + lo@.len() == n,
            lo@.len() == up@.len(),
            k <= lo@.len(),
            forall|m: int| 0 <= m < k ==> b@[from + m] == lo@[m] || b@[from + m] == up@[m],
        decreases lo@.len() - k,
    {
        let c = b[from + k];
        if !(c == lo[k] || c == up[k]) {
            assert(b@.skip(from as int)[k as int] == c);
            return false;
        }
        k = k + 1;
    }
    assert forall|i: int| 0 <= i < b@.skip(from as int).len() implies b@.skip(from as int)[i]
        == lower@[i] || b@.skip(from as int)[i] == upper@[i] by {
        assert(b@.skip(from as int)[i] == b@[from + i]);
    }
    true
}

fn exponent_at(b: &Vec<char>, m: usize) -> (r: bool)
    requires
        m <= b@.len(),
    ensures
        r == exponent_ok(b@, m as int),
{
    let n = b.len();
    if m == n {
        return true;
    }
    if !(b[m] == 'e' || b[m] == 'E') {
        return false;
    }
    let j = if m + 1 < n && (b[m + 1] == '+' || b[m + 1] == '-') {
        m + 2
    } else {
        m + 1
    };
    let k = find_digit_run_end(b, j);
    k > j && k == n
}

/// Whether `str::parse::<f32>` and `str::parse::<f64>` accept `text`.
pub fn is_float_text(text: &str) -> (r: bool)
    ensures
        r == is_float_literal(text@),
{
    proof {
        reveal_strlit("inf");
        reveal_strlit("infinity");
        reveal_strlit("nan");
        reveal_strlit("INF");
        reveal_strlit("INFINITY");
        reveal_strlit("NAN");
    }
    let w = chars_of(text);
    let from: usize = if w.len() > 0 && (w[0] == '+' || w[0] == '-') {
        1
    } else {
        0
    };
    let ghost b = w@.skip(from as int);
    assert(w@.len() > 0 && (w@[0] == '+' || w@[0] == '-') ==> b =~= w@.drop_first());
    assert(!(w@.len() > 0 && (w@[0] == '+' || w@[0] == '-')) ==> b =~= w@);
    assert("inf"@ =~= seq!['i', 'n', 'f']);
    assert("infinity"@ =~= seq!['i', 'n', 'f', 'i', 'n', 'i', 't', 'y']);
    assert("nan"@ =~= seq!['n', 'a', 'n']);
    assert("INF"@ =~= seq!['I', 'N', 'F']);
    assert("INFINITY"@ =~= seq!['I', 'N', 'F', 'I', 'N', 'I', 'T', 'Y']);
    assert("NAN"@ =~= seq!['N', 'A', 'N']);
    if letters_match(&w, from, "inf", "INF") || letters_match(&w, from, "infinity", "INFINITY")
        || letters_match(&w, from, "nan", "NAN") {
        return true;
    }
    let mut rest: Vec<char> = Vec::new();
    let mut k = from;
    while k < w.len()
        invariant
            from <= k <= w@.len(),
            b == w@.skip(from as int),
            rest@ == b.take(k - from),
        decreases w@.len() - k,
    {
        rest.push(w[k]);
        k = k + 1;
        assert(rest@ =~= b.take(k - from));
    }
    assert(b.take(k - from) =~= b);
    let a = find_digit_run_end(&rest, 0);
    if a < rest.len() && rest[a] == '.' {
        let e = find_digit_run_end(&rest, a + 1);
        (a > 0 || e > a + 1) && exponent_at(&rest, e)
    } else {
        a > 0 && exponent_at(&rest, a)
    }
}

} // verus!

//! Calendar dates and UTC timestamps in the proleptic Gregorian calendar.
use vstd::prelude::*;

use crate::error::{NtError, Result};
use crate::text::{
    all_digits, append_str, chars_all_digits, chars_of, decimal, digits_value, is_ascii_digit_char,
    owned, padded_decimal, padded_signed, parse_digits, push_char, push_padded,
    push_padded_signed, slice_chars, string_of,
};
use vstd::arithmetic::div_mod::{lemma_fundamental_div_mod, lemma_fundamental_div_mod_converse};

verus! {

pub const SECONDS_PER_DAY: i64 = 86400;

// ---------------------------------------------------------------------------
// The calendar
// ---------------------------------------------------------------------------

pub open spec fn is_leap(y: int) -> bool {
    (y % 4 == 0 && y % 100 != 0) || y % 400 == 0
}

pub open spec fn year_len(y: int) -> int {
    if is_leap(y) {
        366
    } else {
        365
    }
}

pub open spec fn month_days(y: int, m: int) -> int {
    if m == 1 || m == 3 || m == 5 || m == 7 || m == 8 || m == 10 || m == 12 {
        31
    } else if m == 4 || m == 6 || m == 9 || m == 11 {
        30
    } else if m == 2 {
        if is_leap(y) {
            29
        } else {
            28
        }
    } else {
        0
    }
}

/// Days in the months of year `y` before month `m`.
pub open spec fn days_before_month(y: int, m: int) -> int
    decreases m,
{
    if m <= 1 {
        0
    } else {
        days_before_month(y, m - 1) + month_days(y, m - 1)
    }
}

/// Leap years among the years `0..y` (year 0 is a leap year).
pub open spec fn leaps_before(y: int) -> int {
    (y + 3) / 4 - (y + 99) / 100 + (y + 399) / 400
}

/// The day number of January 1 of year `y`, counted from 1970-01-01.
pub open spec fn year_start(y: int) -> int {
    365 * (y - 1970) + leaps_before(y) - leaps_before(1970)
}

pub open spec fn valid_civil(y: int, m: int, d: int) -> bool {
    1 <= m <= 12 && 1 <= d <= month_days(y, m)
}

/// The day number of a date, counted from 1970-01-01.
pub open spec fn civil_days(y: int, m: int, d: int) -> int {
    year_start(y) + days_before_month(y, m) + d - 1
}

/// The date with day number `n`.
pub open spec fn civil_of(n: int) -> (int, int, int) {
    choose|t: (int, int, int)| valid_civil(t.0, t.1, t.2) && civil_days(t.0, t.1, t.2) == n
}

proof fn lemma_floor_step(x: int, k: int)
    requires
        k > 0,
    ensures
        (x + 1) / k - x / k == (if (x + 1) % k == 0 {
            1int
        } else {
            0int
        }),
{
    lemma_fundamental_div_mod(x, k);
    lemma_fundamental_div_mod(x + 1, k);
    let q = x / k;
    let r = x % k;
    vstd::arithmetic::div_mod::lemma_mod_bound(x, k);
    assert(x + 1 == q * k + (r + 1)) by (nonlinear_arith)
        requires
            x == k * q + r,
    ;
    assert(x + 1 == (q + 1) * k + (r + 1 - k)) by (nonlinear_arith)
        requires
            x == k * q + r,
    ;
    if r + 1 < k {
        lemma_fundamental_div_mod_converse(x + 1, k, q, r + 1);
    } else {
        lemma_fundamental_div_mod_converse(x + 1, k, q + 1, 0);
    }
}

proof fn lemma_mod_shift(y: int, k: int, j: int)
    requires
        k > 0,
    ensures
        (y + k * j) % k == y % k,
{
    vstd::arithmetic::div_mod::lemma_mod_multiples_vanish(j, y, k);
    assert(k * j + y == y + k * j);
}

/// Each year starts `year_len` days after the previous one.
#[verifier::spinoff_prover]
#[verifier::rlimit(40)]
pub proof fn lemma_year_start_step(y: int)
    ensures
        year_start(y + 1) == year_start(y) + year_len(y),
{
    lemma_floor_step(y + 3, 4);
    lemma_floor_step(y + 99, 100);
    lemma_floor_step(y + 399, 400);
    lemma_mod_shift(y, 4, 1);
    lemma_mod_shift(y, 100, 1);
    lemma_mod_shift(y, 400, 1);
    assert(y + 3 + 1 == y + 4 * 1);
    assert(y + 99 + 1 == y + 100 * 1);
    assert(y + 399 + 1 == y + 400 * 1);
}

/// Every four hundred years hold 146097 days.
proof fn lemma_year_start_era(e: int)
    ensures
        year_start(400 * e) == year_start(0) + 146097 * e,
{
    vstd::arithmetic::div_mod::lemma_div_multiples_vanish_fancy(100 * e, 3, 4);
    vstd::arithmetic::div_mod::lemma_div_multiples_vanish_fancy(4 * e, 99, 100);
    vstd::arithmetic::div_mod::lemma_div_multiples_vanish_fancy(e, 399, 400);
    assert(4 * (100 * e) + 3 == 400 * e + 3);
    assert(100 * (4 * e) + 99 == 400 * e + 99);
    assert(400 * e + 399 == 400 * e + 399);
    assert(leaps_before(0) == 0);
}

proof fn lemma_year_start_increasing(a: int, b: int)
    requires
        a < b,
    ensures
        year_start(a) + 365 * (b - a) <= year_start(b),
    decreases b - a,
{
    lemma_year_start_step(b - 1);
    if a < b - 1 {
        lemma_year_start_increasing(a, b - 1);
    }
}

proof fn lemma_days_before_month_bounds(y: int, m: int)
    requires
        1 <= m <= 12,
    ensures
        days_before_month(y, m) + month_days(y, m) <= year_len(y),
        days_before_month(y, m) >= 0,
        days_before_month(y, m + 1) == days_before_month(y, m) + month_days(y, m),
{
    reveal_with_fuel(days_before_month, 13);
}

proof fn lemma_days_before_month_increasing(y: int, a: int, b: int)
    requires
        1 <= a < b <= 13,
    ensures
        days_before_month(y, a) + month_days(y, a) <= days_before_month(y, b),
    decreases b - a,
{
    if a < b - 1 {
        lemma_days_before_month_increasing(y, a, b - 1);
        assert(month_days(y, b - 1) >= 0);
    }
}

/// A valid date falls within its year.
proof fn lemma_civil_within_year(y: int, m: int, d: int)
    requires
        valid_civil(y, m, d),
    ensures
        year_start(y) <= civil_days(y, m, d) < year_start(y) + year_len(y),
        year_start(y) + days_before_month(y, m) <= civil_days(y, m, d) < year_start(y)
            + days_before_month(y, m) + month_days(y, m),
{
    lemma_days_before_month_bounds(y, m);
}

proof fn lemma_same_year(a: (int, int, int), b: (int, int, int))
    requires
        valid_civil(a.0, a.1, a.2),
        valid_civil(b.0, b.1, b.2),
        a.0 < b.0,
    ensures
        civil_days(a.0, a.1, a.2) < civil_days(b.0, b.1, b.2),
{
    lemma_civil_within_year(a.0, a.1, a.2);
    lemma_civil_within_year(b.0, b.1, b.2);
    lemma_year_start_step(a.0);
    if a.0 + 1 < b.0 {
        lemma_year_start_increasing(a.0 + 1, b.0);
    }
}

proof fn lemma_same_month(y: int, a: (int, int), b: (int, int))
    requires
        valid_civil(y, a.0, a.1),
        valid_civil(y, b.0, b.1),
        a.0 < b.0,
    ensures
        civil_days(y, a.0, a.1) < civil_days(y, b.0, b.1),
{
    lemma_civil_within_year(y, a.0, a.1);
    lemma_civil_within_year(y, b.0, b.1);
    lemma_days_before_month_increasing(y, a.0, b.0);
}

/// Distinct valid dates have distinct day numbers.
pub proof fn lemma_civil_days_injective(a: (int, int, int), b: (int, int, int))
    requires
        valid_civil(a.0, a.1, a.2),
        valid_civil(b.0, b.1, b.2),
        civil_days(a.0, a.1, a.2) == civil_days(b.0, b.1, b.2),
    ensures
        a == b,
{
    if a.0 < b.0 {
        lemma_same_year(a, b);
    } else if b.0 < a.0 {
        lemma_same_year(b, a);
    }
    if a.1 < b.1 {
        lemma_same_month(a.0, (a.1, a.2), (b.1, b.2));
    } else if b.1 < a.1 {
        lemma_same_month(a.0, (b.1, b.2), (a.1, a.2));
    }
}

/// The date `civil_of(n)` is valid, has day number `n`, and is the only such date.
pub proof fn lemma_civil_of(n: int, t: (int, int, int))
    requires
        valid_civil(t.0, t.1, t.2),
        civil_days(t.0, t.1, t.2) == n,
    ensures
        civil_of(n) == t,
{
    let c = civil_of(n);
    assert(valid_civil(c.0, c.1, c.2) && civil_days(c.0, c.1, c.2) == n);
    lemma_civil_days_injective(c, t);
}

// ---------------------------------------------------------------------------
// Arithmetic on day numbers
// ---------------------------------------------------------------------------

pub const DAY_BOUND: i128 = 100000000000000000000000;

/// Floor division for a positive divisor.
fn floor_div(a: i128, b: i128) -> (q: i128)
    requires
        b > 0,
        -DAY_BOUND <= a <= DAY_BOUND,
        b <= DAY_BOUND,
    ensures
        q == a / b,
        -DAY_BOUND <= q <= DAY_BOUND,
{
    if a >= 0 {
        let q = ((a as u128) / (b as u128)) as i128;
        proof {
            lemma_fundamental_div_mod(a as int, b as int);
            vstd::arithmetic::div_mod::lemma_div_pos_is_pos(a as int, b as int);
            vstd::arithmetic::div_mod::lemma_div_is_ordered_by_denominator(a as int, 1, b as int);
        }
        q
    } else {
        let na: u128 = (-(a + 1)) as u128;
        let q0: u128 = na / (b as u128);
        let r0: u128 = na % (b as u128);
        proof {
            lemma_fundamental_div_mod(na as int, b as int);
            vstd::arithmetic::div_mod::lemma_div_is_ordered_by_denominator(na as int, 1, b as int);
            assert(a == (-(q0 as int) - 1) * b + (b - r0 - 1)) by (nonlinear_arith)
                requires
                    na == b * (na as int / b as int) + (na as int % b as int),
                    q0 == na as int / b as int,
                    r0 == na as int % b as int,
                    na == -(a + 1),
            ;
            lemma_fundamental_div_mod_converse(a as int, b as int, -(q0 as int) - 1, b - r0 - 1);
        }
        -(q0 as i128) - 1
    }
}

fn is_leap_year(y: i128) -> (r: bool)
    requires
        -DAY_BOUND <= y <= DAY_BOUND,
    ensures
        r == is_leap(y as int),
{
    let a = y - floor_div(y, 4) * 4;
    let b = y - floor_div(y, 100) * 100;
    let c = y - floor_div(y, 400) * 400;
    proof {
        lemma_fundamental_div_mod(y as int, 4);
        lemma_fundamental_div_mod(y as int, 100);
        lemma_fundamental_div_mod(y as int, 400);
    }
    (a == 0 && b != 0) || c == 0
}

fn year_length(y: i128) -> (r: i128)
    requires
        -DAY_BOUND <= y <= DAY_BOUND,
    ensures
        r == year_len(y as int),
{
    if is_leap_year(y) {
        366
    } else {
        365
    }
}

fn month_length(y: i128, m: i128) -> (r: i128)
    requires
        -DAY_BOUND <= y <= DAY_BOUND,
    ensures
        r == month_days(y as int, m as int),
{
    if m == 1 || m == 3 || m == 5 || m == 7 || m == 8 || m == 10 || m == 12 {
        31
    } else if m == 4 || m == 6 || m == 9 || m == 11 {
        30
    } else if m == 2 {
        if is_leap_year(y) {
            29
        } else {
            28
        }
    } else {
        0
    }
}

/// `year_start(y)`, computed from its closed form.
fn year_start_of(y: i128) -> (r: i128)
    requires
        -1000000000000000000 <= y <= 1000000000000000000,
    ensures
        r == year_start(y as int),
{
    let leaps = floor_div(y + 3, 4) - floor_div(y + 99, 100) + floor_div(y + 399, 400);
    365 * (y - 1970) + leaps - 478
}

/// The day number of a date, counted from 1970-01-01.
pub fn days_from_civil(year: i64, month: i64, day: i64) -> (r: i64)
    requires
        valid_civil(year as int, month as int, day as int),
        -10000000000000000 <= year <= 10000000000000000,
    ensures
        r == civil_days(year as int, month as int, day as int),
{
    let y = year as i128;
    let mut before: i128 = 0;
    let mut k: i128 = 1;
    while k < month as i128
        invariant
            1 <= k <= month,
            1 <= month <= 12,
            -10000000000000000 <= y <= 10000000000000000,
            before == days_before_month(y as int, k as int),
            0 <= before <= 366,
        decreases month - k,
    {
        proof {
            lemma_days_before_month_bounds(y as int, k as int);
        }
        before = before + month_length(y, k);
        k = k + 1;
    }
    let total = year_start_of(y) + before + (day as i128) - 1;
    proof {
        assert(year_start(y as int) <= 400000000000000000000) by (nonlinear_arith)
            requires
                -10000000000000000 <= y <= 10000000000000000,
        ;
    }
    total as i64
}

/// The date with day number `days`, counted from 1970-01-01.
pub fn civil_from_days(days: i64) -> (r: (i64, i64, i64))
    ensures
        valid_civil(r.0 as int, r.1 as int, r.2 as int),
        civil_days(r.0 as int, r.1 as int, r.2 as int) == days,
        (r.0 as int, r.1 as int, r.2 as int) == civil_of(days as int),
{
    let n = days as i128;
    // Whole 400-year cycles since year 0, then single years, then months.
    let era = floor_div(n + 719528, 146097);
    let mut y: i128 = 400 * era;
    proof {
        lemma_year_start_era(era as int);
        lemma_fundamental_div_mod(n + 719528, 146097);
        lemma_year_start_era(era + 1);
        assert(400 * (era + 1) == 400 * era + 400);
    }
    let mut rest: i128 = n - year_start_of(y);
    let mut length: i128 = year_length(y);
    while rest >= length
        invariant
            400 * era <= y <= 400 * era + 400,
            -1000000000000000 <= era <= 1000000000000000,
            length == year_len(y as int),
            rest == n - year_start(y as int),
            rest >= 0,
            n < year_start(400 * era + 400),
        decreases 400 * era + 400 - y,
    {
        proof {
            lemma_year_start_step(y as int);
            if y == 400 * era + 400 {
                assert(false);
            }
        }
        rest = rest - length;
        y = y + 1;
        length = year_length(y);
    }
    let mut m: i128 = 1;
    proof {
        lemma_days_before_month_bounds(y as int, 12);
        reveal_with_fuel(days_before_month, 13);
    }
    while rest >= month_length(y, m)
        invariant
            1 <= m <= 12,
            -1000000000000000000 <= y <= 1000000000000000000,
            0 <= rest,
            rest + days_before_month(y as int, m as int) < year_len(y as int),
            n == year_start(y as int) + days_before_month(y as int, m as int) + rest,
        decreases 12 - m,
    {
        proof {
            lemma_days_before_month_bounds(y as int, m as int);
            if m == 12 {
                reveal_with_fuel(days_before_month, 13);
                assert(days_before_month(y as int, 12) + month_days(y as int, 12) == year_len(
                    y as int,
                ));
            }
        }
        rest = rest - month_length(y, m);
        m = m + 1;
    }
    proof {
        lemma_days_before_month_bounds(y as int, m as int);
        assert(-30000000000000000 <= y <= 30000000000000000) by {
            lemma_year_start_increasing(y as int, y + 1);
        }
    }
    let result = (y as i64, m as i64, (rest + 1) as i64);
    proof {
        lemma_civil_of(days as int, (y as int, m as int, rest + 1));
    }
    result
}

// ---------------------------------------------------------------------------
// Date text
// ---------------------------------------------------------------------------

/// `YYYY-MM-DD` with the fields zero-padded as `{:04}-{:02}-{:02}` renders them.
pub open spec fn date_text(y: int, m: int, d: int) -> Seq<char> {
    padded_signed(y, 4) + seq!['-'] + padded_decimal(m as nat, 2) + seq!['-'] + padded_decimal(
        d as nat,
        2,
    )
}

/// The shape `DDDD-DD-DD` of ASCII digits.
pub open spec fn has_date_shape(s: Seq<char>) -> bool {
    &&& s.len() == 10
    &&& s[4] == '-'
    &&& s[7] == '-'
    &&& forall|i: int| 0 <= i < 10 && i != 4 && i != 7 ==> is_ascii_digit_char(#[trigger] s[i])
}

pub open spec fn date_fields(s: Seq<char>) -> (int, int, int) {
    (
        digits_value(s.subrange(0, 4)) as int,
        digits_value(s.subrange(5, 7)) as int,
        digits_value(s.subrange(8, 10)) as int,
    )
}

/// A valid `YYYY-MM-DD` calendar date.
pub open spec fn is_valid_date_text(s: Seq<char>) -> bool {
    has_date_shape(s) && valid_civil(date_fields(s).0, date_fields(s).1, date_fields(s).2)
}

/// The day number of the date `s`, counted from 1970-01-01.
pub open spec fn date_day_number(s: Seq<char>) -> int {
    civil_days(date_fields(s).0, date_fields(s).1, date_fields(s).2)
}

/// The text `count` days after the date `s`.
pub open spec fn add_days_text(s: Seq<char>, count: int) -> Seq<char> {
    let f = date_fields(s);
    let t = civil_of(civil_days(f.0, f.1, f.2) + count);
    date_text(t.0, t.1, t.2)
}

pub open spec fn invalid_date_message(s: Seq<char>) -> Seq<char> {
    "invalid date `"@ + s + "`; use YYYY-MM-DD"@
}

fn invalid_date(value: &str) -> (e: NtError)
    ensures
        e is Message && e->Message_0@ == invalid_date_message(value@),
{
    let mut message = owned("invalid date `");
    append_str(&mut message, value);
    append_str(&mut message, "`; use YYYY-MM-DD");
    proof {
        reveal_strlit("invalid date `");
        reveal_strlit("`; use YYYY-MM-DD");
    }
    NtError::Message(message)
}

fn date_shape(chars: &Vec<char>) -> (r: bool)
    ensures
        r == has_date_shape(chars@),
{
    if chars.len() != 10 || chars[4] != '-' || chars[7] != '-' {
        return false;
    }
    let mut i: usize = 0;
    while i < 10
        invariant
            chars@.len() == 10,
            i <= 10,
            forall|k: int| 0 <= k < i && k != 4 && k != 7 ==> is_ascii_digit_char(#[trigger] chars@[k]),
        decreases 10 - i,
    {
        if i != 4 && i != 7 && !crate::text::is_ascii_digit(chars[i]) {
            return false;
        }
        i += 1;
    }
    true
}

/// Parses a run of digits known to be short.
fn small_number(chars: &Vec<char>, start: usize, end: usize) -> (r: i64)
    requires
        start <= end <= chars@.len(),
        end - start <= 4,
        all_digits(chars@.subrange(start as int, end as int)),
    ensures
        r == digits_value(chars@.subrange(start as int, end as int)),
        0 <= r <= 9999,
{
    let part = slice_chars(chars.as_slice(), start, end);
    match parse_digits(part.as_slice(), 9999) {
        Some(v) => v as i64,
        None => {
            proof {
                lemma_digits_bound(part@);
            }
            0
        },
    }
}

proof fn lemma_digits_bound(s: Seq<char>)
    requires
        all_digits(s),
        s.len() <= 4,
    ensures
        digits_value(s) <= 9999,
    decreases s.len(),
{
    if s.len() > 0 {
        let p = s.drop_last();
        assert(all_digits(p)) by {
            assert forall|i: int| 0 <= i < p.len() implies is_ascii_digit_char(#[trigger] p[i]) by {
                assert(p[i] == s[i]);
            }
        }
        lemma_digits_bound(p);
        assert(is_ascii_digit_char(s[s.len() - 1]));
        if p.len() < 4 {
            lemma_digits_bound_short(p);
        }
    }
}

proof fn lemma_digits_bound_short(s: Seq<char>)
    requires
        all_digits(s),
        s.len() <= 3,
    ensures
        digits_value(s) <= 999,
    decreases s.len(),
{
    if s.len() > 0 {
        let p = s.drop_last();
        assert(all_digits(p)) by {
            assert forall|i: int| 0 <= i < p.len() implies is_ascii_digit_char(#[trigger] p[i]) by {
                assert(p[i] == s[i]);
            }
        }
        if p.len() > 0 {
            lemma_digits_bound_short2(p);
        }
        assert(is_ascii_digit_char(s[s.len() - 1]));
    }
}

proof fn lemma_digits_bound_short2(s: Seq<char>)
    requires
        all_digits(s),
        1 <= s.len() <= 2,
    ensures
        digits_value(s) <= 99,
    decreases s.len(),
{
    let p = s.drop_last();
    assert(is_ascii_digit_char(s[s.len() - 1]));
    assert(digits_value(s) == digits_value(p) * 10 + crate::text::digit_value(s.last()));
    if p.len() > 0 {
        assert(is_ascii_digit_char(p[0]) && p[0] == s[0]);
        assert(p.drop_last().len() == 0);
        assert(digits_value(p) == digits_value(p.drop_last()) * 10 + crate::text::digit_value(
            p.last(),
        ));
    }
}

proof fn lemma_shape_subranges(s: Seq<char>)
    requires
        has_date_shape(s),
    ensures
        all_digits(s.subrange(0, 4)),
        all_digits(s.subrange(5, 7)),
        all_digits(s.subrange(8, 10)),
{
    assert forall|i: int| 0 <= i < 4 implies is_ascii_digit_char(#[trigger] s.subrange(0, 4)[i]) by {
        assert(s.subrange(0, 4)[i] == s[i]);
    }
    assert forall|i: int| 0 <= i < 2 implies is_ascii_digit_char(#[trigger] s.subrange(5, 7)[i]) by {
        assert(s.subrange(5, 7)[i] == s[i + 5]);
    }
    assert forall|i: int| 0 <= i < 2 implies is_ascii_digit_char(#[trigger] s.subrange(8, 10)[i]) by {
        assert(s.subrange(8, 10)[i] == s[i + 8]);
    }
}

/// The year, month and day of a date text that has the `DDDD-DD-DD` shape.
fn read_date_fields(chars: &Vec<char>) -> (r: (i64, i64, i64))
    requires
        has_date_shape(chars@),
    ensures
        r.0 == date_fields(chars@).0,
        r.1 == date_fields(chars@).1,
        r.2 == date_fields(chars@).2,
        0 <= r.0 <= 9999,
        0 <= r.1 <= 99,
        0 <= r.2 <= 99,
{
    proof {
        lemma_shape_subranges(chars@);
        lemma_digits_bound_short2(chars@.subrange(5, 7));
        lemma_digits_bound_short2(chars@.subrange(8, 10));
    }
    let year = small_number(chars, 0, 4);
    let month = small_number(chars, 5, 7);
    let day = small_number(chars, 8, 10);
    (year, month, day)
}

/// The number of days in a month, or 0 for a month number outside 1..=12.
pub fn days_in_month(year: u32, month: u32) -> (r: u32)
    ensures
        r == month_days(year as int, month as int),
{
    month_length(year as i128, month as i128) as u32
}

/// Checks that a text is a valid `YYYY-MM-DD` calendar date.
pub fn validate_date(value: &str) -> (r: Result<()>)
    ensures
        r is Ok <==> is_valid_date_text(value@),
        r matches Err(e) ==> e is Message && e->Message_0@ == invalid_date_message(value@),
{
    let chars = chars_of(value);
    if !date_shape(&chars) {
        return Err(invalid_date(value));
    }
    let (year, month, day) = read_date_fields(&chars);
    let max_day = days_in_month(year as u32, month as u32);
    if day == 0 || day > max_day as i64 {
        return Err(invalid_date(value));
    }
    Ok(())
}

/// The date `count` days after `day` (before it for a negative count).
pub fn add_days(day: &str, count: i64) -> (r: Result<String>)
    requires
        is_valid_date_text(day@) ==> i64::MIN <= date_day_number(day@) + count <= i64::MAX
            - 719468,
    ensures
        r is Ok <==> is_valid_date_text(day@),
        r matches Ok(text) ==> text@ == add_days_text(day@, count as int),
        r matches Err(e) ==> e is Message && e->Message_0@ == invalid_date_message(day@),
{
    validate_date(day)?;
    let chars = chars_of(day);
    let (year, month, date) = read_date_fields(&chars);
    proof {
        lemma_days_of_four_digit_years(year as int, month as int, date as int);
    }
    let days = days_from_civil(year, month, date) + count;
    let (y, m, d) = civil_from_days(days);
    Ok(format_date(y, m, d))
}

proof fn lemma_days_of_four_digit_years(y: int, m: int, d: int)
    requires
        0 <= y <= 9999,
        valid_civil(y, m, d),
    ensures
        -719528 <= civil_days(y, m, d) <= 2932897 + 366,
{
    lemma_year_start_era(0);
    lemma_year_start_era(25);
    lemma_civil_within_year(y, m, d);
    if y > 0 {
        lemma_year_start_increasing(0, y);
    }
    if y < 10000 {
        lemma_year_start_increasing(y, 10000);
    }
    assert(400 * 25 == 10000);
}

fn format_date(y: i64, m: i64, d: i64) -> (out: String)
    requires
        1 <= m <= 12,
        1 <= d <= 31,
    ensures
        out@ == date_text(y as int, m as int, d as int),
{
    let mut out = String::new();
    push_padded_signed(&mut out, y, 4);
    push_char(&mut out, '-');
    push_padded(&mut out, m as u64, 2);
    push_char(&mut out, '-');
    push_padded(&mut out, d as u64, 2);
    out
}

// ---------------------------------------------------------------------------
// Timestamps
// ---------------------------------------------------------------------------

/// A UTC second in the three forms the notes use: the compact id
/// `NTyyyymmddThhmmss`, ISO 8601 `yyyy-mm-ddThh:mm:ssZ`, and the day.
#[derive(Clone, Debug, PartialEq, Eq)]
pub struct Timestamp {
    pub id: String,
    pub iso: String,
    pub day: String,
}

/// The fields of the UTC time `seconds` after the epoch.
pub open spec fn time_fields(seconds: int) -> (int, int, int, int, int, int) {
    let days = seconds / 86400;
    let second_of_day = seconds % 86400;
    let date = civil_of(days);
    (date.0, date.1, date.2, second_of_day / 3600, (second_of_day % 3600) / 60, second_of_day % 60)
}

pub open spec fn iso_text(f: (int, int, int, int, int, int)) -> Seq<char> {
    date_text(f.0, f.1, f.2) + seq!['T'] + padded_decimal(f.3 as nat, 2) + seq![':']
        + padded_decimal(f.4 as nat, 2) + seq![':'] + padded_decimal(f.5 as nat, 2) + seq!['Z']
}

pub open spec fn id_text(f: (int, int, int, int, int, int)) -> Seq<char> {
    seq!['N', 'T'] + padded_signed(f.0, 4) + padded_decimal(f.1 as nat, 2) + padded_decimal(
        f.2 as nat,
        2,
    ) + seq!['T'] + padded_decimal(f.3 as nat, 2) + padded_decimal(f.4 as nat, 2)
        + padded_decimal(f.5 as nat, 2)
}

/// The timestamp of a time given by its fields.
pub open spec fn timestamp_of(t: Timestamp, f: (int, int, int, int, int, int)) -> bool {
    &&& t.id@ == id_text(f)
    &&& t.iso@ == iso_text(f)
    &&& t.day@ == date_text(f.0, f.1, f.2)
}

/// The timestamp of the UTC second `seconds` after the epoch.
pub fn timestamp_from_unix_seconds(seconds: i64) -> (t: Timestamp)
    ensures
        timestamp_of(t, time_fields(seconds as int)),
{
    let s = seconds as i128;
    let days = floor_div(s, 86400);
    proof {
        lemma_fundamental_div_mod(s as int, 86400);
        vstd::arithmetic::div_mod::lemma_mod_bound(s as int, 86400);
    }
    let second_of_day = (s - days * 86400) as u64;
    let (year, month, day) = civil_from_days(days as i64);
    let hour = second_of_day / 3600;
    let minute = (second_of_day % 3600) / 60;
    let second = second_of_day % 60;
    let mut id = owned("NT");
    push_padded_signed(&mut id, year, 4);
    push_padded(&mut id, month as u64, 2);
    push_padded(&mut id, day as u64, 2);
    push_char(&mut id, 'T');
    push_padded(&mut id, hour, 2);
    push_padded(&mut id, minute, 2);
    push_padded(&mut id, second, 2);
    let day_text = format_date(year, month, day);
    let mut iso = format_date(year, month, day);
    push_char(&mut iso, 'T');
    push_padded(&mut iso, hour, 2);
    push_char(&mut iso, ':');
    push_padded(&mut iso, minute, 2);
    push_char(&mut iso, ':');
    push_padded(&mut iso, second, 2);
    push_char(&mut iso, 'Z');
    proof {
        reveal_strlit("NT");
        let f = time_fields(seconds as int);
        assert(f.0 == year && f.1 == month && f.2 == day);
        assert(f.3 == hour && f.4 == minute && f.5 == second);
        assert(id@ =~= id_text(f));
        assert(iso@ =~= iso_text(f));
    }
    Timestamp { id, iso, day: day_text }
}

#[verifier::external_type_specification]
#[verifier::external_body]
pub struct ExSystemTime(std::time::SystemTime);

/// Calls `SystemTime::now`. The clock's value is not stated.
#[verifier::external_body]
pub(crate) fn system_now() -> std::time::SystemTime {
    std::time::SystemTime::now()
}

/// What `SystemTime::duration_since(UNIX_EPOCH)` gives for a time, with its
/// error mapped to `None`.
pub uninterp spec fn epoch_offset(time: std::time::SystemTime) -> Option<std::time::Duration>;

/// What `Duration::as_secs` gives for a duration.
pub uninterp spec fn duration_seconds(duration: std::time::Duration) -> u64;

/// Calls `SystemTime::duration_since(UNIX_EPOCH)`; a time before the epoch
/// gives `None`. The result is named by `epoch_offset` of the time.
#[verifier::external_body]
pub(crate) fn since_epoch(time: std::time::SystemTime) -> (r: Option<std::time::Duration>)
    ensures
        r == epoch_offset(time),
{
    time.duration_since(std::time::UNIX_EPOCH).ok()
}

/// Calls `Duration::as_secs`; the result is named by `duration_seconds`.
#[verifier::external_body]
pub(crate) fn whole_seconds(duration: std::time::Duration) -> (r: u64)
    ensures
        r == duration_seconds(duration),
{
    duration.as_secs()
}

/// What `Duration::subsec_nanos` gives for a duration.
pub uninterp spec fn duration_nanos(duration: std::time::Duration) -> u32;

/// Calls `Duration::subsec_nanos`: the fractional part of a duration in
/// nanoseconds, named by `duration_nanos`, which std documents as always
/// less than one billion.
#[verifier::external_body]
pub(crate) fn fraction_nanos(duration: std::time::Duration) -> (r: u32)
    ensures
        r == duration_nanos(duration),
        r < 1_000_000_000,
{
    duration.subsec_nanos()
}

/// The whole seconds from the epoch to a time, cast to `i64` as `as` casts;
/// 0 for a time before the epoch.
pub open spec fn epoch_seconds(time: std::time::SystemTime) -> i64 {
    match epoch_offset(time) {
        Some(duration) => duration_seconds(duration) as i64,
        None => 0,
    }
}

/// Seconds since the epoch, cast to `i64` as `as` does; 0 before the epoch.
fn seconds_since_epoch(time: std::time::SystemTime) -> (r: i64)
    ensures
        r == epoch_seconds(time),
{
    match since_epoch(time) {
        Some(duration) => whole_seconds(duration) as i64,
        None => 0,
    }
}

/// The timestamp of a system time, to the second: that of its whole seconds
/// since the epoch, or of the epoch itself for a time before it.
pub fn timestamp_from_system_time(time: std::time::SystemTime) -> (t: Timestamp)
    ensures
        timestamp_of(t, time_fields(epoch_seconds(time) as int)),
{
    let seconds = seconds_since_epoch(time);
    timestamp_from_unix_seconds(seconds)
}

/// The timestamp of the current second.
pub fn timestamp_now() -> (t: Timestamp)
    ensures
        exists|seconds: i64| timestamp_of(t, time_fields(seconds as int)),
{
    timestamp_from_system_time(system_now())
}

} // verus!

verus! {

/// The fields read back from a date text are the fields it was written from,
/// when the text has the `DDDD-DD-DD` shape.
pub proof fn lemma_date_text_fields(t: (int, int, int))
    requires
        1 <= t.1 <= 12,
        1 <= t.2 <= 31,
        has_date_shape(date_text(t.0, t.1, t.2)),
    ensures
        date_fields(date_text(t.0, t.1, t.2)) == t,
        0 <= t.0 <= 9999,
{
    let s = date_text(t.0, t.1, t.2);
    crate::text::lemma_digits_value_padded(t.1 as nat, 2);
    crate::text::lemma_digits_value_padded(t.2 as nat, 2);
    let ms = padded_decimal(t.1 as nat, 2);
    let ds = padded_decimal(t.2 as nat, 2);
    if t.0 < 0 {
        let ys = padded_decimal((-t.0) as nat, pad_count_one());
        crate::text::lemma_digits_value_padded((-t.0) as nat, pad_count_one());
        assert(s[0] == '-');
        assert(false);
    }
    let ys = padded_decimal(t.0 as nat, 4);
    crate::text::lemma_digits_value_padded(t.0 as nat, 4);
    assert(s == ys + seq!['-'] + ms + seq!['-'] + ds);
    assert(ys.len() == 4 && ms.len() == 2 && ds.len() == 2);
    assert(s.subrange(0, 4) =~= ys);
    assert(s.subrange(5, 7) =~= ms);
    assert(s.subrange(8, 10) =~= ds);
    crate::text::lemma_decimal_digits(t.0 as nat);
    assert(decimal(t.0 as nat).len() <= 4);
    assert(t.0 <= 9999) by {
        lemma_small_decimal(t.0 as nat);
    }
}

spec fn pad_count_one() -> nat {
    crate::text::pad_count(1, 4)
}

proof fn lemma_small_decimal(v: nat)
    requires
        decimal(v).len() <= 4,
    ensures
        v <= 9999,
    decreases v,
{
    if v >= 10 {
        lemma_small_decimal_len(v / 10, 3);
    }
}

proof fn lemma_small_decimal_len(v: nat, k: nat)
    requires
        decimal(v).len() <= k,
        k <= 3,
    ensures
        v < (if k == 0 {
            1nat
        } else if k == 1 {
            10nat
        } else if k == 2 {
            100nat
        } else {
            1000nat
        }),
    decreases v,
{
    crate::text::lemma_decimal_digits(v);
    if v >= 10 {
        lemma_small_decimal_len(v / 10, (k - 1) as nat);
    }
}

/// Adding zero days gives back the same valid date text.
pub proof fn law_add_days_zero(s: Seq<char>)
    requires
        is_valid_date_text(s),
    ensures
        add_days_text(s, 0) == s,
{
    let f = date_fields(s);
    lemma_civil_of(civil_days(f.0, f.1, f.2), f);
    lemma_shape_subranges(s);
    crate::text::lemma_padded_of_digits(s.subrange(0, 4));
    crate::text::lemma_padded_of_digits(s.subrange(5, 7));
    crate::text::lemma_padded_of_digits(s.subrange(8, 10));
    assert(date_text(f.0, f.1, f.2) =~= s);
}

/// Adding `a` days and then `b` days is adding `a + b` days, as long as the
/// intermediate date is a valid `YYYY-MM-DD` text.
pub proof fn law_add_days_compose(s: Seq<char>, a: int, b: int)
    requires
        is_valid_date_text(s),
        is_valid_date_text(add_days_text(s, a)),
    ensures
        add_days_text(add_days_text(s, a), b) == add_days_text(s, a + b),
{
    let f = date_fields(s);
    let n = civil_days(f.0, f.1, f.2) + a;
    let t = civil_of(n);
    assert(valid_civil(t.0, t.1, t.2) && civil_days(t.0, t.1, t.2) == n) by {
        let cand = choose|c: (int, int, int)| valid_civil(c.0, c.1, c.2) && civil_days(c.0, c.1, c.2) == n;
        assert(exists|c: (int, int, int)| valid_civil(c.0, c.1, c.2) && civil_days(c.0, c.1, c.2) == n) by {
            lemma_civil_of_exists(n);
        }
    }
    lemma_date_text_fields(t);
    assert(n + b == civil_days(f.0, f.1, f.2) + (a + b));
}

/// Going `a` days from a date and then `a` days back gives the date again,
/// as long as the date in between is a valid `YYYY-MM-DD` text.
pub proof fn law_add_days_inverse(s: Seq<char>, a: int)
    requires
        is_valid_date_text(s),
        is_valid_date_text(add_days_text(s, a)),
    ensures
        add_days_text(add_days_text(s, a), -a) == s,
{
    law_add_days_compose(s, a, -a);
    law_add_days_zero(s);
    assert(a + -a == 0);
}

/// For a valid date and a count of days that lands on a valid date, both
/// calls of a round trip stay within what `add_days` accepts, the date
/// reached is that many days on, and going back gives the date again.
pub proof fn law_add_days_round_trip(s: Seq<char>, n: int)
    requires
        is_valid_date_text(s),
        is_valid_date_text(add_days_text(s, n)),
    ensures
        i64::MIN <= date_day_number(s) + n <= i64::MAX - 719468,
        date_day_number(add_days_text(s, n)) == date_day_number(s) + n,
        i64::MIN <= date_day_number(add_days_text(s, n)) - n <= i64::MAX - 719468,
        add_days_text(add_days_text(s, n), -n) == s,
{
    let f = date_fields(s);
    let e = add_days_text(s, n);
    let d = civil_days(f.0, f.1, f.2) + n;
    let t = civil_of(d);
    lemma_civil_of_exists(d);
    assert(valid_civil(t.0, t.1, t.2) && civil_days(t.0, t.1, t.2) == d);
    lemma_date_text_fields(t);
    assert(date_fields(e) == t);
    lemma_shape_subranges(s);
    let g = date_fields(s);
    assert(0 <= g.0 <= 9999) by {
        lemma_digits_bound(s.subrange(0, 4));
    }
    lemma_days_of_four_digit_years(g.0, g.1, g.2);
    lemma_days_of_four_digit_years(t.0, t.1, t.2);
    law_add_days_inverse(s, n);
}

/// Every day number is the day number of some valid date.
pub proof fn lemma_civil_of_exists(n: int)
    ensures
        exists|c: (int, int, int)| valid_civil(c.0, c.1, c.2) && civil_days(c.0, c.1, c.2) == n,
{
    let y0 = lemma_era_of(n);
    let y = lemma_find_year(n, y0, y0 + 400);
    let m = lemma_find_month(n, y, 1);
    let d = n - year_start(y) - days_before_month(y, m) + 1;
    let c = (y, m, d);
    assert(valid_civil(c.0, c.1, c.2) && civil_days(c.0, c.1, c.2) == n);
}

proof fn lemma_era_of(n: int) -> (y0: int)
    ensures
        year_start(y0) <= n < year_start(y0 + 400),
{
    let e = (n + 719528) / 146097;
    lemma_year_start_era(e);
    lemma_year_start_era(e + 1);
    lemma_fundamental_div_mod(n + 719528, 146097);
    vstd::arithmetic::div_mod::lemma_mod_bound(n + 719528, 146097);
    assert(400 * (e + 1) == 400 * e + 400);
    assert(year_start(0) == -719528);
    400 * e
}

proof fn lemma_find_year(n: int, lo: int, hi: int) -> (y: int)
    requires
        lo < hi,
        year_start(lo) <= n < year_start(hi),
    ensures
        year_start(y) <= n < year_start(y) + year_len(y),
    decreases hi - lo,
{
    lemma_year_start_step(lo);
    if n < year_start(lo) + year_len(lo) {
        lo
    } else {
        if lo + 1 == hi {
            assert(false);
        }
        lemma_find_year(n, lo + 1, hi)
    }
}

proof fn lemma_find_month(n: int, y: int, m: int) -> (r: int)
    requires
        1 <= m <= 12,
        year_start(y) + days_before_month(y, m) <= n < year_start(y) + year_len(y),
    ensures
        1 <= r <= 12,
        year_start(y) + days_before_month(y, r) <= n < year_start(y) + days_before_month(y, r)
            + month_days(y, r),
    decreases 12 - m,
{
    lemma_days_before_month_bounds(y, m);
    if n < year_start(y) + days_before_month(y, m) + month_days(y, m) {
        m
    } else {
        if m == 12 {
            reveal_with_fuel(days_before_month, 13);
            assert(false);
        }
        lemma_find_month(n, y, m + 1)
    }
}

} // verus!

verus! {

/// The ISO 8601 UTC second `yyyy-mm-ddThh:mm:ssZ` of a valid date and time of day.
pub open spec fn is_iso_timestamp(s: Seq<char>) -> bool {
    &&& s.len() == 20
    &&& is_valid_date_text(s.subrange(0, 10))
    &&& s[10] == 'T'
    &&& s[13] == ':'
    &&& s[16] == ':'
    &&& s[19] == 'Z'
    &&& all_digits(s.subrange(11, 13))
    &&& all_digits(s.subrange(14, 16))
    &&& all_digits(s.subrange(17, 19))
    &&& digits_value(s.subrange(11, 13)) < 24
    &&& digits_value(s.subrange(14, 16)) < 60
    &&& digits_value(s.subrange(17, 19)) < 60
}

/// The note id `NTyyyymmddThhmmss` of an ISO timestamp text.
pub open spec fn id_of_iso(s: Seq<char>) -> Seq<char> {
    seq!['N', 'T'] + s.subrange(0, 4) + s.subrange(5, 7) + s.subrange(8, 10) + seq!['T']
        + s.subrange(11, 13) + s.subrange(14, 16) + s.subrange(17, 19)
}

fn invalid_timestamp(value: &str) -> (e: NtError)
    ensures
        e is InvalidValue,
        e->value@ == value@,
        e->field@ == seq!['t', 'i', 'm', 'e', 's', 't', 'a', 'm', 'p'],
{
    proof {
        reveal_strlit("timestamp");
    }
    NtError::InvalidValue { field: "timestamp", value: owned(value) }
}

fn push_slice(out: &mut String, chars: &Vec<char>, lo: usize, hi: usize)
    requires
        lo <= hi <= chars@.len(),
    ensures
        final(out)@ == old(out)@ + chars@.subrange(lo as int, hi as int),
{
    let part = slice_chars(chars.as_slice(), lo, hi);
    crate::text::append_chars(out, part.as_slice());
}

impl Timestamp {
    /// The ISO 8601 text of the timestamp.
    pub fn as_str(&self) -> (r: &str)
        ensures
            r@ == self.iso@,
    {
        self.iso.as_str()
    }

    /// Reads an ISO 8601 UTC second `yyyy-mm-ddThh:mm:ssZ` of a valid date.
    pub fn parse(value: &str) -> (r: Result<Timestamp>)
        ensures
            r is Ok <==> is_iso_timestamp(value@),
            r matches Ok(t) ==> t.iso@ == value@ && t.day@ == value@.subrange(0, 10) && t.id@
                == id_of_iso(value@),
            r matches Err(e) ==> e is InvalidValue && e->value@ == value@ && e->field@ == seq![
                't',
                'i',
                'm',
                'e',
                's',
                't',
                'a',
                'm',
                'p',
            ],
    {
        let chars = chars_of(value);
        if chars.len() != 20 || chars[10] != 'T' || chars[13] != ':' || chars[16] != ':'
            || chars[19] != 'Z' {
            return Err(invalid_timestamp(value));
        }
        let date = slice_chars(chars.as_slice(), 0, 10);
        let day = string_of(date.as_slice());
        if validate_date(day.as_str()).is_err() {
            return Err(invalid_timestamp(value));
        }
        let h = slice_chars(chars.as_slice(), 11, 13);
        let m = slice_chars(chars.as_slice(), 14, 16);
        let s = slice_chars(chars.as_slice(), 17, 19);
        if !chars_all_digits(h.as_slice()) || !chars_all_digits(m.as_slice())
            || !chars_all_digits(s.as_slice()) {
            return Err(invalid_timestamp(value));
        }
        let hour = small_number(&chars, 11, 13);
        let minute = small_number(&chars, 14, 16);
        let second = small_number(&chars, 17, 19);
        if hour >= 24 || minute >= 60 || second >= 60 {
            return Err(invalid_timestamp(value));
        }
        let mut id = String::new();
        push_char(&mut id, 'N');
        push_char(&mut id, 'T');
        push_slice(&mut id, &chars, 0, 4);
        push_slice(&mut id, &chars, 5, 7);
        push_slice(&mut id, &chars, 8, 10);
        push_char(&mut id, 'T');
        push_slice(&mut id, &chars, 11, 13);
        push_slice(&mut id, &chars, 14, 16);
        push_slice(&mut id, &chars, 17, 19);
        proof {
            assert(id@ =~= id_of_iso(value@));
        }
        Ok(Timestamp { id, iso: owned(value), day })
    }
}

impl core::str::FromStr for Timestamp {
    type Err = NtError;

    fn from_str(value: &str) -> (r: Result<Timestamp>)
        ensures
            r is Ok <==> is_iso_timestamp(value@),
            r matches Ok(t) ==> t.iso@ == value@ && t.day@ == value@.subrange(0, 10) && t.id@
                == id_of_iso(value@),
            r matches Err(e) ==> e is InvalidValue && e->value@ == value@ && e->field@ == seq![
                't',
                'i',
                'm',
                'e',
                's',
                't',
                'a',
                'm',
                'p',
            ],
    {
        Timestamp::parse(value)
    }
}

} // verus!

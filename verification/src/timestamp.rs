//! The timestamp field of an access-log line, and the calendar arithmetic
//! that turns its digits into seconds since the Unix epoch.
//!
//! A well-formed field reads `[DD/Mon/YYYY:HH:MM:SS +ZZZZ]`: a zero-padded
//! two-digit day, a three-letter month abbreviation, a four-digit year,
//! zero-padded hour, minute and second, and a signed four-digit UTC offset.
//! The whole field, brackets included, is 28 bytes long.

use vstd::arithmetic::div_mod::{lemma_div_is_ordered, lemma_div_is_ordered_by_denominator,
    lemma_div_pos_is_pos};
use vstd::prelude::*;

verus! {


/// ASCII bytes the pattern is written in.
pub const BYTE_LBRACKET: u8 = 91;

pub const BYTE_RBRACKET: u8 = 93;

pub const BYTE_SLASH: u8 = 47;

pub const BYTE_COLON: u8 = 58;

pub const BYTE_SPACE: u8 = 32;

pub const BYTE_PLUS: u8 = 43;

pub const BYTE_MINUS: u8 = 45;

/// An absolute point in time: whole seconds since 1970-01-01T00:00:00 UTC.
#[derive(Clone, Copy, Debug, PartialEq, Eq, Structural)]
pub struct LogTimestamp {
    pub epoch_seconds: i64,
}

impl View for LogTimestamp {
    type V = int;

    open spec fn view(&self) -> int {
        self.epoch_seconds as int
    }
}

/// Every instant a well-formed field can denote lies in this range: the year
/// has four digits and the offset magnitude is bounded.
pub open spec fn epoch_in_range(e: int) -> bool {
    -62_200_000_000 <= e <= 253_500_000_000
}

pub open spec fn is_ascii_digit(b: u8) -> bool {
    48 <= b <= 57
}

pub open spec fn digit_value(b: u8) -> int {
    b - 48
}

/// A byte the pattern accepts in the month position: an ASCII letter, digit
/// or underscore.
pub open spec fn is_word_byte(b: u8) -> bool {
    ||| 97 <= b <= 122
    ||| 65 <= b <= 90
    ||| 48 <= b <= 57
    ||| b == 95
}

pub open spec fn ascii_lower(b: u8) -> u8 {
    if 65 <= b <= 90 {
        (b + 32) as u8
    } else {
        b
    }
}

/// The month a three-letter abbreviation denotes, compared without regard
/// to case; `None` when the letters name no month.
pub open spec fn month_number(b0: u8, b1: u8, b2: u8) -> Option<int> {
    let l0 = ascii_lower(b0);
    let l1 = ascii_lower(b1);
    let l2 = ascii_lower(b2);
    if l0 == 106 && l1 == 97 && l2 == 110 {
        Some(1int)
    } else if l0 == 102 && l1 == 101 && l2 == 98 {
        Some(2int)
    } else if l0 == 109 && l1 == 97 && l2 == 114 {
        Some(3int)
    } else if l0 == 97 && l1 == 112 && l2 == 114 {
        Some(4int)
    } else if l0 == 109 && l1 == 97 && l2 == 121 {
        Some(5int)
    } else if l0 == 106 && l1 == 117 && l2 == 110 {
        Some(6int)
    } else if l0 == 106 && l1 == 117 && l2 == 108 {
        Some(7int)
    } else if l0 == 97 && l1 == 117 && l2 == 103 {
        Some(8int)
    } else if l0 == 115 && l1 == 101 && l2 == 112 {
        Some(9int)
    } else if l0 == 111 && l1 == 99 && l2 == 116 {
        Some(10int)
    } else if l0 == 110 && l1 == 111 && l2 == 118 {
        Some(11int)
    } else if l0 == 100 && l1 == 101 && l2 == 99 {
        Some(12int)
    } else {
        None
    }
}

pub open spec fn is_leap_year(y: int) -> bool {
    y % 4 == 0 && (y % 100 != 0 || y % 400 == 0)
}

/// How many leap years lie in `[0, y)`. Year 0 itself is a leap year.
pub open spec fn leap_years_before(y: int) -> int {
    if y <= 0 {
        0
    } else {
        1 + (y - 1) / 4 - (y - 1) / 100 + (y - 1) / 400
    }
}

pub open spec fn days_in_month(y: int, m: int) -> int {
    if m == 2 {
        if is_leap_year(y) {
            29
        } else {
            28
        }
    } else if m == 4 || m == 6 || m == 9 || m == 11 {
        30
    } else {
        31
    }
}

/// Days from the first of the year to the first of month `m`.
pub open spec fn days_before_month(y: int, m: int) -> int {
    let plain: int = if m == 1 {
        0
    } else if m == 2 {
        31
    } else if m == 3 {
        59
    } else if m == 4 {
        90
    } else if m == 5 {
        120
    } else if m == 6 {
        151
    } else if m == 7 {
        181
    } else if m == 8 {
        212
    } else if m == 9 {
        243
    } else if m == 10 {
        273
    } else if m == 11 {
        304
    } else {
        334
    };
    if m > 2 && is_leap_year(y) {
        plain + 1
    } else {
        plain
    }
}

/// Days from 1970-01-01 to the civil date `y-m-d`; 1970-01-01 itself is
/// 719528 days after 0000-01-01.
pub open spec fn days_from_epoch(y: int, m: int, d: int) -> int {
    365 * y + leap_years_before(y) + days_before_month(y, m) + (d - 1) - 719528
}

/// Whether `y-m-d h:mi:s` is a valid calendar date and time of day.
pub open spec fn valid_civil(y: int, m: int, d: int, h: int, mi: int, s: int) -> bool {
    &&& 0 <= y <= 9999
    &&& 1 <= m <= 12
    &&& 1 <= d <= days_in_month(y, m)
    &&& 0 <= h <= 23
    &&& 0 <= mi <= 59
    &&& 0 <= s <= 59
}

/// The instant `y-m-d h:mi:s` at UTC offset `off` (in seconds), as seconds
/// since the Unix epoch.
pub open spec fn epoch_of(y: int, m: int, d: int, h: int, mi: int, s: int, off: int) -> int {
    days_from_epoch(y, m, d) * 86400 + h * 3600 + mi * 60 + s - off
}

proof fn lemma_div_step(x: int, d: int)
    requires
        x >= 1,
        d >= 1,
    ensures
        x / d == (x - 1) / d + if x % d == 0 {
            1int
        } else {
            0int
        },
{
    let q = x / d;
    let r = x % d;
    vstd::arithmetic::div_mod::lemma_fundamental_div_mod(x, d);
    vstd::arithmetic::div_mod::lemma_mod_division_less_than_divisor(x, d);
    vstd::arithmetic::mul::lemma_mul_is_commutative(d, q);
    if r == 0 {
        vstd::arithmetic::div_mod::lemma_div_pos_is_pos(x, d);
        vstd::arithmetic::mul::lemma_mul_is_distributive_sub_other_way(d, q, 1);
        assert(x - 1 == (q - 1) * d + (d - 1));
        vstd::arithmetic::div_mod::lemma_fundamental_div_mod_converse_div(x - 1, d, q - 1, d - 1);
    } else {
        assert(x - 1 == q * d + (r - 1));
        vstd::arithmetic::div_mod::lemma_fundamental_div_mod_converse_div(x - 1, d, q, r - 1);
    }
}

proof fn lemma_multiple_of_divisor(x: int, a: int, d: int)
    requires
        a >= 1,
        d >= 1,
        x % (a * d) == 0,
    ensures
        x % d == 0,
{
    let q = x / (a * d);
    vstd::arithmetic::mul::lemma_mul_strictly_positive(a, d);
    vstd::arithmetic::div_mod::lemma_fundamental_div_mod(x, a * d);
    assert(x == (a * d) * q);
    vstd::arithmetic::mul::lemma_mul_is_associative(a, d, q);
    vstd::arithmetic::mul::lemma_mul_is_commutative(d, q);
    vstd::arithmetic::mul::lemma_mul_is_associative(a, q, d);
    assert(x == (a * q) * d);
    vstd::arithmetic::div_mod::lemma_mod_multiples_basic(a * q, d);
}

/// The closed-form leap-year count steps by exactly one at each leap year:
/// it counts precisely the years `is_leap_year` accepts.
pub proof fn lemma_leap_years_before_step(y: int)
    requires
        y >= 0,
    ensures
        leap_years_before(y + 1) == leap_years_before(y) + if is_leap_year(y) {
            1int
        } else {
            0int
        },
{
    if y == 0 {
        assert(is_leap_year(0)) by {
            assert(0int % 4 == 0);
            assert(0int % 400 == 0);
        }
    } else {
        lemma_div_step(y, 4);
        lemma_div_step(y, 100);
        lemma_div_step(y, 400);
        if y % 400 == 0 {
            lemma_multiple_of_divisor(y, 4, 100);
            lemma_multiple_of_divisor(y, 100, 4);
        }
        if y % 100 == 0 {
            lemma_multiple_of_divisor(y, 25, 4);
        }
    }
}

/// Consecutive first-of-January days lie a year apart: 366 days across a
/// leap year, 365 otherwise.
pub proof fn lemma_year_length(y: int)
    requires
        y >= 0,
    ensures
        days_from_epoch(y + 1, 1, 1) - days_from_epoch(y, 1, 1) == if is_leap_year(y) {
            366int
        } else {
            365int
        },
{
    lemma_leap_years_before_step(y);
}

/// Consecutive first-of-month days lie exactly one month's days apart.
pub proof fn lemma_month_length(y: int, m: int)
    requires
        0 <= y,
        1 <= m <= 11,
    ensures
        days_from_epoch(y, m + 1, 1) - days_from_epoch(y, m, 1) == days_in_month(y, m),
{
}

proof fn lemma_leap_years_before_bounds(y: int)
    requires
        0 <= y <= 9999,
    ensures
        0 <= leap_years_before(y) <= 2549,
{
    if y > 0 {
        lemma_div_pos_is_pos(y - 1, 4);
        lemma_div_pos_is_pos(y - 1, 400);
        lemma_div_is_ordered_by_denominator(y - 1, 4, 100);
        lemma_div_is_ordered(y - 1, 9998, 4);
        lemma_div_is_ordered(y - 1, 9998, 400);
        assert(9998int / 4 == 2499);
        assert(9998int / 400 == 24);
    }
}

/// Every valid civil time with an offset below 100 hours in magnitude maps
/// into the library's epoch range.
pub proof fn lemma_epoch_of_in_range(y: int, m: int, d: int, h: int, mi: int, s: int, off: int)
    requires
        valid_civil(y, m, d, h, mi, s),
        -362340 <= off <= 362340,
    ensures
        epoch_in_range(epoch_of(y, m, d, h, mi, s, off)),
{
    lemma_leap_years_before_bounds(y);
    assert(0 <= days_before_month(y, m) <= 335);
    assert(-719528 <= days_from_epoch(y, m, d) <= 2933021);
}

// ---------------------------------------------------------------------------
// The shape of the bracketed field and the value it denotes.
// ---------------------------------------------------------------------------

/// Whether a structurally well-formed timestamp field begins at byte `i`
/// of `line`: brackets, digits, separators and sign exactly where the
/// pattern puts them. Shape says nothing about calendar validity.
pub open spec fn stamp_shape_at(line: Seq<u8>, i: int) -> bool {
    &&& 0 <= i
    &&& i + 28 <= line.len()
    &&& line[i] == BYTE_LBRACKET
    &&& is_ascii_digit(line[i + 1])
    &&& is_ascii_digit(line[i + 2])
    &&& line[i + 3] == BYTE_SLASH
    &&& is_word_byte(line[i + 4])
    &&& is_word_byte(line[i + 5])
    &&& is_word_byte(line[i + 6])
    &&& line[i + 7] == BYTE_SLASH
    &&& is_ascii_digit(line[i + 8])
    &&& is_ascii_digit(line[i + 9])
    &&& is_ascii_digit(line[i + 10])
    &&& is_ascii_digit(line[i + 11])
    &&& line[i + 12] == BYTE_COLON
    &&& is_ascii_digit(line[i + 13])
    &&& is_ascii_digit(line[i + 14])
    &&& line[i + 15] == BYTE_COLON
    &&& is_ascii_digit(line[i + 16])
    &&& is_ascii_digit(line[i + 17])
    &&& line[i + 18] == BYTE_COLON
    &&& is_ascii_digit(line[i + 19])
    &&& is_ascii_digit(line[i + 20])
    &&& line[i + 21] == BYTE_SPACE
    &&& (line[i + 22] == BYTE_PLUS || line[i + 22] == BYTE_MINUS)
    &&& is_ascii_digit(line[i + 23])
    &&& is_ascii_digit(line[i + 24])
    &&& is_ascii_digit(line[i + 25])
    &&& is_ascii_digit(line[i + 26])
    &&& line[i + 27] == BYTE_RBRACKET
}

pub open spec fn field_day(line: Seq<u8>, i: int) -> int {
    digit_value(line[i + 1]) * 10 + digit_value(line[i + 2])
}

pub open spec fn field_month(line: Seq<u8>, i: int) -> Option<int> {
    month_number(line[i + 4], line[i + 5], line[i + 6])
}

pub open spec fn field_year(line: Seq<u8>, i: int) -> int {
    digit_value(line[i + 8]) * 1000 + digit_value(line[i + 9]) * 100 + digit_value(
        line[i + 10],
    ) * 10 + digit_value(line[i + 11])
}

pub open spec fn field_hour(line: Seq<u8>, i: int) -> int {
    digit_value(line[i + 13]) * 10 + digit_value(line[i + 14])
}

pub open spec fn field_minute(line: Seq<u8>, i: int) -> int {
    digit_value(line[i + 16]) * 10 + digit_value(line[i + 17])
}

pub open spec fn field_second(line: Seq<u8>, i: int) -> int {
    digit_value(line[i + 19]) * 10 + digit_value(line[i + 20])
}

/// The UTC offset the field encodes, in seconds east of Greenwich.
pub open spec fn field_offset(line: Seq<u8>, i: int) -> int {
    let magnitude = (digit_value(line[i + 23]) * 10 + digit_value(line[i + 24])) * 3600 + (
    digit_value(line[i + 25]) * 10 + digit_value(line[i + 26])) * 60;
    if line[i + 22] == BYTE_MINUS {
        -magnitude
    } else {
        magnitude
    }
}

/// Whether the field's offset digits denote a real UTC offset: below
/// twenty-four hours, with a minute part below sixty.
pub open spec fn valid_field_offset(line: Seq<u8>, i: int) -> bool {
    &&& digit_value(line[i + 23]) * 10 + digit_value(line[i + 24]) <= 23
    &&& digit_value(line[i + 25]) * 10 + digit_value(line[i + 26]) <= 59
}

/// The instant a structurally well-formed field starting at `i` denotes, or
/// `None` when its letters name no month or its numbers make no valid
/// calendar date, time of day or UTC offset.
pub open spec fn stamp_value_at(line: Seq<u8>, i: int) -> Option<int>
    recommends
        stamp_shape_at(line, i),
{
    match field_month(line, i) {
        None => None,
        Some(m) => {
            let y = field_year(line, i);
            let d = field_day(line, i);
            let h = field_hour(line, i);
            let mi = field_minute(line, i);
            let s = field_second(line, i);
            if valid_civil(y, m, d, h, mi, s) && valid_field_offset(line, i) {
                Some(epoch_of(y, m, d, h, mi, s, field_offset(line, i)))
            } else {
                None
            }
        },
    }
}

// ---------------------------------------------------------------------------
// Executable parsing of one field.
// ---------------------------------------------------------------------------

fn is_digit_byte(b: u8) -> (r: bool)
    ensures
        r == is_ascii_digit(b),
{
    48 <= b && b <= 57
}

fn is_word_byte_exec(b: u8) -> (r: bool)
    ensures
        r == is_word_byte(b),
{
    (97 <= b && b <= 122) || (65 <= b && b <= 90) || (48 <= b && b <= 57) || b == 95
}

fn lower_byte(b: u8) -> (r: u8)
    ensures
        r == ascii_lower(b),
{
    if 65 <= b && b <= 90 {
        b + 32
    } else {
        b
    }
}

/// The month number for a three-letter abbreviation, or `None` when the
/// letters name no month.
fn month_from_bytes(b0: u8, b1: u8, b2: u8) -> (r: Option<u8>)
    ensures
        match r {
            Some(m) => month_number(b0, b1, b2) == Some(m as int),
            None => month_number(b0, b1, b2) is None,
        },
{
    let l0 = lower_byte(b0);
    let l1 = lower_byte(b1);
    let l2 = lower_byte(b2);
    if l0 == 106 && l1 == 97 && l2 == 110 {
        Some(1)
    } else if l0 == 102 && l1 == 101 && l2 == 98 {
        Some(2)
    } else if l0 == 109 && l1 == 97 && l2 == 114 {
        Some(3)
    } else if l0 == 97 && l1 == 112 && l2 == 114 {
        Some(4)
    } else if l0 == 109 && l1 == 97 && l2 == 121 {
        Some(5)
    } else if l0 == 106 && l1 == 117 && l2 == 110 {
        Some(6)
    } else if l0 == 106 && l1 == 117 && l2 == 108 {
        Some(7)
    } else if l0 == 97 && l1 == 117 && l2 == 103 {
        Some(8)
    } else if l0 == 115 && l1 == 101 && l2 == 112 {
        Some(9)
    } else if l0 == 111 && l1 == 99 && l2 == 116 {
        Some(10)
    } else if l0 == 110 && l1 == 111 && l2 == 118 {
        Some(11)
    } else if l0 == 100 && l1 == 101 && l2 == 99 {
        Some(12)
    } else {
        None
    }
}

fn leap_years_before_exec(y: u64) -> (r: u64)
    requires
        y <= 9999,
    ensures
        r == leap_years_before(y as int),
        r <= 2549,
{
    if y == 0 {
        0
    } else {
        let p: u64 = y - 1;
        proof {
            lemma_div_pos_is_pos(p as int, 4);
            lemma_div_pos_is_pos(p as int, 400);
            lemma_div_is_ordered_by_denominator(p as int, 4, 100);
            lemma_div_is_ordered(p as int, 9998, 4);
            lemma_div_is_ordered(p as int, 9998, 400);
            assert(9998int / 4 == 2499);
            assert(9998int / 400 == 24);
        }
        1 + p / 4 - p / 100 + p / 400
    }
}

fn days_in_month_exec(y: u64, m: u64) -> (r: u64)
    requires
        y <= 9999,
        1 <= m <= 12,
    ensures
        r == days_in_month(y as int, m as int),
{
    if m == 2 {
        if (y % 4 == 0 && y % 100 != 0) || y % 400 == 0 {
            29
        } else {
            28
        }
    } else if m == 4 || m == 6 || m == 9 || m == 11 {
        30
    } else {
        31
    }
}

fn days_before_month_exec(y: u64, m: u64) -> (r: u64)
    requires
        y <= 9999,
        1 <= m <= 12,
    ensures
        r == days_before_month(y as int, m as int),
        r <= 335,
{
    let plain: u64 = if m == 1 {
        0
    } else if m == 2 {
        31
    } else if m == 3 {
        59
    } else if m == 4 {
        90
    } else if m == 5 {
        120
    } else if m == 6 {
        151
    } else if m == 7 {
        181
    } else if m == 8 {
        212
    } else if m == 9 {
        243
    } else if m == 10 {
        273
    } else if m == 11 {
        304
    } else {
        334
    };
    if m > 2 && ((y % 4 == 0 && y % 100 != 0) || y % 400 == 0) {
        plain + 1
    } else {
        plain
    }
}

pub(crate) fn days_from_epoch_exec(y: u64, m: u64, d: u64) -> (r: i64)
    requires
        y <= 9999,
        1 <= m <= 12,
        1 <= d <= 31,
    ensures
        r == days_from_epoch(y as int, m as int, d as int),
        -719528 <= r <= 2933021,
{
    let civil: u64 = 365 * y + leap_years_before_exec(y) + days_before_month_exec(y, m) + (d - 1);
    civil as i64 - 719528
}

/// Check whether a structurally well-formed field begins at byte `i`.
pub(crate) fn shape_at(line: &Vec<u8>, i: usize) -> (r: bool)
    requires
        i + 28 <= line.len(),
    ensures
        r == stamp_shape_at(line@, i as int),
{
    line[i] == BYTE_LBRACKET && is_digit_byte(line[i + 1]) && is_digit_byte(line[i + 2]) && line[i + 3]
        == BYTE_SLASH && is_word_byte_exec(line[i + 4]) && is_word_byte_exec(line[i + 5])
        && is_word_byte_exec(line[i + 6]) && line[i + 7] == BYTE_SLASH && is_digit_byte(line[i + 8])
        && is_digit_byte(line[i + 9]) && is_digit_byte(line[i + 10]) && is_digit_byte(line[i + 11])
        && line[i + 12] == BYTE_COLON && is_digit_byte(line[i + 13]) && is_digit_byte(line[i + 14])
        && line[i + 15] == BYTE_COLON && is_digit_byte(line[i + 16]) && is_digit_byte(line[i + 17])
        && line[i + 18] == BYTE_COLON && is_digit_byte(line[i + 19]) && is_digit_byte(line[i + 20])
        && line[i + 21] == BYTE_SPACE && (line[i + 22] == BYTE_PLUS || line[i + 22] == BYTE_MINUS) && is_digit_byte(
        line[i + 23],
    ) && is_digit_byte(line[i + 24]) && is_digit_byte(line[i + 25]) && is_digit_byte(line[i + 26])
        && line[i + 27] == BYTE_RBRACKET
}

fn two_digits(line: &Vec<u8>, i: usize) -> (r: u64)
    requires
        i + 2 <= line.len(),
        is_ascii_digit(line@[i as int]),
        is_ascii_digit(line@[i + 1]),
    ensures
        r == digit_value(line@[i as int]) * 10 + digit_value(line@[i + 1]),
        r <= 99,
{
    (line[i] - 48) as u64 * 10 + (line[i + 1] - 48) as u64
}

/// Decode the field starting at byte `i`, whose shape has already been
/// checked, into the instant it denotes; `None` when the letters name no
/// month or the numbers make no valid calendar date or time of day.
#[verifier::rlimit(50)]
pub(crate) fn parse_stamp_at(line: &Vec<u8>, i: usize) -> (r: Option<LogTimestamp>)
    requires
        stamp_shape_at(line@, i as int),
    ensures
        match r {
            Some(t) => stamp_value_at(line@, i as int) == Some(t@) && epoch_in_range(t@),
            None => stamp_value_at(line@, i as int) is None,
        },
{
    let n: usize = line.len();
    assert(i + 28 <= n);
    let month = month_from_bytes(line[i + 4], line[i + 5], line[i + 6]);
    match month {
        None => None,
        Some(m) => {
            let d: u64 = two_digits(line, i + 1);
            let y: u64 = two_digits(line, i + 8) * 100 + two_digits(line, i + 10);
            let h: u64 = two_digits(line, i + 13);
            let mi: u64 = two_digits(line, i + 16);
            let s: u64 = two_digits(line, i + 19);
            let off_hour: u64 = two_digits(line, i + 23);
            let off_minute: u64 = two_digits(line, i + 25);
            let off_magnitude: u64 = off_hour * 3600 + off_minute * 60;
            let off: i64 = if line[i + 22] == BYTE_MINUS {
                -(off_magnitude as i64)
            } else {
                off_magnitude as i64
            };
            assert(y == field_year(line@, i as int));
            assert(off == field_offset(line@, i as int));
            if 1 <= d && d <= days_in_month_exec(y, m as u64) && h <= 23 && mi <= 59 && s <= 59
                && off_hour <= 23 && off_minute <= 59 {
                let days: i64 = days_from_epoch_exec(y, m as u64, d);
                let e: i64 = days * 86400 + h as i64 * 3600 + mi as i64 * 60 + s as i64 - off;
                proof {
                    lemma_epoch_of_in_range(
                        y as int,
                        m as int,
                        d as int,
                        h as int,
                        mi as int,
                        s as int,
                        off as int,
                    );
                }
                Some(LogTimestamp { epoch_seconds: e })
            } else {
                None
            }
        },
    }
}

} // verus!

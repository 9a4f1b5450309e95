//! Timestamps and the proleptic Gregorian calendar.
use vstd::prelude::*;
use vstd::slice::slice_subrange;

verus! {

/// Whether `y` is a leap year.
pub open spec fn leap(y: int) -> bool {
    y % 4 == 0 && (y % 100 != 0 || y % 400 == 0)
}

/// Days of year `y`.
pub open spec fn year_len(y: int) -> int {
    if leap(y) {
        366
    } else {
        365
    }
}

/// Days of month `m` of year `y`.
pub open spec fn month_len(y: int, m: int) -> int {
    if m == 2 {
        if leap(y) {
            29
        } else {
            28
        }
    } else if m == 4 || m == 6 || m == 9 || m == 11 {
        30
    } else {
        31
    }
}

/// Days from 1970-01-01 to the first day of year `y`.
pub open spec fn year_start(y: int) -> int
    decreases
            if y >= 1970 {
                y - 1970
            } else {
                1970 - y
            },
{
    if y == 1970 {
        0
    } else if y > 1970 {
        year_start(y - 1) + year_len(y - 1)
    } else {
        year_start(y + 1) - year_len(y)
    }
}

/// Days from the first day of year `y` to the first day of its month `m`.
pub open spec fn month_start(y: int, m: int) -> int
    decreases m,
{
    if m <= 1 {
        0
    } else {
        month_start(y, m - 1) + month_len(y, m - 1)
    }
}

/// Days from 1970-01-01 to day `d` of month `m` of year `y`.
pub open spec fn civil(y: int, m: int, d: int) -> int {
    year_start(y) + month_start(y, m) + d - 1
}

/// Leap years from year 1 to year `y`.
spec fn leaps(y: int) -> int {
    y / 4 - y / 100 + y / 400
}

proof fn lemma_leaps(y: int)
    ensures
        leaps(y) - leaps(y - 1) == (if leap(y) {
            1int
        } else {
            0int
        }),
{
    let q = y / 400;
    let r = y % 400;
    assert(y == 400 * q + r);
    assert(y / 4 == 100 * q + r / 4);
    assert(y / 100 == 4 * q + r / 100);
    assert((y - 1) / 4 == 100 * q + (r - 1) / 4);
    assert((y - 1) / 100 == 4 * q + (r - 1) / 100);
    assert((y - 1) / 400 == q + (r - 1) / 400);
}

proof fn lemma_year_start(y: int)
    ensures
        year_start(y) == 365 * (y - 1970) + leaps(y - 1) - 477,
    decreases
            if y >= 1970 {
                y - 1970
            } else {
                1970 - y
            },
{
    if y > 1970 {
        lemma_year_start(y - 1);
        lemma_leaps(y - 1);
    } else if y < 1970 {
        lemma_year_start(y + 1);
        lemma_leaps(y);
    } else {
        assert(leaps(1969) == 477);
    }
}

proof fn lemma_month_start(y: int, m: int)
    requires
        1 <= m <= 12,
    ensures
        m > 2 ==> month_start(y, m) == (153 * (m - 3) + 2) / 5 + 59 + (if leap(y) {
            1int
        } else {
            0int
        }),
        m <= 2 ==> month_start(y, m) == (153 * (m + 9) + 2) / 5 - 306,
{
    reveal_with_fuel(month_start, 13);
}

/// The day after the last day of a month is the first day of the next month.
pub proof fn law_months_follow(y: int, m: int)
    requires
        1 <= m <= 12,
    ensures
        civil(y, m, month_len(y, m)) + 1 == if m < 12 {
            civil(y, m + 1, 1)
        } else {
            civil(y + 1, 1, 1)
        },
{
    lemma_year_start(y);
    lemma_year_start(y + 1);
    lemma_leaps(y);
    reveal_with_fuel(month_start, 13);
}

/// Days count from the first day of 1970, which is day 0.
pub proof fn law_epoch()
    ensures
        civil(1970, 1, 1) == 0,
{
    reveal_with_fuel(month_start, 2);
}

/// The same number of days without counting through the years: a year is taken to begin in March, so
/// that a leap day is its last.
pub open spec fn day_number(y: int, m: int, d: int) -> int {
    let march_year = if m <= 2 {
        y - 1
    } else {
        y
    };
    let month = if m <= 2 {
        m + 9
    } else {
        m - 3
    };
    365 * march_year + march_year / 4 - march_year / 100 + march_year / 400 + (153 * month + 2) / 5 + d
        - 719469
}

/// Both ways to count the days agree.
pub proof fn law_day_number(y: int, m: int, d: int)
    requires
        1 <= m <= 12,
    ensures
        day_number(y, m, d) == civil(y, m, d),
{
    lemma_year_start(y);
    lemma_leaps(y);
    lemma_month_start(y, m);
}

/// Days from 1970-01-01 to day `d` of month `m` of year `y`, where that number fits.
pub fn days_from_civil(y: i64, m: u32, d: u32) -> (days: i64)
    requires
        i64::MIN <= day_number(y as int, m as int, d as int) <= i64::MAX,
        1 <= m <= 12,
    ensures
        days == civil(y as int, m as int, d as int),
{
    let y1: i64 = if m <= 2 {
        y - 1
    } else {
        y
    };
    let era: i64 = floor_div(y1, 400);
    let yoe: i64 = floor_mod(y1, 400);
    let m_adj: i64 = if m > 2 {
        m as i64 - 3
    } else {
        m as i64 + 9
    };
    let doy: i64 = (153 * m_adj + 2) / 5 + d as i64 - 1;
    let doe: i64 = yoe * 365 + yoe / 4 - yoe / 100 + doy;
    proof {
        law_day_number(y as int, m as int, d as int);
        assert(y1 == 400 * era + yoe);
        assert(y1 as int / 4 == 100 * era + yoe as int / 4);
        assert(y1 as int / 100 == 4 * era + yoe as int / 100);
    }
    (era as i128 * 146097 + doe as i128 - 719468) as i64
}

/// `t / n`, rounded down.
fn floor_div(t: i64, n: i64) -> (q: i64)
    requires
        n > 0,
    ensures
        q == t as int / n as int,
{
    if t >= 0 {
        t / n
    } else {
        let back: i64 = (-(t + 1)) / n;
        proof {
            lemma_floor_below_zero(t as int, n as int);
            assert(back <= -(t + 1)) by (nonlinear_arith)
                requires
                    back == (-(t + 1)) as int / n as int,
                    n > 0,
                    t < 0,
            ;
        }
        -back - 1
    }
}

/// The remainder of `t / n`, rounded down.
fn floor_mod(t: i64, n: i64) -> (r: i64)
    requires
        n > 0,
    ensures
        r == t as int % n as int,
        0 <= r < n,
{
    if t >= 0 {
        t % n
    } else {
        let back: i64 = (-(t + 1)) % n;
        proof {
            lemma_floor_below_zero(t as int, n as int);
        }
        n - 1 - back
    }
}

proof fn lemma_floor_below_zero(t: int, n: int)
    requires
        n > 0,
        t < 0,
    ensures
        t / n == -((-(t + 1)) / n) - 1,
        t % n == n - 1 - (-(t + 1)) % n,
{
    let u = -(t + 1);
    let q = u / n;
    let r = u % n;
    vstd::arithmetic::div_mod::lemma_fundamental_div_mod(u, n);
    assert(t == n * (-q - 1) + (n - 1 - r)) by (nonlinear_arith)
        requires
            u == n * q + r,
            u == -(t + 1),
    ;
    assert(0 <= n - 1 - r < n);
    vstd::arithmetic::div_mod::lemma_fundamental_div_mod_converse(t, n, -q - 1, n - 1 - r);
}

/// The hour of the day at `t` minutes after the start of 1970.
pub open spec fn hour_of(t: int) -> int {
    (t % 1440) / 60
}

/// The day of the week at `t` minutes after the start of 1970, counted from Monday. Day 0 is a Thursday.
pub open spec fn weekday_of(t: int) -> int {
    (t / 1440 + 3) % 7
}

/// The hour of the day and the day of the week.
pub fn hour_and_dow_from_minutes(total_minutes: i64) -> (r: (u8, u8))
    ensures
        r.0 == hour_of(total_minutes as int),
        r.1 == weekday_of(total_minutes as int),
        r.0 <= 23,
        r.1 <= 6,
{
    let mins_in_day: i64 = floor_mod(total_minutes, 1440);
    let hour: u8 = (mins_in_day / 60) as u8;
    let days: i64 = floor_div(total_minutes, 1440);
    let dow: u8 = floor_mod(days + 3, 7) as u8;
    (hour, dow)
}

/// A day later the hour is the same and the day of the week the next.
pub proof fn law_day_later(t: int)
    ensures
        hour_of(t + 1440) == hour_of(t),
        weekday_of(t + 1440) == (weekday_of(t) + 1) % 7,
{
}

/// Whether every byte is a decimal digit.
pub open spec fn all_digits(s: Seq<u8>) -> bool {
    forall|i: int| 0 <= i < s.len() ==> 48 <= #[trigger] s[i] <= 57
}

/// The number that decimal digits denote; zero if there are none.
pub open spec fn decimal(s: Seq<u8>) -> int
    decreases s.len(),
{
    if s.len() == 0 {
        0
    } else {
        decimal(s.drop_last()) * 10 + (s.last() - 48)
    }
}

pub proof fn lemma_decimal_prefix(s: Seq<u8>, i: int)
    requires
        all_digits(s),
        0 <= i <= s.len(),
    ensures
        0 <= decimal(s.take(i)) <= decimal(s),
    decreases s.len(),
{
    if i == s.len() {
        assert(s.take(i) =~= s);
        lemma_decimal_nonnegative(s);
    } else {
        let front = s.drop_last();
        assert(all_digits(front)) by {
            assert forall|j: int| 0 <= j < front.len() implies 48 <= #[trigger] front[j] <= 57 by {
                assert(48 <= s[j] <= 57);
            }
        }
        assert(front.take(i) =~= s.take(i));
        lemma_decimal_prefix(front, i);
        assert(48 <= s[s.len() - 1] <= 57);
    }
}

pub proof fn lemma_decimal_nonnegative(s: Seq<u8>)
    requires
        all_digits(s),
    ensures
        0 <= decimal(s),
    decreases s.len(),
{
    if s.len() > 0 {
        let front = s.drop_last();
        assert(all_digits(front)) by {
            assert forall|j: int| 0 <= j < front.len() implies 48 <= #[trigger] front[j] <= 57 by {
                assert(48 <= s[j] <= 57);
            }
        }
        lemma_decimal_nonnegative(front);
        assert(48 <= s[s.len() - 1] <= 57);
    }
}

/// The number that `s` denotes if it is made of digits and the number fits.
pub open spec fn number(s: Seq<u8>) -> Option<u32> {
    if all_digits(s) && decimal(s) <= u32::MAX {
        Some(decimal(s) as u32)
    } else {
        None
    }
}

/// Reads a decimal number.
pub fn parse_ascii_u32(s: &[u8]) -> (r: Option<u32>)
    ensures
        r == number(s@),
{
    let mut acc: u32 = 0;
    let mut i: usize = 0;
    assert(s@.take(0) =~= Seq::empty());
    while i < s.len()
        invariant
            i <= s.len(),
            all_digits(s@.take(i as int)),
            acc == decimal(s@.take(i as int)),
        decreases s.len() - i,
    {
        let c: u8 = s[i];
        if c < 48 || c > 57 {
            return None;
        }
        proof {
            assert(s@.take(i + 1).drop_last() =~= s@.take(i as int));
            if all_digits(s@) {
                lemma_decimal_prefix(s@, i + 1);
            }
        }
        let wide: u64 = acc as u64 * 10 + (c - 48) as u64;
        if wide > 0xFFFF_FFFF {
            return None;
        }
        assert(all_digits(s@.take(i + 1))) by {
            assert forall|j: int| 0 <= j < i + 1 implies 48 <= #[trigger] s@.take(i + 1)[j] <= 57 by {
                if j < i {
                    assert(s@.take(i as int)[j] == s@[j]);
                }
            }
        }
        acc = wide as u32;
        i = i + 1;
    }
    assert(s@.take(s@.len() as int) =~= s@);
    Some(acc)
}

/// The minutes from the start of 1970 to a timestamp of the form `YYYY-MM-DDTHH:MM:SS`; `None` if a field
/// is not a number or out of range. Separators, seconds and what follows are not looked at.
pub open spec fn iso_minutes(ts: Seq<u8>) -> Option<i64> {
    if ts.len() < 19 {
        None
    } else {
        let year = number(ts.subrange(0, 4));
        let month = number(ts.subrange(5, 7));
        let day = number(ts.subrange(8, 10));
        let hour = number(ts.subrange(11, 13));
        let minute = number(ts.subrange(14, 16));
        if year is Some && month is Some && day is Some && hour is Some && minute is Some && 1
            <= month.unwrap() <= 12 && 1 <= day.unwrap() <= 31 && hour.unwrap() <= 23
            && minute.unwrap() <= 59 {
            Some(
                (civil(year.unwrap() as int, month.unwrap() as int, day.unwrap() as int) * 1440
                    + hour.unwrap() * 60 + minute.unwrap()) as i64,
            )
        } else {
            None
        }
    }
}

proof fn lemma_decimal_bound(s: Seq<u8>)
    requires
        all_digits(s),
        s.len() == 4,
    ensures
        0 <= decimal(s) <= 9999,
{
    lemma_decimal_nonnegative(s);
    reveal_with_fuel(decimal, 5);
}

pub proof fn lemma_civil_bound(y: int, m: int, d: int)
    requires
        0 <= y <= 9999,
        1 <= m <= 12,
        1 <= d <= 31,
    ensures
        -1_000_000 <= civil(y, m, d) <= 4_000_000,
{
    lemma_year_start(y);
    lemma_month_start(y, m);
}

/// Reads a timestamp as minutes from the start of 1970.
pub fn parse_iso8601_minutes(ts: &[u8]) -> (r: Option<i64>)
    ensures
        r == iso_minutes(ts@),
        r is Some ==> -1_440_000_000 <= r.unwrap() <= 6_000_000_000,
{
    if ts.len() < 19 {
        return None;
    }
    let year: u32 = match parse_ascii_u32(slice_subrange(ts, 0, 4)) {
        Some(v) => v,
        None => {
            return None;
        },
    };
    let month: u32 = match parse_ascii_u32(slice_subrange(ts, 5, 7)) {
        Some(v) => v,
        None => {
            return None;
        },
    };
    let day: u32 = match parse_ascii_u32(slice_subrange(ts, 8, 10)) {
        Some(v) => v,
        None => {
            return None;
        },
    };
    let hour: u32 = match parse_ascii_u32(slice_subrange(ts, 11, 13)) {
        Some(v) => v,
        None => {
            return None;
        },
    };
    let minute: u32 = match parse_ascii_u32(slice_subrange(ts, 14, 16)) {
        Some(v) => v,
        None => {
            return None;
        },
    };
    if month < 1 || month > 12 || day < 1 || day > 31 || hour > 23 || minute > 59 {
        return None;
    }
    proof {
        lemma_decimal_bound(ts@.subrange(0, 4));
        lemma_civil_bound(year as int, month as int, day as int);
    }
    let days: i64 = days_from_civil(year as i64, month, day);
    Some(days * 1440 + hour as i64 * 60 + minute as i64)
}

/// The hour of the day of a timestamp's minutes is the timestamp's hour.
pub proof fn law_hour_of_timestamp(ts: Seq<u8>)
    requires
        iso_minutes(ts) is Some,
    ensures
        hour_of(iso_minutes(ts).unwrap() as int) == number(ts.subrange(11, 13)).unwrap(),
{
    let year = number(ts.subrange(0, 4)).unwrap();
    let month = number(ts.subrange(5, 7)).unwrap();
    let day = number(ts.subrange(8, 10)).unwrap();
    lemma_decimal_bound(ts.subrange(0, 4));
    lemma_civil_bound(year as int, month as int, day as int);
}

} // verus!

//! What a timestamp and the facts drawn from a payload mean.
use crate::blob::Blob;
use crate::calendar::{
    all_digits, civil, decimal, hour_of, iso_minutes, leap, lemma_civil_bound, month_len, month_start,
    number, weekday_of, year_start,
};
use crate::feature::{facts_of, has_quoted, quoted_at, PayloadText};
use vstd::prelude::*;

verus! {

/// Day 0 is the first of January 1970, days of a month follow one another, and so do months and years: a
/// month has 31 days, 30 in April, June, September and November, and February 28, or 29 in the years that
/// are divisible by 4 and not by 100, or by 400.
pub proof fn law_days(y: int, m: int, d: int)
    ensures
        civil(1970, 1, 1) == 0,
        civil(y, m, d + 1) == civil(y, m, d) + 1,
        m == 1 || m == 3 || m == 5 || m == 7 || m == 8 || m == 10 ==> civil(y, m + 1, 1) == civil(y, m, 31)
            + 1,
        m == 4 || m == 6 || m == 9 || m == 11 ==> civil(y, m + 1, 1) == civil(y, m, 30) + 1,
        m == 2 && y % 4 == 0 && (y % 100 != 0 || y % 400 == 0) ==> civil(y, 3, 1) == civil(y, 2, 29) + 1,
        m == 2 && !(y % 4 == 0 && (y % 100 != 0 || y % 400 == 0)) ==> civil(y, 3, 1) == civil(y, 2, 28) + 1,
        civil(y + 1, 1, 1) == civil(y, 12, 31) + 1,
{
    if 1 <= m < 12 {
        assert(month_start(y, m + 1) == month_start(y, m) + month_len(y, m));
    }
    assert(month_start(y, 1) == 0 && month_start(y + 1, 1) == 0);
    reveal_with_fuel(month_start, 13);
    assert(month_start(y, 12) + 31 == if leap(y) {
        366int
    } else {
        365int
    });
    assert(year_start(y + 1) == year_start(y) + if leap(y) {
        366int
    } else {
        365int
    });
}

/// Minute `m` of hour `h` of day `d` is in hour `h`, and day `d` is a Thursday, which is day 3 of the week, or
/// as many days later as `d` is.
pub proof fn law_hour_and_weekday(d: int, h: int, m: int)
    requires
        0 <= h < 24,
        0 <= m < 60,
    ensures
        hour_of(1440 * d + 60 * h + m) == h,
        0 <= weekday_of(1440 * d + 60 * h + m) < 7,
        (weekday_of(1440 * d + 60 * h + m) - 3 - d) % 7 == 0,
{
    let t = 1440 * d + 60 * h + m;
    assert(t / 1440 == d && t % 1440 == 60 * h + m);
}

/// A decimal digit.
pub open spec fn digit(c: u8) -> bool {
    48 <= c <= 57
}

/// The number of two digits.
pub open spec fn two_digits(s: Seq<u8>, i: int) -> int {
    10 * (s[i] - 48) + (s[i + 1] - 48)
}

proof fn lemma_two(s: Seq<u8>, i: int)
    requires
        0 <= i,
        i + 2 <= s.len(),
    ensures
        number(s.subrange(i, i + 2)) is Some <==> digit(s[i]) && digit(s[i + 1]),
        number(s.subrange(i, i + 2)) is Some ==> number(s.subrange(i, i + 2)).unwrap() == two_digits(s, i),
{
    let t = s.subrange(i, i + 2);
    assert(t[0] == s[i] && t[1] == s[i + 1]);
    reveal_with_fuel(decimal, 3);
    assert(t.drop_last().drop_last().len() == 0);
    assert(decimal(t) == two_digits(s, i));
    if digit(s[i]) && digit(s[i + 1]) {
        assert(all_digits(t));
    }
}

proof fn lemma_four(s: Seq<u8>)
    requires
        4 <= s.len(),
    ensures
        number(s.subrange(0, 4)) is Some <==> digit(s[0]) && digit(s[1]) && digit(s[2]) && digit(s[3]),
        number(s.subrange(0, 4)) is Some ==> number(s.subrange(0, 4)).unwrap() == 1000 * (s[0] - 48) + 100
            * (s[1] - 48) + 10 * (s[2] - 48) + (s[3] - 48),
{
    let t = s.subrange(0, 4);
    assert(t[0] == s[0] && t[1] == s[1] && t[2] == s[2] && t[3] == s[3]);
    reveal_with_fuel(decimal, 5);
    let a = t.drop_last();
    let b = a.drop_last();
    let c = b.drop_last();
    assert(c.drop_last().len() == 0);
    assert(decimal(c) == s[0] - 48);
    assert(decimal(b) == decimal(c) * 10 + (s[1] - 48));
    assert(decimal(a) == decimal(b) * 10 + (s[2] - 48));
    assert(decimal(t) == decimal(a) * 10 + (s[3] - 48));
    if digit(s[0]) && digit(s[1]) && digit(s[2]) && digit(s[3]) {
        assert(all_digits(t));
    }
}

/// A timestamp is read if it has at least 19 bytes and digits where `YYYY-MM-DDTHH:MM` has letters, with a
/// month from 1 to 12, a day from 1 to 31, an hour up to 23 and a minute up to 59. It is then the minutes of
/// its hour and minute on its day.
pub proof fn law_timestamp(ts: Seq<u8>)
    ensures
        ({
            let year = 1000 * (ts[0] - 48) + 100 * (ts[1] - 48) + 10 * (ts[2] - 48) + (ts[3] - 48);
            let month = two_digits(ts, 5);
            let day = two_digits(ts, 8);
            let hour = two_digits(ts, 11);
            let minute = two_digits(ts, 14);
            let read = ts.len() >= 19 && digit(ts[0]) && digit(ts[1]) && digit(ts[2]) && digit(ts[3])
                && digit(ts[5]) && digit(ts[6]) && digit(ts[8]) && digit(ts[9]) && digit(ts[11])
                && digit(ts[12]) && digit(ts[14]) && digit(ts[15]) && 1 <= month <= 12 && 1 <= day <= 31
                && hour <= 23 && minute <= 59;
            &&& iso_minutes(ts) is Some <==> read
            &&& read ==> iso_minutes(ts) == Some(
                (1440 * civil(year, month, day) + 60 * hour + minute) as i64,
            )
        }),
{
    if ts.len() >= 19 {
        lemma_four(ts);
        lemma_two(ts, 5);
        lemma_two(ts, 8);
        lemma_two(ts, 11);
        lemma_two(ts, 14);
    }
}

/// A text stands in quotes in another if and only if that one is, for some front and back, the front, a quote,
/// the text, a quote and the back.
pub proof fn law_quoted(front: Seq<u8>, needle: Seq<u8>, back: Seq<u8>)
    ensures
        has_quoted(front + seq![34u8] + needle + seq![34u8] + back, needle),
{
    let all = front + seq![34u8] + needle + seq![34u8] + back;
    let i = front.len() as int;
    assert(all.subrange(i + 1, i + 1 + needle.len()) =~= needle);
    assert(quoted_at(all, needle, i));
}

/// A text that stands in quotes in another is somewhere in it, with a quote on either side.
pub proof fn law_quoted_is_there(haystack: Seq<u8>, needle: Seq<u8>) -> (i: int)
    requires
        has_quoted(haystack, needle),
    ensures
        0 <= i,
        i + needle.len() + 2 <= haystack.len(),
        haystack.subrange(i, i + needle.len() + 2) == seq![34u8] + needle + seq![34u8],
{
    let i = choose|i: int| quoted_at(haystack, needle, i);
    let part = haystack.subrange(i, i + needle.len() + 2);
    let inner = haystack.subrange(i + 1, i + 1 + needle.len());
    assert forall|k: int| 0 < k <= needle.len() implies #[trigger] part[k] == needle[k - 1] by {
        assert(inner[k - 1] == haystack[i + k]);
    }
    assert(part =~= seq![34u8] + needle + seq![34u8]);
    i
}

proof fn lemma_minutes_bound(ts: Seq<u8>)
    ensures
        iso_minutes(ts) matches Some(t) ==> -1_440_000_000 <= t <= 6_000_000_000,
{
    law_timestamp(ts);
    if iso_minutes(ts) is Some {
        let year = 1000 * (ts[0] - 48) + 100 * (ts[1] - 48) + 10 * (ts[2] - 48) + (ts[3] - 48);
        lemma_civil_bound(year, two_digits(ts, 5), two_digits(ts, 8));
    }
}

/// Facts are drawn if the time of the request and the category can be read. The time since the last
/// transaction is known if there was one whose time can be read; it is not negative.
pub proof fn law_facts(blob: &Blob, p: &PayloadText)
    ensures
        ({
            let now = iso_minutes(p.requested_at@);
            let mcc = number(p.merchant_mcc@);
            let f = facts_of(blob, p);
            &&& f is Some <==> now is Some && mcc is Some
            &&& f is Some ==> {
                &&& f.unwrap().hour_of_day == hour_of(now.unwrap() as int)
                &&& f.unwrap().day_of_week == weekday_of(now.unwrap() as int)
                &&& f.unwrap().unknown_merchant == !has_quoted(p.known_merchants@, p.merchant_id@)
                &&& f.unwrap().mcc_risk == blob.risk(mcc.unwrap() as int)
                &&& f.unwrap().minutes_since_last_tx is Some <==> p.last_timestamp is Some && iso_minutes(
                    p.last_timestamp.unwrap()@,
                ) is Some
                &&& f.unwrap().minutes_since_last_tx is Some ==> {
                    let since = f.unwrap().minutes_since_last_tx.unwrap();
                    let last = iso_minutes(p.last_timestamp.unwrap()@).unwrap();
                    &&& now.unwrap() >= last ==> since == now.unwrap() - last
                    &&& now.unwrap() < last ==> since == 0
                }
            }
        }),
{
    lemma_minutes_bound(p.requested_at@);
    if p.last_timestamp is Some {
        lemma_minutes_bound(p.last_timestamp.unwrap()@);
    }
    let mcc = number(p.merchant_mcc@);
    if mcc is Some {
        assert(-128 <= blob.risk(mcc.unwrap() as int) <= 127);
    }
}

} // verus!

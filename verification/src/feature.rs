//! What a payload says about a transaction, as far as it is not a matter of real numbers.
use crate::blob::Blob;
use crate::calendar::{
    hour_and_dow_from_minutes, hour_of, iso_minutes, number, parse_ascii_u32, parse_iso8601_minutes,
    weekday_of,
};
use vstd::prelude::*;

verus! {

/// Fields of a payload as they stand in it.
pub struct PayloadText<'a> {
    pub requested_at: &'a [u8],
    pub merchant_mcc: &'a [u8],
    pub merchant_id: &'a [u8],
    /// The list of known merchants, each in quotes.
    pub known_merchants: &'a [u8],
    pub last_timestamp: Option<&'a [u8]>,
}

/// What follows from these fields.
#[derive(Debug, Clone, Copy, PartialEq, Eq)]
pub struct PayloadFacts {
    /// 0 to 23.
    pub hour_of_day: u8,
    /// 0 to 6, counted from Monday.
    pub day_of_week: u8,
    /// Minutes since the last transaction, not below zero; `None` if there was none.
    pub minutes_since_last_tx: Option<i64>,
    pub unknown_merchant: bool,
    /// Risk of the merchant's category, scaled to 127.
    pub mcc_risk: i8,
}

/// Whether `needle` in double quotes stands in `haystack` at `i`.
pub open spec fn quoted_at(haystack: Seq<u8>, needle: Seq<u8>, i: int) -> bool {
    &&& 0 <= i
    &&& i + needle.len() + 1 < haystack.len()
    &&& haystack[i] == 34
    &&& haystack.subrange(i + 1, i + 1 + needle.len()) == needle
    &&& haystack[i + 1 + needle.len()] == 34
}

/// Whether `needle` in double quotes stands anywhere in `haystack`.
pub open spec fn has_quoted(haystack: Seq<u8>, needle: Seq<u8>) -> bool {
    exists|i: int| quoted_at(haystack, needle, i)
}

/// Whether `needle` in double quotes stands anywhere in `haystack`.
pub fn contains_quoted(haystack: &[u8], needle: &[u8]) -> (found: bool)
    ensures
        found == has_quoted(haystack@, needle@),
{
    if needle.len() >= haystack.len() {
        return false;
    }
    let limit: usize = haystack.len() - needle.len() - 1;
    let mut i: usize = 0;
    while i < limit
        invariant
            limit == haystack.len() - needle.len() - 1,
            i <= limit,
            forall|k: int| 0 <= k < i ==> !#[trigger] quoted_at(haystack@, needle@, k),
        decreases limit - i,
    {
        if haystack[i] == 34 && haystack[i + 1 + needle.len()] == 34 {
            let mut j: usize = 0;
            while j < needle.len() && haystack[i + 1 + j] == needle[j]
                invariant
                    i < limit,
                    limit == haystack.len() - needle.len() - 1,
                    j <= needle.len(),
                    forall|k: int| 0 <= k < j ==> haystack@[i + 1 + k] == #[trigger] needle@[k],
                decreases needle.len() - j,
            {
                j = j + 1;
            }
            if j == needle.len() {
                assert(haystack@.subrange(i + 1, i + 1 + needle@.len()) =~= needle@);
                assert(quoted_at(haystack@, needle@, i as int));
                return true;
            }
            assert(haystack@.subrange(i + 1, i + 1 + needle@.len())[j as int] != needle@[j as int]);
        }
        i = i + 1;
    }
    false
}

/// The minutes from `last` to `now`, not below zero.
pub open spec fn minutes_between(last: int, now: int) -> int {
    if now < last {
        0
    } else {
        now - last
    }
}

/// What follows from the fields of a payload; `None` if its time or category cannot be read.
pub open spec fn facts_of(blob: &Blob, p: &PayloadText) -> Option<PayloadFacts> {
    let now = iso_minutes(p.requested_at@);
    let mcc = number(p.merchant_mcc@);
    if now is None || mcc is None {
        None
    } else {
        Some(
            PayloadFacts {
                hour_of_day: hour_of(now.unwrap() as int) as u8,
                day_of_week: weekday_of(now.unwrap() as int) as u8,
                minutes_since_last_tx: match p.last_timestamp {
                    Some(ts) => match iso_minutes(ts@) {
                        Some(last) => Some(
                            minutes_between(last as int, now.unwrap() as int) as i64,
                        ),
                        None => None,
                    },
                    None => None,
                },
                unknown_merchant: !has_quoted(p.known_merchants@, p.merchant_id@),
                mcc_risk: blob.risk(mcc.unwrap() as int) as i8,
            },
        )
    }
}

/// Works out what follows from the fields of a payload.
pub fn payload_facts(blob: &Blob, p: &PayloadText) -> (r: Option<PayloadFacts>)
    requires
        blob.regions_fit(),
    ensures
        r == facts_of(blob, p),
{
    let now: i64 = match parse_iso8601_minutes(p.requested_at) {
        Some(t) => t,
        None => {
            return None;
        },
    };
    let (hour_of_day, day_of_week) = hour_and_dow_from_minutes(now);
    let mcc: u32 = match parse_ascii_u32(p.merchant_mcc) {
        Some(v) => v,
        None => {
            return None;
        },
    };
    let unknown_merchant: bool = !contains_quoted(p.known_merchants, p.merchant_id);
    let mcc_risk: i8 = blob.mcc_risk(mcc);
    let minutes_since_last_tx: Option<i64> = match p.last_timestamp {
        Some(ts) => match parse_iso8601_minutes(ts) {
            Some(last) => if now < last {
                Some(0)
            } else {
                Some(now - last)
            },
            None => None,
        },
        None => None,
    };
    Some(
        PayloadFacts { hour_of_day, day_of_week, minutes_since_last_tx, unknown_merchant, mcc_risk },
    )
}

} // verus!

//! Finding the fields of a payload by their names.
//!
//! A payload is a JSON object of objects. A field is looked for by its name behind the name of the object
//! it stands in; the text in between is not looked at.
use crate::wire::{find_from, first_from, lemma_first_from};
use vstd::prelude::*;

verus! {

/// `transaction`
pub const TRANSACTION: [u8; 11] = [116, 114, 97, 110, 115, 97, 99, 116, 105, 111, 110];

/// `amount`
pub const AMOUNT: [u8; 6] = [97, 109, 111, 117, 110, 116];

/// `installments`
pub const INSTALLMENTS: [u8; 12] = [105, 110, 115, 116, 97, 108, 108, 109, 101, 110, 116, 115];

/// `requested_at`
pub const REQUESTED_AT: [u8; 12] = [114, 101, 113, 117, 101, 115, 116, 101, 100, 95, 97, 116];

/// `customer`
pub const CUSTOMER: [u8; 8] = [99, 117, 115, 116, 111, 109, 101, 114];

/// `avg_amount`
pub const AVG_AMOUNT: [u8; 10] = [97, 118, 103, 95, 97, 109, 111, 117, 110, 116];

/// `tx_count_24h`
pub const TX_COUNT_24H: [u8; 12] = [116, 120, 95, 99, 111, 117, 110, 116, 95, 50, 52, 104];

/// `known_merchants`
pub const KNOWN_MERCHANTS: [u8; 15] = [
    107, 110, 111, 119, 110, 95, 109, 101, 114, 99, 104, 97, 110, 116, 115,
];

/// `merchant`
pub const MERCHANT: [u8; 8] = [109, 101, 114, 99, 104, 97, 110, 116];

/// `id`
pub const ID: [u8; 2] = [105, 100];

/// `mcc`
pub const MCC: [u8; 3] = [109, 99, 99];

/// `terminal`
pub const TERMINAL: [u8; 8] = [116, 101, 114, 109, 105, 110, 97, 108];

/// `is_online`
pub const IS_ONLINE: [u8; 9] = [105, 115, 95, 111, 110, 108, 105, 110, 101];

/// `card_present`
pub const CARD_PRESENT: [u8; 12] = [99, 97, 114, 100, 95, 112, 114, 101, 115, 101, 110, 116];

/// `km_from_home`
pub const KM_FROM_HOME: [u8; 12] = [107, 109, 95, 102, 114, 111, 109, 95, 104, 111, 109, 101];

/// `last_transaction`
pub const LAST_TRANSACTION: [u8; 16] = [
    108, 97, 115, 116, 95, 116, 114, 97, 110, 115, 97, 99, 116, 105, 111, 110,
];

/// `timestamp`
pub const TIMESTAMP: [u8; 9] = [116, 105, 109, 101, 115, 116, 97, 109, 112];

/// `km_from_current`
pub const KM_FROM_CURRENT: [u8; 15] = [
    107, 109, 95, 102, 114, 111, 109, 95, 99, 117, 114, 114, 101, 110, 116,
];

/// A part of a payload: where it begins and where it ends.
pub type Span = (usize, usize);

/// The fields of a payload.
#[derive(Debug, Clone, Copy, PartialEq, Eq)]
pub struct PayloadFields {
    pub amount: Span,
    pub installments: Span,
    pub requested_at: Span,
    pub customer_avg_amount: Span,
    pub tx_count_24h: Span,
    pub known_merchants: Span,
    pub merchant_id: Span,
    pub merchant_mcc: Span,
    pub merchant_avg_amount: Span,
    pub is_online: Span,
    pub card_present: Span,
    pub km_from_home: Span,
    /// Time and distance of the last transaction.
    pub last: Option<(Span, Span)>,
}

/// How `name` stands in a payload: in quotes, with a colon behind it.
pub open spec fn key_of(name: Seq<u8>) -> Seq<u8> {
    seq![34u8] + name + seq![34u8, 58u8]
}

/// A blank.
pub open spec fn is_blank(c: u8) -> bool {
    c == 32 || c == 9 || c == 10 || c == 13
}

/// The first place from `at` on that is not blank.
pub open spec fn skip_blank(s: Seq<u8>, at: int) -> int
    decreases s.len() - at,
{
    if 0 <= at < s.len() && is_blank(s[at]) {
        skip_blank(s, at + 1)
    } else {
        at
    }
}

/// Where the value of the first field called `name` from `from` on begins.
pub open spec fn value_start(s: Seq<u8>, name: Seq<u8>, from: int) -> Option<int> {
    let p = first_from(s, key_of(name), from);
    if p < s.len() {
        Some(skip_blank(s, p + name.len() + 3))
    } else {
        None
    }
}

/// The first place from `at` on where a number or a word ends.
pub open spec fn word_end(s: Seq<u8>, at: int) -> int
    decreases s.len() - at,
{
    if 0 <= at < s.len() && !is_blank(s[at]) && s[at] != 44 && s[at] != 125 && s[at] != 93 {
        word_end(s, at + 1)
    } else {
        at
    }
}

/// The value that begins at `at`: the inside of a string, a list with its brackets, or a word.
pub open spec fn value_span(s: Seq<u8>, at: int) -> Span {
    if at < s.len() && s[at] == 34 {
        ((at + 1) as usize, first_from(s, seq![34u8], at + 1) as usize)
    } else if at < s.len() && s[at] == 91 {
        let end = first_from(s, seq![93u8], at);
        (
            at as usize,
            if end < s.len() {
                (end + 1) as usize
            } else {
                end as usize
            },
        )
    } else {
        (at as usize, word_end(s, at) as usize)
    }
}

/// The value of the first field called `name` from `from` on.
pub open spec fn value_of(s: Seq<u8>, name: Seq<u8>, from: int) -> Option<Span> {
    match value_start(s, name, from) {
        Some(at) => Some(value_span(s, at)),
        None => None,
    }
}

pub proof fn lemma_skip_blank(s: Seq<u8>, at: int)
    requires
        0 <= at <= s.len(),
    ensures
        at <= skip_blank(s, at) <= s.len(),
    decreases s.len() - at,
{
    if at < s.len() && is_blank(s[at]) {
        lemma_skip_blank(s, at + 1);
    }
}

pub proof fn lemma_word_end(s: Seq<u8>, at: int)
    requires
        0 <= at <= s.len(),
    ensures
        at <= word_end(s, at) <= s.len(),
    decreases s.len() - at,
{
    if at < s.len() && !is_blank(s[at]) && s[at] != 44 && s[at] != 125 && s[at] != 93 {
        lemma_word_end(s, at + 1);
    }
}

/// A value lies within the text it is found in.
pub proof fn law_value_within(s: Seq<u8>, name: Seq<u8>, from: int)
    requires
        s.len() <= usize::MAX,
        0 <= from <= s.len(),
        value_of(s, name, from) is Some,
    ensures
        ({
            let (a, b) = value_of(s, name, from).unwrap();
            from < a <= b <= s.len()
        }),
{
    lemma_first_from(s, key_of(name), from);
    let p = first_from(s, key_of(name), from);
    lemma_skip_blank(s, p + name.len() + 3);
    let at = value_start(s, name, from).unwrap();
    lemma_word_end(s, at);
    if at < s.len() {
        lemma_first_from(s, seq![93u8], at);
        lemma_first_from(s, seq![34u8], at + 1);
    }
}

/// Where the value of the first field called `name` from `from` on begins.
pub fn find_value(s: &[u8], name: &[u8], from: usize) -> (r: Option<usize>)
    requires
        from <= s.len(),
    ensures
        r is Some <==> value_start(s@, name@, from as int) is Some,
        r is Some ==> r.unwrap() == value_start(s@, name@, from as int).unwrap() && from < r.unwrap()
            <= s.len(),
{
    let mut key: Vec<u8> = Vec::with_capacity(name.len());
    key.push(34);
    let mut i: usize = 0;
    while i < name.len()
        invariant
            i <= name.len(),
            key@ == seq![34u8] + name@.take(i as int),
        decreases name.len() - i,
    {
        key.push(name[i]);
        assert(key@ =~= seq![34u8] + name@.take(i + 1));
        i = i + 1;
    }
    key.push(34);
    key.push(58);
    assert(name@.take(name@.len() as int) =~= name@);
    assert(key@ =~= key_of(name@));
    let p: usize = find_from(s, key.as_slice(), from);
    proof {
        lemma_first_from(s@, key_of(name@), from as int);
    }
    if p >= s.len() {
        return None;
    }
    let mut at: usize = p + key.len();
    proof {
        lemma_skip_blank(s@, at as int);
    }
    while at < s.len() && (s[at] == 32 || s[at] == 9 || s[at] == 10 || s[at] == 13)
        invariant
            at <= s.len(),
            from < at,
            skip_blank(s@, p + name@.len() + 3) == skip_blank(s@, at as int),
        decreases s.len() - at,
    {
        at = at + 1;
    }
    Some(at)
}

/// The value of the first field called `name` from `from` on.
pub fn find_span(s: &[u8], name: &[u8], from: usize) -> (r: Option<Span>)
    requires
        from <= s.len(),
    ensures
        r == value_of(s@, name@, from as int),
        r is Some ==> from < r.unwrap().0 <= r.unwrap().1 <= s.len(),
{
    let at: usize = match find_value(s, name, from) {
        Some(at) => at,
        None => {
            return None;
        },
    };
    proof {
        law_value_within(s@, name@, from as int);
    }
    if at < s.len() && s[at] == 34 {
        let quote: [u8; 1] = [34u8];
        assert(quote@ =~= seq![34u8]);
        let end: usize = find_from(s, &quote, at + 1);
        return Some((at + 1, end));
    }
    if at < s.len() && s[at] == 91 {
        let close: [u8; 1] = [93u8];
        assert(close@ =~= seq![93u8]);
        let end: usize = find_from(s, &close, at);
        return if end < s.len() {
            Some((at, end + 1))
        } else {
            Some((at, end))
        };
    }
    let mut end: usize = at;
    while end < s.len() && !(s[end] == 32 || s[end] == 9 || s[end] == 10 || s[end] == 13) && s[end] != 44
        && s[end] != 125 && s[end] != 93
        invariant
            at <= end <= s.len(),
            word_end(s@, at as int) == word_end(s@, end as int),
        decreases s.len() - end,
    {
        end = end + 1;
    }
    Some((at, end))
}

/// The value of field `name` of the object `section`.
pub open spec fn field_in(s: Seq<u8>, section: Seq<u8>, name: Seq<u8>) -> Option<Span> {
    match value_start(s, section, 0) {
        Some(at) => value_of(s, name, at),
        None => None,
    }
}

/// Time and distance of the last transaction; `None` if there is none or one of them is missing.
pub open spec fn last_of(s: Seq<u8>) -> Option<(Span, Span)> {
    match value_start(s, LAST_TRANSACTION@, 0) {
        Some(at) => {
            let time = value_of(s, TIMESTAMP@, at);
            let km = value_of(s, KM_FROM_CURRENT@, at);
            if at < s.len() && s[at] == 123 && time is Some && km is Some {
                Some((time.unwrap(), km.unwrap()))
            } else {
                None
            }
        },
        None => None,
    }
}

/// The fields of a payload; `None` if one is missing.
pub open spec fn fields_of(s: Seq<u8>) -> Option<PayloadFields> {
    let amount = field_in(s, TRANSACTION@, AMOUNT@);
    let installments = field_in(s, TRANSACTION@, INSTALLMENTS@);
    let requested_at = field_in(s, TRANSACTION@, REQUESTED_AT@);
    let customer_avg_amount = field_in(s, CUSTOMER@, AVG_AMOUNT@);
    let tx_count_24h = field_in(s, CUSTOMER@, TX_COUNT_24H@);
    let known_merchants = field_in(s, CUSTOMER@, KNOWN_MERCHANTS@);
    let merchant_id = field_in(s, MERCHANT@, ID@);
    let merchant_mcc = field_in(s, MERCHANT@, MCC@);
    let merchant_avg_amount = field_in(s, MERCHANT@, AVG_AMOUNT@);
    let is_online = field_in(s, TERMINAL@, IS_ONLINE@);
    let card_present = field_in(s, TERMINAL@, CARD_PRESENT@);
    let km_from_home = field_in(s, TERMINAL@, KM_FROM_HOME@);
    if amount is Some && installments is Some && requested_at is Some && customer_avg_amount is Some
        && tx_count_24h is Some && known_merchants is Some && merchant_id is Some && merchant_mcc is Some
        && merchant_avg_amount is Some && is_online is Some && card_present is Some
        && km_from_home is Some {
        Some(
            PayloadFields {
                amount: amount.unwrap(),
                installments: installments.unwrap(),
                requested_at: requested_at.unwrap(),
                customer_avg_amount: customer_avg_amount.unwrap(),
                tx_count_24h: tx_count_24h.unwrap(),
                known_merchants: known_merchants.unwrap(),
                merchant_id: merchant_id.unwrap(),
                merchant_mcc: merchant_mcc.unwrap(),
                merchant_avg_amount: merchant_avg_amount.unwrap(),
                is_online: is_online.unwrap(),
                card_present: card_present.unwrap(),
                km_from_home: km_from_home.unwrap(),
                last: last_of(s),
            },
        )
    } else {
        None
    }
}

/// The value of field `name` of the object `section`.
fn find_field(s: &[u8], section: &[u8], name: &[u8]) -> (r: Option<Span>)
    ensures
        r == field_in(s@, section@, name@),
        r is Some ==> r.unwrap().0 <= r.unwrap().1 <= s.len(),
{
    match find_value(s, section, 0) {
        Some(at) => find_span(s, name, at),
        None => None,
    }
}

/// Time and distance of the last transaction.
fn find_last(s: &[u8]) -> (r: Option<(Span, Span)>)
    ensures
        r == last_of(s@),
{
    let at: usize = match find_value(s, &LAST_TRANSACTION, 0) {
        Some(at) => at,
        None => {
            return None;
        },
    };
    if at >= s.len() || s[at] != 123 {
        return None;
    }
    match (find_span(s, &TIMESTAMP, at), find_span(s, &KM_FROM_CURRENT, at)) {
        (Some(time), Some(km)) => Some((time, km)),
        _ => None,
    }
}

/// Finds the fields of a payload.
pub fn extract(s: &[u8]) -> (r: Option<PayloadFields>)
    ensures
        r == fields_of(s@),
{
    let amount: Span = match find_field(s, &TRANSACTION, &AMOUNT) {
        Some(v) => v,
        None => {
            return None;
        },
    };
    let installments: Span = match find_field(s, &TRANSACTION, &INSTALLMENTS) {
        Some(v) => v,
        None => {
            return None;
        },
    };
    let requested_at: Span = match find_field(s, &TRANSACTION, &REQUESTED_AT) {
        Some(v) => v,
        None => {
            return None;
        },
    };
    let customer_avg_amount: Span = match find_field(s, &CUSTOMER, &AVG_AMOUNT) {
        Some(v) => v,
        None => {
            return None;
        },
    };
    let tx_count_24h: Span = match find_field(s, &CUSTOMER, &TX_COUNT_24H) {
        Some(v) => v,
        None => {
            return None;
        },
    };
    let known_merchants: Span = match find_field(s, &CUSTOMER, &KNOWN_MERCHANTS) {
        Some(v) => v,
        None => {
            return None;
        },
    };
    let merchant_id: Span = match find_field(s, &MERCHANT, &ID) {
        Some(v) => v,
        None => {
            return None;
        },
    };
    let merchant_mcc: Span = match find_field(s, &MERCHANT, &MCC) {
        Some(v) => v,
        None => {
            return None;
        },
    };
    let merchant_avg_amount: Span = match find_field(s, &MERCHANT, &AVG_AMOUNT) {
        Some(v) => v,
        None => {
            return None;
        },
    };
    let is_online: Span = match find_field(s, &TERMINAL, &IS_ONLINE) {
        Some(v) => v,
        None => {
            return None;
        },
    };
    let card_present: Span = match find_field(s, &TERMINAL, &CARD_PRESENT) {
        Some(v) => v,
        None => {
            return None;
        },
    };
    let km_from_home: Span = match find_field(s, &TERMINAL, &KM_FROM_HOME) {
        Some(v) => v,
        None => {
            return None;
        },
    };
    Some(
        PayloadFields {
            amount,
            installments,
            requested_at,
            customer_avg_amount,
            tx_count_24h,
            known_merchants,
            merchant_id,
            merchant_mcc,
            merchant_avg_amount,
            is_online,
            card_present,
            km_from_home,
            last: find_last(s),
        },
    )
}

} // verus!

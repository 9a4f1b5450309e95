//! Where the fields of a payload are found, said of its bytes.
use crate::payload::{
    AMOUNT, AVG_AMOUNT, CARD_PRESENT, CUSTOMER, ID, INSTALLMENTS, IS_ONLINE, KM_FROM_CURRENT,
    KM_FROM_HOME, KNOWN_MERCHANTS, LAST_TRANSACTION, MCC, MERCHANT, REQUESTED_AT, TERMINAL, TIMESTAMP,
    TRANSACTION, TX_COUNT_24H, field_in, fields_of, key_of, last_of, skip_blank, value_of, value_span,
    value_start, word_end,
};
use crate::wire::{first_from, lemma_first_from, occurs};
use vstd::prelude::*;

verus! {

/// `name` stands in `s` at `p`, in quotes, with a colon behind it.
pub open spec fn named_at(s: Seq<u8>, name: Seq<u8>, p: int) -> bool {
    &&& 0 <= p
    &&& p + name.len() + 3 <= s.len()
    &&& s[p] == 34
    &&& s.subrange(p + 1, p + 1 + name.len()) == name
    &&& s[p + 1 + name.len()] == 34
    &&& s[p + 2 + name.len()] == 58
}

/// A space, a tab, a line feed or a carriage return.
pub open spec fn blank(c: u8) -> bool {
    c == 32 || c == 9 || c == 10 || c == 13
}

proof fn lemma_named(s: Seq<u8>, name: Seq<u8>, p: int)
    ensures
        occurs(s, key_of(name), p) <==> named_at(s, name, p),
{
    let key = key_of(name);
    let n = name.len() as int;
    let part = s.subrange(p, p + n + 3);
    assert(key.len() == n + 3);
    if occurs(s, key, p) {
        assert(part[0] == s[p] && part[n + 1] == s[p + n + 1] && part[n + 2] == s[p + n + 2]);
        assert(key[0] == 34 && key[n + 1] == 34 && key[n + 2] == 58);
        assert(s.subrange(p + 1, p + 1 + n) =~= name) by {
            assert forall|i: int| 0 <= i < n implies s.subrange(p + 1, p + 1 + n)[i] == name[i] by {
                assert(part[i + 1] == key[i + 1]);
            }
        }
    }
    if named_at(s, name, p) {
        assert forall|i: int| 0 <= i < n implies #[trigger] part[i + 1] == name[i] by {
            assert(s.subrange(p + 1, p + 1 + n)[i] == s[p + 1 + i]);
        }
        assert(part =~= key) by {
            assert forall|k: int| 0 <= k < n + 3 implies part[k] == key[k] by {
                if 0 < k <= n {
                    assert(part[(k - 1) + 1] == name[k - 1]);
                }
            }
        }
    }
}

proof fn lemma_first_value(s: Seq<u8>, at: int, v: int)
    requires
        0 <= at <= v <= s.len(),
        forall|i: int| at <= i < v ==> blank(#[trigger] s[i]),
        v < s.len() ==> !blank(s[v]),
    ensures
        skip_blank(s, at) == v,
    decreases v - at,
{
    if at < v {
        assert(blank(s[at]));
        lemma_first_value(s, at + 1, v);
    }
}

/// The value of a field begins at the first byte that is not blank behind the first place from `from` on where
/// its name stands.
pub proof fn law_value_start(s: Seq<u8>, name: Seq<u8>, from: int, p: int, v: int)
    requires
        0 <= from <= p,
        named_at(s, name, p),
        forall|e: int| from <= e < p ==> !#[trigger] named_at(s, name, e),
        p + name.len() + 3 <= v <= s.len(),
        forall|i: int| p + name.len() + 3 <= i < v ==> blank(#[trigger] s[i]),
        v < s.len() ==> !blank(s[v]),
    ensures
        value_start(s, name, from) == Some(v),
{
    lemma_first_from(s, key_of(name), from);
    lemma_named(s, name, p);
    let f = first_from(s, key_of(name), from);
    lemma_named(s, name, f);
    lemma_first_value(s, p + name.len() + 3, v);
}

/// There is no value where the name does not stand.
pub proof fn law_no_value(s: Seq<u8>, name: Seq<u8>, from: int)
    requires
        0 <= from <= s.len(),
        forall|e: int| from <= e ==> !#[trigger] named_at(s, name, e),
    ensures
        value_start(s, name, from) is None,
        value_of(s, name, from) is None,
{
    lemma_first_from(s, key_of(name), from);
    lemma_named(s, name, first_from(s, key_of(name), from));
}

proof fn lemma_byte(s: Seq<u8>, c: u8, at: int, end: int)
    requires
        0 <= at <= end <= s.len(),
        end < s.len() ==> s[end] == c,
        forall|i: int| at <= i < end ==> #[trigger] s[i] != c,
    ensures
        first_from(s, seq![c], at) == end,
{
    lemma_first_from(s, seq![c], at);
    let p = first_from(s, seq![c], at);
    if p < s.len() {
        assert(s.subrange(p, p + 1)[0] == s[p]);
    }
    if end < s.len() {
        assert(s.subrange(end, end + 1) =~= seq![c]);
        assert(occurs(s, seq![c], end));
    }
}

proof fn lemma_word(s: Seq<u8>, at: int, end: int)
    requires
        0 <= at <= end <= s.len(),
        forall|i: int|
            at <= i < end ==> !blank(#[trigger] s[i]) && s[i] != 44 && s[i] != 125 && s[i] != 93,
        end < s.len() ==> blank(s[end]) || s[end] == 44 || s[end] == 125 || s[end] == 93,
    ensures
        word_end(s, at) == end,
    decreases end - at,
{
    if at < end {
        assert(!blank(s[at]));
        lemma_word(s, at + 1, end);
    }
}

/// A value that begins with a quote is what is between it and the next quote.
pub proof fn law_string_value(s: Seq<u8>, at: int, end: int)
    requires
        s.len() <= usize::MAX,
        0 <= at < end <= s.len(),
        s[at] == 34,
        end < s.len() ==> s[end] == 34,
        forall|i: int| at < i < end ==> #[trigger] s[i] != 34,
    ensures
        value_span(s, at) == ((at + 1) as usize, end as usize),
{
    lemma_byte(s, 34, at + 1, end);
}

/// A value that begins with a bracket goes up to the next closing bracket and includes both; without one it goes up
/// to the end.
pub proof fn law_list_value(s: Seq<u8>, at: int, end: int)
    requires
        s.len() <= usize::MAX,
        0 <= at < end <= s.len(),
        s[at] == 91,
        end < s.len() ==> s[end] == 93,
        forall|i: int| at < i < end ==> #[trigger] s[i] != 93,
    ensures
        end < s.len() ==> value_span(s, at) == (at as usize, (end + 1) as usize),
        end == s.len() ==> value_span(s, at) == (at as usize, end as usize),
{
    lemma_byte(s, 93, at, end);
}

/// Any other value goes up to the next blank, comma or closing brace or bracket.
pub proof fn law_word_value(s: Seq<u8>, at: int, end: int)
    requires
        s.len() <= usize::MAX,
        0 <= at <= end <= s.len(),
        at < s.len() ==> s[at] != 34 && s[at] != 91,
        forall|i: int|
            at <= i < end ==> !blank(#[trigger] s[i]) && s[i] != 44 && s[i] != 125 && s[i] != 93,
        end < s.len() ==> blank(s[end]) || s[end] == 44 || s[end] == 125 || s[end] == 93,
    ensures
        value_span(s, at) == (at as usize, end as usize),
{
    lemma_word(s, at, end);
}

/// A field of an object is the first field of that name behind where the object begins.
pub proof fn law_field_in(s: Seq<u8>, section: Seq<u8>, name: Seq<u8>)
    ensures
        value_start(s, section, 0) is None ==> field_in(s, section, name) is None,
        value_start(s, section, 0) matches Some(a) ==> (value_start(s, name, a) is None ==> field_in(
            s,
            section,
            name,
        ) is None) && (value_start(s, name, a) matches Some(v) ==> field_in(s, section, name) == Some(
            value_span(s, v),
        )),
{
}

/// A payload has its twelve fields or is not read, and each field is taken from its object.
pub proof fn law_fields(s: Seq<u8>)
    ensures
        ({
            let f = fields_of(s);
            let amount = field_in(s, TRANSACTION@, AMOUNT@);
            let installments = field_in(s, TRANSACTION@, INSTALLMENTS@);
            let requested_at = field_in(s, TRANSACTION@, REQUESTED_AT@);
            let customer_avg = field_in(s, CUSTOMER@, AVG_AMOUNT@);
            let count = field_in(s, CUSTOMER@, TX_COUNT_24H@);
            let known = field_in(s, CUSTOMER@, KNOWN_MERCHANTS@);
            let id = field_in(s, MERCHANT@, ID@);
            let mcc = field_in(s, MERCHANT@, MCC@);
            let merchant_avg = field_in(s, MERCHANT@, AVG_AMOUNT@);
            let online = field_in(s, TERMINAL@, IS_ONLINE@);
            let card = field_in(s, TERMINAL@, CARD_PRESENT@);
            let km = field_in(s, TERMINAL@, KM_FROM_HOME@);
            &&& f is Some <==> amount is Some && installments is Some && requested_at is Some
                && customer_avg is Some && count is Some && known is Some && id is Some && mcc is Some
                && merchant_avg is Some && online is Some && card is Some && km is Some
            &&& f is Some ==> amount == Some(f.unwrap().amount) && installments == Some(
                f.unwrap().installments,
            ) && requested_at == Some(f.unwrap().requested_at) && customer_avg == Some(
                f.unwrap().customer_avg_amount,
            ) && count == Some(f.unwrap().tx_count_24h) && known == Some(f.unwrap().known_merchants) && id
                == Some(f.unwrap().merchant_id) && mcc == Some(f.unwrap().merchant_mcc) && merchant_avg
                == Some(f.unwrap().merchant_avg_amount) && online == Some(f.unwrap().is_online) && card
                == Some(f.unwrap().card_present) && km == Some(f.unwrap().km_from_home)
                && f.unwrap().last == last_of(s)
        }),
{
}

/// There is a last transaction if an object of that name begins with a brace and a time and a distance follow.
pub proof fn law_last(s: Seq<u8>)
    ensures
        ({
            let at = value_start(s, LAST_TRANSACTION@, 0);
            let time = value_of(s, TIMESTAMP@, at.unwrap());
            let km = value_of(s, KM_FROM_CURRENT@, at.unwrap());
            &&& last_of(s) is Some <==> at is Some && at.unwrap() < s.len() && s[at.unwrap()] == 123
                && time is Some && km is Some
            &&& last_of(s) is Some ==> last_of(s) == Some((time.unwrap(), km.unwrap()))
        }),
{
}

/// How the objects and fields are called.
pub proof fn law_names()
    ensures
        TRANSACTION@ == seq![116u8, 114, 97, 110, 115, 97, 99, 116, 105, 111, 110],
        AMOUNT@ == seq![97u8, 109, 111, 117, 110, 116],
        INSTALLMENTS@ == seq![105u8, 110, 115, 116, 97, 108, 108, 109, 101, 110, 116, 115],
        REQUESTED_AT@ == seq![114u8, 101, 113, 117, 101, 115, 116, 101, 100, 95, 97, 116],
        CUSTOMER@ == seq![99u8, 117, 115, 116, 111, 109, 101, 114],
        AVG_AMOUNT@ == seq![97u8, 118, 103, 95, 97, 109, 111, 117, 110, 116],
        TX_COUNT_24H@ == seq![116u8, 120, 95, 99, 111, 117, 110, 116, 95, 50, 52, 104],
        KNOWN_MERCHANTS@ == seq![
            107u8,
            110,
            111,
            119,
            110,
            95,
            109,
            101,
            114,
            99,
            104,
            97,
            110,
            116,
            115,
        ],
        MERCHANT@ == seq![109u8, 101, 114, 99, 104, 97, 110, 116],
        ID@ == seq![105u8, 100],
        MCC@ == seq![109u8, 99, 99],
        TERMINAL@ == seq![116u8, 101, 114, 109, 105, 110, 97, 108],
        IS_ONLINE@ == seq![105u8, 115, 95, 111, 110, 108, 105, 110, 101],
        CARD_PRESENT@ == seq![99u8, 97, 114, 100, 95, 112, 114, 101, 115, 101, 110, 116],
        KM_FROM_HOME@ == seq![107u8, 109, 95, 102, 114, 111, 109, 95, 104, 111, 109, 101],
        LAST_TRANSACTION@ == seq![
            108u8,
            97,
            115,
            116,
            95,
            116,
            114,
            97,
            110,
            115,
            97,
            99,
            116,
            105,
            111,
            110,
        ],
        TIMESTAMP@ == seq![116u8, 105, 109, 101, 115, 116, 97, 109, 112],
        KM_FROM_CURRENT@ == seq![
            107u8,
            109,
            95,
            102,
            114,
            111,
            109,
            95,
            99,
            117,
            114,
            114,
            101,
            110,
            116,
        ],
{
    assert(TRANSACTION@ =~= seq![116u8, 114, 97, 110, 115, 97, 99, 116, 105, 111, 110]);
    assert(INSTALLMENTS@ =~= seq![105u8, 110, 115, 116, 97, 108, 108, 109, 101, 110, 116, 115]);
}

} // verus!

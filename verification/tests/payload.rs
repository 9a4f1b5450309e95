use rinha::blob::Blob;
use rinha::blob_build::{build_blob, BuildInputs};
use rinha::feature::{payload_facts, PayloadText};
use rinha::payload::{extract, find_span, find_value, Span};

const SAMPLE_NULL: &[u8] = br#"{"id":"tx-100","transaction":{"amount":41.12,"installments":2,"requested_at":"2026-03-11T18:45:53Z"},"customer":{"avg_amount":82.24,"tx_count_24h":3,"known_merchants":["MERC-003","MERC-016"]},"merchant":{"id":"MERC-016","mcc":"5411","avg_amount":60.25},"terminal":{"is_online":false,"card_present":true,"km_from_home":29.2331},"last_transaction":null}"#;

const SAMPLE_PRESENT: &[u8] = br#"{"id":"tx-200","transaction":{"amount":50,"installments":1,"requested_at":"2026-03-11T20:00:00Z"},"customer":{"avg_amount":100,"tx_count_24h":2,"known_merchants":["MERC-1"]},"merchant":{"id":"MERC-1","mcc":"5411","avg_amount":50},"terminal":{"is_online":false,"card_present":true,"km_from_home":5},"last_transaction":{"timestamp":"2026-03-11T18:00:00Z","km_from_current":3.5}}"#;

fn text(s: &[u8], span: Span) -> &str {
    std::str::from_utf8(&s[span.0..span.1]).unwrap()
}

#[test]
fn fields_of_a_payload() {
    let s = SAMPLE_NULL;
    let f = extract(s).unwrap();
    assert_eq!(text(s, f.amount), "41.12");
    assert_eq!(text(s, f.installments), "2");
    assert_eq!(text(s, f.requested_at), "2026-03-11T18:45:53Z");
    assert_eq!(text(s, f.customer_avg_amount), "82.24");
    assert_eq!(text(s, f.tx_count_24h), "3");
    assert_eq!(text(s, f.known_merchants), r#"["MERC-003","MERC-016"]"#);
    assert_eq!(text(s, f.merchant_id), "MERC-016");
    assert_eq!(text(s, f.merchant_mcc), "5411");
    assert_eq!(text(s, f.merchant_avg_amount), "60.25");
    assert_eq!(text(s, f.is_online), "false");
    assert_eq!(text(s, f.card_present), "true");
    assert_eq!(text(s, f.km_from_home), "29.2331");
    assert_eq!(f.last, None);
}

#[test]
fn facts_of_a_payload() {
    let s = SAMPLE_PRESENT;
    let f = extract(s).unwrap();
    let (time, km) = f.last.unwrap();
    assert_eq!(text(s, km), "3.5");
    let bytes = build_blob(&BuildInputs {
        centroids: &[],
        assignments: &[],
        vectors: &[],
        distances: &[],
        is_fraud: &[],
        mcc_risk: &[],
    });
    let blob = Blob::open(&bytes).ok().unwrap();
    let facts = payload_facts(
        &blob,
        &PayloadText {
            requested_at: &s[f.requested_at.0..f.requested_at.1],
            merchant_mcc: &s[f.merchant_mcc.0..f.merchant_mcc.1],
            merchant_id: &s[f.merchant_id.0..f.merchant_id.1],
            known_merchants: &s[f.known_merchants.0..f.known_merchants.1],
            last_timestamp: Some(&s[time.0..time.1]),
        },
    )
    .unwrap();
    assert_eq!(facts.minutes_since_last_tx, Some(120));
    assert!(!facts.unknown_merchant);
}

#[test]
fn payloads_without_a_field() {
    assert_eq!(extract(b"{}"), None);
    assert_eq!(extract(b""), None);
    let cut = &SAMPLE_NULL[..SAMPLE_NULL.len() - 80];
    assert_eq!(extract(cut), None);
    // Without a last transaction there is simply none.
    let end = SAMPLE_NULL.len() - br#","last_transaction":null}"#.len();
    assert_eq!(extract(&SAMPLE_NULL[..end]).unwrap().last, None);
}

#[test]
fn values() {
    let s = br#"{"a" : 1, "b": [1, 2] ,"c":"x y","d":tru"#;
    assert_eq!(find_value(s, b"b", 0), Some(15));
    // A blank before the colon hides the name.
    assert_eq!(find_span(s, b"a", 0), None);
    assert_eq!(text(s, find_span(s, b"b", 0).unwrap()), "[1, 2]");
    assert_eq!(text(s, find_span(s, b"c", 0).unwrap()), "x y");
    assert_eq!(text(s, find_span(s, b"d", 0).unwrap()), "tru");
    assert_eq!(find_span(s, b"b", 20), None);
    assert_eq!(text(br#""k":"open"#, find_span(br#""k":"open"#, b"k", 0).unwrap()), "open");
}

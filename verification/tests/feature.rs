use rinha::blob::Blob;
use rinha::blob_build::{build_blob, BuildInputs};
use rinha::feature::{contains_quoted, payload_facts, PayloadFacts, PayloadText};

fn risks() -> Vec<u8> {
    build_blob(&BuildInputs {
        centroids: &[],
        assignments: &[],
        vectors: &[],
        distances: &[],
        is_fraud: &[],
        mcc_risk: &[(5411, 19)],
    })
}

#[test]
fn quoted_names() {
    assert!(contains_quoted(br#"["MERC-003","MERC-016"]"#, b"MERC-016"));
    assert!(contains_quoted(br#"["MERC-003","MERC-016"]"#, b"MERC-003"));
    assert!(!contains_quoted(br#"["MERC-003","MERC-016"]"#, b"MERC-01"));
    assert!(!contains_quoted(br#"["MERC-003","MERC-016"]"#, b"ERC-016"));
    assert!(!contains_quoted(b"[]", b"MERC-1"));
    assert!(!contains_quoted(b"", b""));
    assert!(contains_quoted(br#""""#, b""));
    assert!(contains_quoted(br#""a""#, b"a"));
    assert!(!contains_quoted(br#""a"#, b"a"));
}

#[test]
fn facts_without_last_transaction() {
    let bytes = risks();
    let blob = Blob::open(&bytes).ok().unwrap();
    let p = PayloadText {
        requested_at: b"2026-03-11T18:45:53Z",
        merchant_mcc: b"5411",
        merchant_id: b"MERC-016",
        known_merchants: br#"["MERC-003","MERC-016"]"#,
        last_timestamp: None,
    };
    assert_eq!(
        payload_facts(&blob, &p),
        Some(PayloadFacts {
            hour_of_day: 18,
            day_of_week: 2,
            minutes_since_last_tx: None,
            unknown_merchant: false,
            mcc_risk: 19,
        })
    );
}

#[test]
fn facts_with_last_transaction() {
    let bytes = risks();
    let blob = Blob::open(&bytes).ok().unwrap();
    let mut p = PayloadText {
        requested_at: b"2026-03-11T20:00:00Z",
        merchant_mcc: b"1",
        merchant_id: b"MERC-9",
        known_merchants: br#"["MERC-1"]"#,
        last_timestamp: Some(b"2026-03-11T18:00:00Z"),
    };
    let f = payload_facts(&blob, &p).unwrap();
    assert_eq!(f.minutes_since_last_tx, Some(120));
    assert!(f.unknown_merchant);
    assert_eq!(f.mcc_risk, 64);
    // A last transaction in the future counts as just now, one without a time as none.
    p.last_timestamp = Some(b"2026-03-12T18:00:00Z");
    assert_eq!(payload_facts(&blob, &p).unwrap().minutes_since_last_tx, Some(0));
    p.last_timestamp = Some(b"yesterday");
    assert_eq!(payload_facts(&blob, &p).unwrap().minutes_since_last_tx, None);
}

#[test]
fn facts_need_time_and_category() {
    let bytes = risks();
    let blob = Blob::open(&bytes).ok().unwrap();
    let mut p = PayloadText {
        requested_at: b"soon",
        merchant_mcc: b"5411",
        merchant_id: b"M",
        known_merchants: b"[]",
        last_timestamp: None,
    };
    assert_eq!(payload_facts(&blob, &p), None);
    p.requested_at = b"2026-03-11T18:45:53Z";
    p.merchant_mcc = b"54x1";
    assert_eq!(payload_facts(&blob, &p), None);
    p.merchant_mcc = b"5411";
    assert!(payload_facts(&blob, &p).is_some());
}

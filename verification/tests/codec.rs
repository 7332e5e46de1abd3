use pirate_radio::codec::{decode_state, encode_state};
use pirate_radio::state::{maybe_generate_transmission, seed_state, TransmissionState};

fn assert_states_equal(a: &TransmissionState, b: &TransmissionState) {
    assert_eq!(a.last_generated_at, b.last_generated_at);
    assert_eq!(a.entries.len(), b.entries.len());
    for (x, y) in a.entries.iter().zip(b.entries.iter()) {
        assert_eq!(x.timestamp, y.timestamp);
        assert_eq!(x.time_label, y.time_label);
        assert_eq!(x.message, y.message);
    }
}

#[test]
fn encode_small_state_exactly() {
    let st = seed_state(10_000);
    let mut one = TransmissionState { last_generated_at: 5, entries: Vec::new() };
    one.entries.push(pirate_radio::state::TransmissionEntry {
        timestamp: 3,
        time_label: "00:00:03".to_string(),
        message: "hi".to_string(),
    });
    let expected = "{\n  \"last_generated_at\": 5,\n  \"entries\": [\n    {\n      \"timestamp\": 3,\n      \"time_label\": \"00:00:03\",\n      \"message\": \"hi\"\n    }\n  ]\n}";
    assert_eq!(encode_state(&one).as_str(), expected);
    assert!(encode_state(&st).starts_with("{\n  \"last_generated_at\": 10000,"));
}

#[test]
fn encode_empty_entries() {
    let st = TransmissionState { last_generated_at: 0, entries: Vec::new() };
    assert_eq!(
        encode_state(&st).as_str(),
        "{\n  \"last_generated_at\": 0,\n  \"entries\": []\n}"
    );
}

#[test]
fn encode_matches_serde_json_pretty() {
    // the canonical document is byte-for-byte what serde_json's pretty
    // printer produces for the same fields in the same order
    let st = seed_state(1_234_567);
    let mut entries = Vec::new();
    for e in &st.entries {
        let mut obj = serde_json::Map::new();
        obj.insert(
            "timestamp".to_string(),
            serde_json::Value::Number(serde_json::Number::from(e.timestamp)),
        );
        obj.insert(
            "time_label".to_string(),
            serde_json::Value::String(e.time_label.clone()),
        );
        obj.insert(
            "message".to_string(),
            serde_json::Value::String(e.message.clone()),
        );
        entries.push(serde_json::Value::Object(obj));
    }
    let mut root = serde_json::Map::new();
    root.insert(
        "last_generated_at".to_string(),
        serde_json::Value::Number(serde_json::Number::from(st.last_generated_at)),
    );
    root.insert("entries".to_string(), serde_json::Value::Array(entries));
    let pretty = serde_json::to_string_pretty(&serde_json::Value::Object(root)).unwrap();
    assert_eq!(encode_state(&st), pretty);
}

#[test]
fn round_trip_preserves_state() {
    let st = seed_state(1_700_000_000);
    let doc = encode_state(&st);
    let back = decode_state(doc.as_str()).unwrap();
    assert_states_equal(&st, &back);
}

#[test]
fn round_trip_preserves_order_of_many_entries() {
    let mut st = seed_state(0);
    let mut now = 20_000;
    for _ in 0..15 {
        assert!(maybe_generate_transmission(&mut st, now));
        now += 11_000;
    }
    assert_eq!(st.entries.len(), 12);
    let doc = encode_state(&st);
    let back = decode_state(doc.as_str()).unwrap();
    assert_states_equal(&st, &back);
}

#[test]
fn round_trip_of_empty_entries() {
    let st = TransmissionState { last_generated_at: 77, entries: Vec::new() };
    let back = decode_state(encode_state(&st).as_str()).unwrap();
    assert_eq!(back.last_generated_at, 77);
    assert!(back.entries.is_empty());
}

#[test]
fn round_trip_keeps_non_ascii_text() {
    let mut st = TransmissionState { last_generated_at: 8, entries: Vec::new() };
    st.entries.push(pirate_radio::state::TransmissionEntry {
        timestamp: 1,
        time_label: "00:00:01".to_string(),
        message: "señal détectée — 信号".to_string(),
    });
    let back = decode_state(encode_state(&st).as_str()).unwrap();
    assert_eq!(back.entries[0].message.as_str(), "señal détectée — 信号");
}

#[test]
fn decode_rejects_garbage() {
    assert!(decode_state("").is_err());
    assert!(decode_state("not json at all").is_err());
    assert!(decode_state("{}").is_err());
}

#[test]
fn decode_rejects_trailing_text() {
    let doc = encode_state(&seed_state(42));
    let mut with_tail = doc.clone();
    with_tail.push('x');
    assert!(decode_state(with_tail.as_str()).is_err());
}

#[test]
fn decode_rejects_truncated_document() {
    let doc = encode_state(&seed_state(42));
    let cut = &doc[..doc.len() - 2];
    assert!(decode_state(cut).is_err());
}

#[test]
fn decode_rejects_broken_number() {
    let doc = "{\n  \"last_generated_at\": 01,\n  \"entries\": []\n}";
    assert!(decode_state(doc).is_err());
    let doc2 = "{\n  \"last_generated_at\": ,\n  \"entries\": []\n}";
    assert!(decode_state(doc2).is_err());
    // a value that does not fit in 64 bits
    let doc3 = "{\n  \"last_generated_at\": 99999999999999999999,\n  \"entries\": []\n}";
    assert!(decode_state(doc3).is_err());
}

#[test]
fn decode_rejects_escapes_in_strings() {
    let doc = "{\n  \"last_generated_at\": 5,\n  \"entries\": [\n    {\n      \"timestamp\": 3,\n      \"time_label\": \"00:00:03\",\n      \"message\": \"a\\\"b\"\n    }\n  ]\n}";
    assert!(decode_state(doc).is_err());
}

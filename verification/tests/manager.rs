use std::sync::Arc;

use pirate_radio::codec::encode_state;
use pirate_radio::manager::{resolve_loaded, TransmissionManager};
use pirate_radio::state::{seed_state, TransmissionState};

#[test]
fn resolve_missing_store_seeds() {
    let (st, seeded) = resolve_loaded(None);
    assert!(seeded);
    assert_eq!(st.entries.len(), 3);
    // the freshly seeded state round-trips through the store document
    let doc = encode_state(&st);
    let back = pirate_radio::codec::decode_state(doc.as_str()).unwrap();
    assert_eq!(back.entries.len(), 3);
}

#[test]
fn resolve_valid_store_uses_it_as_is() {
    let original = seed_state(1_600_000_000);
    let doc = encode_state(&original);
    let (st, seeded) = resolve_loaded(Some(doc));
    assert!(!seeded);
    assert_eq!(st.last_generated_at, original.last_generated_at);
    assert_eq!(st.entries.len(), 3);
    assert_eq!(st.entries[1].message, original.entries[1].message);
}

#[test]
fn resolve_corrupt_store_seeds() {
    let (st, seeded) = resolve_loaded(Some("{{{ nonsense".to_string()));
    assert!(seeded);
    assert_eq!(st.entries.len(), 3);
}

#[test]
fn resolve_empty_entry_list_seeds() {
    let empty = TransmissionState { last_generated_at: 9, entries: Vec::new() };
    let (st, seeded) = resolve_loaded(Some(encode_state(&empty)));
    assert!(seeded);
    assert_eq!(st.entries.len(), 3);
}

#[test]
fn manager_refresh_and_snapshot() {
    let mgr = TransmissionManager::new(seed_state(1000));
    let now = 1000 + 10_800;
    let copy = mgr.refresh_if_due(now);
    assert!(copy.is_some());
    let copy = copy.unwrap();
    assert_eq!(copy.entries.len(), 4);
    assert_eq!(copy.entries[0].timestamp, now);
    let snap = mgr.snapshot_entries();
    assert_eq!(snap.len(), 4);
    assert_eq!(snap[0].timestamp, now);
}

#[test]
fn manager_refresh_is_time_limited() {
    let mgr = TransmissionManager::new(seed_state(1000));
    let now = 1000 + 10_800;
    assert!(mgr.refresh_if_due(now).is_some());
    // a second attempt at the same instant, and any attempt within the
    // interval, observe "not due" and change nothing
    assert!(mgr.refresh_if_due(now).is_none());
    assert!(mgr.refresh_if_due(now + 10_799).is_none());
    assert_eq!(mgr.snapshot_entries().len(), 4);
}

#[test]
fn concurrent_refreshes_generate_exactly_once() {
    let rt = tokio::runtime::Builder::new_multi_thread()
        .worker_threads(8)
        .build()
        .unwrap();
    let mgr = Arc::new(TransmissionManager::new(seed_state(1000)));
    let now = 1000 + 20_000;
    let mut handles = Vec::new();
    for _ in 0..8 {
        let m = Arc::clone(&mgr);
        handles.push(rt.spawn_blocking(move || m.refresh_if_due(now).is_some()));
    }
    let mut generated = 0;
    for h in handles {
        if rt.block_on(h).unwrap() {
            generated += 1;
        }
    }
    assert_eq!(generated, 1);
    let snap = mgr.snapshot_entries();
    assert_eq!(snap.len(), 4);
    assert_eq!(snap[0].timestamp, now);
}

use pirate_radio::clock::clock_label_from_unix;
use pirate_radio::message::generate_scifi_message;
use pirate_radio::state::{
    default_transmissions, maybe_generate_transmission, seed_state, TransmissionEntry,
    TransmissionState,
};

fn entry(timestamp: u64, message: &str) -> TransmissionEntry {
    TransmissionEntry {
        timestamp,
        time_label: clock_label_from_unix(timestamp),
        message: message.to_string(),
    }
}

#[test]
fn refresh_not_due_is_a_no_op() {
    let mut st = TransmissionState { last_generated_at: 1000, entries: vec![entry(1000, "x")] };
    // one second short of the three-hour interval
    assert!(!maybe_generate_transmission(&mut st, 1000 + 10_799));
    assert_eq!(st.last_generated_at, 1000);
    assert_eq!(st.entries.len(), 1);
    assert_eq!(st.entries[0].message.as_str(), "x");
}

#[test]
fn refresh_due_prepends_new_entry() {
    let mut st = TransmissionState { last_generated_at: 1000, entries: vec![entry(1000, "x")] };
    let now = 1000 + 10_800;
    assert!(maybe_generate_transmission(&mut st, now));
    assert_eq!(st.last_generated_at, now);
    assert_eq!(st.entries.len(), 2);
    assert_eq!(st.entries[0].timestamp, now);
    assert_eq!(st.entries[0].time_label, clock_label_from_unix(now));
    // the message is the synthesizer's output for (now, count before refresh)
    assert_eq!(st.entries[0].message, generate_scifi_message(now, 1));
    assert_eq!(st.entries[1].message.as_str(), "x");
}

#[test]
fn refresh_caps_entries_and_drops_the_oldest() {
    let mut entries = Vec::new();
    for i in 0..12u64 {
        entries.push(entry(i, &format!("m{i}")));
    }
    let mut st = TransmissionState { last_generated_at: 0, entries };
    let now = 50_000;
    assert!(maybe_generate_transmission(&mut st, now));
    assert_eq!(st.entries.len(), 12);
    assert_eq!(st.entries[0].timestamp, now);
    // the kept entries are the first eleven of the old list, in order
    for i in 0..11u64 {
        assert_eq!(st.entries[(i + 1) as usize].message, format!("m{i}"));
    }
}

#[test]
fn refresh_within_interval_mutates_at_most_once() {
    let mut st = TransmissionState { last_generated_at: 0, entries: vec![entry(0, "x")] };
    let now1 = 20_000;
    let now2 = now1 + 10_799;
    assert!(maybe_generate_transmission(&mut st, now1));
    assert!(!maybe_generate_transmission(&mut st, now2));
    assert_eq!(st.entries.len(), 2);
    assert_eq!(st.last_generated_at, now1);
}

#[test]
fn refresh_twice_at_same_instant_generates_once() {
    let mut st = TransmissionState { last_generated_at: 0, entries: vec![entry(0, "x")] };
    let now = 99_999;
    assert!(maybe_generate_transmission(&mut st, now));
    assert!(!maybe_generate_transmission(&mut st, now));
    assert_eq!(st.entries.len(), 2);
    assert_eq!(st.last_generated_at, now);
}

#[test]
fn refresh_check_saturates_on_clock_skew() {
    // the clock jumped backwards: nothing is due
    let mut st = TransmissionState { last_generated_at: 50_000, entries: vec![entry(0, "x")] };
    assert!(!maybe_generate_transmission(&mut st, 100));
    assert_eq!(st.last_generated_at, 50_000);
}

#[test]
fn seed_state_content() {
    let now = 1_000_000;
    let st = seed_state(now);
    assert_eq!(st.last_generated_at, now);
    assert_eq!(st.entries.len(), 3);
    assert_eq!(st.entries[0].timestamp, now - 1200);
    assert_eq!(st.entries[1].timestamp, now - 3300);
    assert_eq!(st.entries[2].timestamp, now - 5800);
    assert_eq!(
        st.entries[0].message.as_str(),
        "Uplink stabilized. Archive index pushed to public relay."
    );
    assert_eq!(
        st.entries[1].message.as_str(),
        "Detected repeating pattern in ambient static. Logged as anomaly A-17."
    );
    assert_eq!(
        st.entries[2].message.as_str(),
        "Scheduled new broadcast: Deep Space Transmitter."
    );
    for e in &st.entries {
        assert_eq!(e.time_label, clock_label_from_unix(e.timestamp));
    }
}

#[test]
fn seed_state_saturates_near_epoch() {
    let st = seed_state(1000);
    assert_eq!(st.entries[0].timestamp, 0);
    assert_eq!(st.entries[2].timestamp, 0);
}

#[test]
fn default_transmissions_has_three_entries() {
    let st = default_transmissions();
    assert_eq!(st.entries.len(), 3);
    assert!(st.last_generated_at >= st.entries[0].timestamp);
}

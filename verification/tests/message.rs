use pirate_radio::message::generate_scifi_message;

#[test]
fn message_at_zero() {
    assert_eq!(
        generate_scifi_message(0, 0).as_str(),
        "Long-range scanner locked onto a drifting colony ping."
    );
}

#[test]
fn message_is_deterministic() {
    let a = generate_scifi_message(1_700_000_000, 7);
    let b = generate_scifi_message(1_700_000_000, 7);
    assert_eq!(a, b);
}

#[test]
fn message_changes_with_entry_count() {
    // with the same timestamp, bumping the count shifts every word list
    let a = generate_scifi_message(0, 0);
    let b = generate_scifi_message(0, 1);
    assert_ne!(a, b);
    assert_eq!(b.as_str(), "Outer rim array intercepted an encrypted trader channel.");
}

#[test]
fn message_mixes_time_and_count() {
    // now = 77: 77/7 = 11, 77/11 = 7, 77/13 = 5; count = 2
    assert_eq!(
        generate_scifi_message(77, 2).as_str(),
        "Navigation core intercepted an encrypted trader channel."
    );
}

#[test]
fn message_total_on_large_inputs() {
    // no overflow on extreme arguments
    let m = generate_scifi_message(u64::MAX, usize::MAX);
    assert!(m.ends_with('.'));
}

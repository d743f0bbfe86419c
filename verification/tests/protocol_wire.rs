use eltrafico::limit::{RowEvent, RowState, RowTarget};
use eltrafico::protocol::{decode, encode, u64_to_string, Message, Rate, RateUnit};

fn kbps(amount: u64) -> Rate {
    Rate { amount, unit: RateUnit::Kbps }
}

#[test]
fn encode_exact_lines() {
    assert_eq!(encode(&Message::Global(None, None)), "global - -\n");
    assert_eq!(
        encode(&Message::Global(Some(kbps(100)), Some(Rate { amount: 2, unit: RateUnit::Mbps }))),
        "global 100Kbps 2Mbps\n"
    );
    assert_eq!(
        encode(&Message::Program(
            "firefox".to_string(),
            (Some(kbps(100)), Some(kbps(100)), None, None)
        )),
        "program 100Kbps 100Kbps - - firefox\n"
    );
    assert_eq!(encode(&Message::Interface("eth0".to_string())), "interface eth0\n");
}

#[test]
fn round_trip_every_variant() {
    let samples = vec![
        Message::Global(None, None),
        Message::Global(Some(Rate { amount: 0, unit: RateUnit::Bps }), None),
        Message::Global(Some(kbps(100)), Some(Rate { amount: 7, unit: RateUnit::Mbps })),
        Message::Program(
            "firefox".to_string(),
            (Some(kbps(100)), Some(kbps(100)), None, None),
        ),
        Message::Program("a name with spaces".to_string(), (None, None, None, None)),
        Message::Program(
            "x".to_string(),
            (
                Some(Rate { amount: u64::MAX, unit: RateUnit::Bps }),
                Some(kbps(1)),
                Some(kbps(2)),
                Some(kbps(3)),
            ),
        ),
        Message::Interface("wlan0".to_string()),
    ];
    for m in samples {
        let line = encode(&m);
        assert_eq!(decode(&line), Some(m));
    }
}

#[test]
fn unset_is_distinct_from_zero() {
    let zero = Message::Global(Some(Rate { amount: 0, unit: RateUnit::Bps }), None);
    let unset = Message::Global(None, None);
    let zero_line = encode(&zero);
    let unset_line = encode(&unset);
    assert_ne!(zero_line, unset_line);
    assert_eq!(decode(&zero_line), Some(zero));
    assert_eq!(decode(&unset_line), Some(unset));
}

#[test]
fn resending_no_limit_is_the_same_line() {
    // The same intent sent twice reaches the backend as two identical
    // "no limit" lines; the second decodes to the very same command.
    let m = Message::Global(None, None);
    let first = encode(&m);
    let second = encode(&m);
    assert_eq!(first, second);
    assert_eq!(decode(&second), Some(Message::Global(None, None)));
}

#[test]
fn decode_rejects_garbage() {
    assert_eq!(decode(""), None);
    assert_eq!(decode("global - -"), None); // no newline
    assert_eq!(decode("nonsense - -\n"), None);
    assert_eq!(decode("global -\n"), None); // one field only
    assert_eq!(decode("global 100 200\n"), None); // no unit
    assert_eq!(decode("global Kbps -\n"), None); // empty digits
    assert_eq!(decode("global 99999999999999999999Bps -\n"), None); // overflow
    assert_eq!(decode("program - - - -\n"), None); // name missing
}

#[test]
fn decimal_rendering_is_exact() {
    assert_eq!(u64_to_string(0), "0");
    assert_eq!(u64_to_string(7), "7");
    assert_eq!(u64_to_string(1234567890), "1234567890");
    assert_eq!(u64_to_string(u64::MAX), "18446744073709551615");
}

#[test]
fn toggle_scenario_sends_captured_rates_then_explicit_off() {
    let target = RowTarget::Program("firefox".to_string());
    let mut row = RowState::new();
    assert_eq!(row.step(RowEvent::SetDown(Some(kbps(100))), &target), None);
    assert_eq!(row.step(RowEvent::SetUp(Some(kbps(100))), &target), None);
    let on = row.step(RowEvent::ToggleOn, &target);
    assert_eq!(
        on,
        Some(Message::Program(
            "firefox".to_string(),
            (Some(kbps(100)), Some(kbps(100)), None, None)
        ))
    );
    assert!(row.active);
    let off = row.step(RowEvent::ToggleOff, &target);
    assert_eq!(
        off,
        Some(Message::Program("firefox".to_string(), (None, None, None, None)))
    );
    assert!(!row.active);
}

#[test]
fn editing_while_active_disables_without_message() {
    let target = RowTarget::Program("firefox".to_string());
    let mut row = RowState::new();
    row.step(RowEvent::SetDown(Some(kbps(100))), &target);
    row.step(RowEvent::SetUp(Some(kbps(100))), &target);
    row.step(RowEvent::ToggleOn, &target);
    assert!(row.active);
    // Changing the down rate while active auto-disables and sends nothing.
    let edit = row.step(RowEvent::SetDown(Some(kbps(50))), &target);
    assert_eq!(edit, None);
    assert!(!row.active);
    // Only re-toggling sends again, now with the edited rate.
    let on = row.step(RowEvent::ToggleOn, &target);
    assert_eq!(
        on,
        Some(Message::Program(
            "firefox".to_string(),
            (Some(kbps(50)), Some(kbps(100)), None, None)
        ))
    );
}

#[test]
fn global_row_sends_global_intents() {
    let mut row = RowState::new();
    row.step(RowEvent::SetDown(Some(kbps(10))), &RowTarget::Global);
    row.step(RowEvent::SetUp(Some(kbps(20))), &RowTarget::Global);
    let on = row.step(RowEvent::ToggleOn, &RowTarget::Global);
    assert_eq!(on, Some(Message::Global(Some(kbps(10)), Some(kbps(20)))));
    let off = row.step(RowEvent::ToggleOff, &RowTarget::Global);
    assert_eq!(off, Some(Message::Global(None, None)));
}

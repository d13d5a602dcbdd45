use wifi_exporter::state::{DeviceStates, Update};

fn snapshot(ids: &[&str]) -> Vec<String> {
    ids.iter().map(|s| s.to_string()).collect()
}

#[test]
fn first_snapshot_reports_every_device_as_new() {
    let mut states = DeviceStates::default();
    let events = states.update(snapshot(&["AA:BB:CC:DD:EE:01", "AA:BB:CC:DD:EE:02"]));
    assert_eq!(
        events,
        vec![
            ("AA:BB:CC:DD:EE:01".to_string(), Update::New),
            ("AA:BB:CC:DD:EE:02".to_string(), Update::New),
        ]
    );
    let text = states.format();
    assert!(text.contains("wifi_client{mac=\"AA:BB:CC:DD:EE:01\"} 1"));
    assert!(text.contains("wifi_client{mac=\"AA:BB:CC:DD:EE:02\"} 1"));
}

#[test]
fn repoll_with_identical_snapshot_is_silent() {
    let mut states = DeviceStates::default();
    states.update(snapshot(&["AA", "BB"]));
    let events = states.update(snapshot(&["AA", "BB"]));
    assert!(events.is_empty());
    let events = states.update(snapshot(&["AA", "BB"]));
    assert!(events.is_empty());
}

#[test]
fn absent_device_is_disconnected_present_stays_silent() {
    let mut states = DeviceStates::default();
    states.update(snapshot(&["AA", "BB"]));
    let events = states.update(snapshot(&["BB"]));
    assert_eq!(events, vec![("AA".to_string(), Update::Disconnected)]);
    let text = states.format();
    assert!(text.contains("wifi_client{mac=\"AA\"} 0"));
    assert!(text.contains("wifi_client{mac=\"BB\"} 1"));
}

#[test]
fn seen_device_returning_is_reconnected() {
    let mut states = DeviceStates::default();
    states.update(snapshot(&["AA"]));
    states.update(snapshot(&[]));
    let events = states.update(snapshot(&["AA"]));
    assert_eq!(events, vec![("AA".to_string(), Update::Connected)]);
}

#[test]
fn disconnects_precede_connects_in_mixed_snapshot() {
    let mut states = DeviceStates::default();
    states.update(snapshot(&["AA", "BB"]));
    states.update(snapshot(&["AA"]));
    // BB is known but flagged off; AA is connected. The new snapshot drops
    // AA, brings BB back and discovers CC.
    let events = states.update(snapshot(&["BB", "CC"]));
    assert_eq!(
        events,
        vec![
            ("AA".to_string(), Update::Disconnected),
            ("BB".to_string(), Update::Connected),
            ("CC".to_string(), Update::New),
        ]
    );
}

#[test]
fn duplicate_identifiers_produce_one_event() {
    let mut states = DeviceStates::default();
    let events = states.update(snapshot(&["AA", "AA"]));
    assert_eq!(events, vec![("AA".to_string(), Update::New)]);
    states.update(snapshot(&[]));
    let events = states.update(snapshot(&["AA", "AA"]));
    assert_eq!(events, vec![("AA".to_string(), Update::Connected)]);
}

#[test]
fn empty_snapshot_disconnects_every_connected_device() {
    let mut states = DeviceStates::default();
    states.update(snapshot(&["AA", "BB"]));
    let events = states.update(snapshot(&[]));
    assert_eq!(
        events,
        vec![
            ("AA".to_string(), Update::Disconnected),
            ("BB".to_string(), Update::Disconnected),
        ]
    );
}

#[test]
fn metrics_render_one_line_per_device() {
    let mut states = DeviceStates::default();
    states.update(vec!["AA".to_string(), "BB".to_string()]);
    states.update(vec!["AA".to_string()]);
    let text = states.format();
    assert_eq!(text, "wifi_client{mac=\"AA\"} 1\nwifi_client{mac=\"BB\"} 0\n");
    assert_eq!(text.lines().count(), 2);
}

#[test]
fn metrics_render_of_empty_map_is_empty() {
    let states = DeviceStates::default();
    assert_eq!(states.format(), "");
}

#[test]
fn update_labels_match_log_vocabulary() {
    assert_eq!(Update::New.label(), "discovered");
    assert_eq!(Update::Disconnected.label(), "disconnected");
    assert_eq!(Update::Connected.label(), "connected");
}

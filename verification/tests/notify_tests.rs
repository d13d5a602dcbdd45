use wifi_exporter::notify::{
    config_topic, discovery_payload, publications_for, sanitize_device_id, state_payload,
    state_topic,
};
use wifi_exporter::state::Update;

fn expected_discovery_payload(id: &str) -> String {
    let mut p = String::new();
    p.push_str("{\n                            \"state_topic\": \"wifi-exporter/");
    p.push_str(id);
    p.push_str("/state\",\n                            \"device\": {\n                                \"name\": \"Wifi device ");
    p.push_str(id);
    p.push_str("\",\n                                \"manufacturer\": \"Icewind\",\n                                \"model\": \"Wifi Tracker\",\n                                \"identifiers\": \"");
    p.push_str(id);
    p.push_str("\"\n                            },\n                            \"name\": \"Wifi device ");
    p.push_str(id);
    p.push_str("\",\n                            \"payload_home\": \"connected\",\n                            \"payload_not_home\": \"disconnected\",\n                            \"unique_id\": \"wifi-");
    p.push_str(id);
    p.push_str("-connected\",\n                            \"icon\": \"mdi:wifi\",\n                            \"source_type\": \"router\"\n                         }");
    p
}

#[test]
fn sanitize_replaces_every_colon() {
    assert_eq!(sanitize_device_id("AA:BB:CC"), "AA_BB_CC");
}

#[test]
fn sanitize_is_idempotent_on_sanitized_input() {
    let once = sanitize_device_id("AA:BB:CC");
    assert_eq!(sanitize_device_id(&once), once);
    assert_eq!(sanitize_device_id("AA_BB_CC"), "AA_BB_CC");
}

#[test]
fn topics_follow_the_fixed_convention() {
    assert_eq!(
        config_topic("AA_BB_CC"),
        "homeassistant/device_tracker/wifi-AA_BB_CC/config"
    );
    assert_eq!(state_topic("AA_BB_CC"), "wifi-exporter/AA_BB_CC/state");
}

#[test]
fn state_payload_per_transition_kind() {
    assert_eq!(state_payload(&Update::New), "connected");
    assert_eq!(state_payload(&Update::Connected), "connected");
    assert_eq!(state_payload(&Update::Disconnected), "disconnected");
}

#[test]
fn discovery_payload_matches_the_template() {
    assert_eq!(
        discovery_payload("AA_BB_CC"),
        expected_discovery_payload("AA_BB_CC")
    );
}

#[test]
fn new_device_publishes_discovery_then_detached_state() {
    let pubs = publications_for("aa:bb", &Update::New);
    assert_eq!(pubs.len(), 2);
    assert_eq!(pubs[0].topic, "homeassistant/device_tracker/wifi-aa_bb/config");
    assert_eq!(pubs[0].payload, expected_discovery_payload("aa_bb"));
    assert!(pubs[0].retain);
    assert!(pubs[0].awaited);
    assert_eq!(pubs[1].topic, "wifi-exporter/aa_bb/state");
    assert_eq!(pubs[1].payload, "connected");
    assert!(pubs[1].retain);
    assert!(!pubs[1].awaited);
}

#[test]
fn reconnect_publishes_one_awaited_state_message() {
    let pubs = publications_for("AA:BB", &Update::Connected);
    assert_eq!(pubs.len(), 1);
    assert_eq!(pubs[0].topic, "wifi-exporter/AA_BB/state");
    assert_eq!(pubs[0].payload, "connected");
    assert!(pubs[0].retain);
    assert!(pubs[0].awaited);
}

#[test]
fn disconnect_publishes_one_awaited_state_message() {
    let pubs = publications_for("AA:BB", &Update::Disconnected);
    assert_eq!(pubs.len(), 1);
    assert_eq!(pubs[0].topic, "wifi-exporter/AA_BB/state");
    assert_eq!(pubs[0].payload, "disconnected");
    assert!(pubs[0].retain);
    assert!(pubs[0].awaited);
}

use wifi_exporter::command::build_command;

#[test]
fn no_interface_uses_the_default_sub_command() {
    assert_eq!(build_command(&vec![]), "iw dev station dump");
}

#[test]
fn one_interface_builds_one_sub_command() {
    assert_eq!(
        build_command(&vec!["wlan0".to_string()]),
        "iw dev wlan0 station dump"
    );
}

#[test]
fn interfaces_are_joined_by_a_shell_and() {
    assert_eq!(
        build_command(&vec!["wlan0".to_string(), "wlan1".to_string()]),
        "iw dev wlan0 station dump && iw dev wlan1 station dump"
    );
    assert_eq!(
        build_command(&vec![
            "wlan0".to_string(),
            "wlan1".to_string(),
            "wlan2".to_string(),
        ]),
        "iw dev wlan0 station dump && iw dev wlan1 station dump && iw dev wlan2 station dump"
    );
}

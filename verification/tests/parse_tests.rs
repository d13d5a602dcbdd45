use wifi_exporter::parse::parse_station_dump;

#[test]
fn station_lines_yield_uppercased_second_field() {
    let output = "Station aa:bb:cc:dd:ee:ff (on wlan0)\n\
                  \tinactive time:\t100 ms\n\
                  \trx bytes:\t12345\n\
                  Station 11:22:33:44:55:66 (on wlan0)\n\
                  \tinactive time:\t20 ms\n";
    assert_eq!(
        parse_station_dump(output),
        vec!["AA:BB:CC:DD:EE:FF".to_string(), "11:22:33:44:55:66".to_string()]
    );
}

#[test]
fn empty_output_yields_no_devices() {
    assert_eq!(parse_station_dump(""), Vec::<String>::new());
}

#[test]
fn output_without_station_lines_yields_no_devices() {
    assert_eq!(
        parse_station_dump("command failed\nno such interface\n"),
        Vec::<String>::new()
    );
}

#[test]
fn station_line_without_second_field_is_skipped() {
    assert_eq!(parse_station_dump("Station\n"), Vec::<String>::new());
}

#[test]
fn last_line_without_newline_is_still_parsed() {
    assert_eq!(
        parse_station_dump("Station aa:bb (on wlan0)\nStation cc:dd"),
        vec!["AA:BB".to_string(), "CC:DD".to_string()]
    );
}

#[test]
fn carriage_returns_before_newlines_are_stripped() {
    assert_eq!(
        parse_station_dump("Station aa:bb\r\nStation cc:dd\r\n"),
        vec!["AA:BB".to_string(), "CC:DD".to_string()]
    );
}

#[test]
fn station_prefix_is_matched_without_a_space() {
    // The line filter asks only for the `Station` prefix; the device is the
    // second space-separated field.
    assert_eq!(
        parse_station_dump("Stationary beacon here\n"),
        vec!["BEACON".to_string()]
    );
}

#[test]
fn double_space_yields_the_empty_field() {
    assert_eq!(parse_station_dump("Station  aa:bb\n"), vec!["".to_string()]);
}

use wifi_log::report::{network_from_report, trim_text, is_white_space_char};

#[test]
fn network_name_after_label() {
    assert_eq!(
        network_from_report("Current Wi-Fi Network: eduroam\n"),
        Some("eduroam".to_string())
    );
}

#[test]
fn no_network_without_separator() {
    assert_eq!(network_from_report("You are not associated with an AirPort network.\n"), None);
    assert_eq!(network_from_report(""), None);
    assert_eq!(network_from_report("label:no-space"), None);
}

#[test]
fn name_stops_at_next_separator() {
    assert_eq!(network_from_report("a: b: c"), Some("b".to_string()));
    assert_eq!(network_from_report("Network: "), Some("".to_string()));
    assert_eq!(network_from_report("Network: Cafe:Guest"), Some("Cafe:Guest".to_string()));
}

#[test]
fn name_is_trimmed() {
    assert_eq!(
        network_from_report("Current Wi-Fi Network: \u{a0} My Net\t\r\n"),
        Some("My Net".to_string())
    );
    assert_eq!(trim_text("  x y  "), "x y");
    assert_eq!(trim_text("\u{3000}\u{2009}z"), "z");
    assert_eq!(trim_text("   "), "");
    assert!(is_white_space_char('\u{85}'));
    assert!(!is_white_space_char('\u{200b}'));
    assert!(!is_white_space_char('x'));
}

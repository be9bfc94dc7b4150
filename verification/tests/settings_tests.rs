use update_store::settings::{Settings, SettingsError};

fn lines(texts: &[&str]) -> Vec<String> {
    texts.iter().map(|t| t.to_string()).collect()
}

#[test]
fn empty_input_gives_defaults() {
    let s = Settings::from_lines(&Vec::new()).unwrap();
    assert!(s.enabled);
    assert_eq!(s.update_server_address, "");
    assert_eq!(s.update_server_port, 883);
    assert!(!s.use_authentication);
    assert!(s.auth_server_address.is_none());
    assert!(s.auth_server_port.is_none());
    assert_eq!(s.mqtt_topics, vec!["ota".to_string(), "ota/{ID}/updates".to_string()]);
    assert_eq!(s.connect_retry_seconds, 15);
}

#[test]
fn keys_are_case_insensitive_and_comments_stripped() {
    let s = Settings::from_lines(&lines(&[
        "# a leading comment",
        "Enabled no",
        "UPDATE_SERVER_ADDRESS updates.example # trailing comment",
        "update_server_port 1883",
    ]))
    .unwrap();
    assert!(!s.enabled);
    assert_eq!(s.update_server_address, "updates.example");
    assert_eq!(s.update_server_port, 1883);
}

#[test]
fn yes_values_are_case_insensitive() {
    let s = Settings::from_lines(&lines(&["use_authentication YES", "enabled Yes"])).unwrap();
    assert!(s.use_authentication);
    assert!(s.enabled);
}

#[test]
fn auth_and_retry_values_are_applied() {
    let s = Settings::from_lines(&lines(&[
        "auth_server_address auth.example",
        "auth_server_port 8443",
        "connect_retry_seconds 30",
    ]))
    .unwrap();
    assert_eq!(s.auth_server_address, Some("auth.example".to_string()));
    assert_eq!(s.auth_server_port, Some(8443));
    assert_eq!(s.connect_retry_seconds, 30);
}

#[test]
fn topics_split_on_semicolons() {
    let s = Settings::from_lines(&lines(&["mqtt_topics alpha;beta/{ID};gamma"])).unwrap();
    assert_eq!(
        s.mqtt_topics,
        vec!["alpha".to_string(), "beta/{ID}".to_string(), "gamma".to_string()]
    );
}

#[test]
fn unknown_keys_are_ignored() {
    let s = Settings::from_lines(&lines(&["colour blue", "enabled yes"])).unwrap();
    assert!(s.enabled);
    assert_eq!(s.update_server_port, 883);
}

#[test]
fn line_without_separator_is_rejected() {
    let r = Settings::from_lines(&lines(&["enabled"]));
    assert!(matches!(r, Err(SettingsError::MissingSeparator)));
}

#[test]
fn malformed_number_is_rejected() {
    let r = Settings::from_lines(&lines(&["update_server_port twelve"]));
    assert!(matches!(r, Err(SettingsError::BadNumber)));
    let r = Settings::from_lines(&lines(&["auth_server_port 99999999999"]));
    assert!(matches!(r, Err(SettingsError::BadNumber)));
    let r = Settings::from_lines(&lines(&["connect_retry_seconds "]));
    assert!(matches!(r, Err(SettingsError::BadNumber)));
}

#[test]
fn signed_numbers_parse_to_their_value() {
    let s = Settings::from_lines(&lines(&["connect_retry_seconds -5"])).unwrap();
    assert_eq!(s.connect_retry_seconds, -5);
    let s = Settings::from_lines(&lines(&["connect_retry_seconds +7"])).unwrap();
    assert_eq!(s.connect_retry_seconds, 7);
    let s = Settings::from_lines(&lines(&["connect_retry_seconds -2147483648"])).unwrap();
    assert_eq!(s.connect_retry_seconds, i32::MIN);
    let r = Settings::from_lines(&lines(&["connect_retry_seconds 2147483648"]));
    assert!(matches!(r, Err(SettingsError::BadNumber)));
}

#[test]
fn values_are_trimmed_of_unicode_whitespace() {
    let s = Settings::from_lines(&lines(&["update_server_address \u{00A0}host.example\u{2003}"]))
        .unwrap();
    assert_eq!(s.update_server_address, "host.example");
}

use hypr_kblayout::error::KbError;
use hypr_kblayout::parser::{layout_label, KeyboardConfig};

#[test]
fn event_is_valid() {
    let raw_str = "activelayout>>smthing";
    assert!(KeyboardConfig::event_valid(raw_str));
}

#[test]
fn event_invalid() {
    let raw_str = "workspace>>smthing";
    assert!(!KeyboardConfig::event_valid(raw_str));
}

#[test]
fn test_get_data() {
    let raw_str = "activelayout>>smthing,else";
    assert_eq!(Some("smthing,else"), KeyboardConfig::get_data(raw_str));
}

#[test]
fn test_new() {
    let raw_str = "activelayout>>hp,-inc-hyperx-alloy-origins,English (US)";
    let args = "hp,-inc-hyperx-alloy-origins";
    let kbd_conf = KeyboardConfig::new(raw_str, args);
    let target_conf = KeyboardConfig {
        keyboard_name: "hp,-inc-hyperx-alloy-origins".to_string(),
        layout: "English (US)".to_string(),
    };

    assert_eq!(Some(target_conf), kbd_conf);
}

#[test]
fn line_without_delimiter_rejected() {
    assert!(KeyboardConfig::new("no delimiter in sight", "kb").is_none());
    assert!(!KeyboardConfig::event_valid("no delimiter in sight"));
}

#[test]
fn wrong_event_name_rejected() {
    assert!(KeyboardConfig::new("workspace>>kb,English (US)", "kb").is_none());
}

#[test]
fn payload_without_comma_rejected() {
    assert!(KeyboardConfig::new("activelayout>>onlyname", "onlyname").is_none());
}

#[test]
fn other_device_rejected() {
    let raw_str = "activelayout>>hp,-inc-hyperx-alloy-origins,English (US)";
    assert!(KeyboardConfig::new(raw_str, "other-device").is_none());
}

#[test]
fn device_name_keeps_inner_commas() {
    let conf = KeyboardConfig::new("activelayout>>a,b,c,German (DE)", "a,b,c").unwrap();
    assert_eq!("a,b,c", conf.keyboard_name());
    assert_eq!("German (DE)", conf.layout());
}

#[test]
fn reparse_same_line_same_result() {
    let raw_str = "activelayout>>hp,-inc-hyperx-alloy-origins,English (US)";
    let args = "hp,-inc-hyperx-alloy-origins";
    let first = KeyboardConfig::new(raw_str, args);
    let second = KeyboardConfig::new(raw_str, args);
    assert_eq!(first, second);
}

#[test]
fn label_cuts_at_first_space() {
    assert_eq!(Ok("English"), layout_label("English (US)"));
}

#[test]
fn label_without_space_is_error() {
    match layout_label("English") {
        Err(KbError::MalformedLayout(d)) => assert_eq!("English", d),
        other => panic!("expected a malformed-layout error, got {:?}", other),
    }
}

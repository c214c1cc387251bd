use hypr_kblayout::error::KbError;
use hypr_kblayout::watch::{watch_line, Watcher};

#[test]
fn watch_line_returns_label() {
    let line = "activelayout>>hp,-inc-hyperx-alloy-origins,English (US)";
    let r = watch_line(line, "hp,-inc-hyperx-alloy-origins");
    assert_eq!(Ok(Some("English".to_string())), r);
}

#[test]
fn watch_line_other_target_silent() {
    let line = "activelayout>>hp,-inc-hyperx-alloy-origins,English (US)";
    assert_eq!(Ok(None), watch_line(line, "other-device"));
}

#[test]
fn watch_line_is_pure() {
    let line = "activelayout>>hp,-inc-hyperx-alloy-origins,English (US)";
    let target = "hp,-inc-hyperx-alloy-origins";
    assert_eq!(watch_line(line, target), watch_line(line, target));
}

#[test]
fn watcher_emits_on_event_and_skips_noise() {
    let mut watcher = Watcher::new("hp,-inc-hyperx-alloy-origins");
    let labels = watcher
        .on_chunk(b"workspace>>2\nactivelayout>>hp,-inc-hyperx-alloy-origins,English (US)\n")
        .unwrap();
    assert_eq!(vec!["English".to_string()], labels);
    assert!(!watcher.is_closed());
}

#[test]
fn watcher_byte_at_a_time_emits_once() {
    let data = b"activelayout>>hp,-inc-hyperx-alloy-origins,English (US)\n";
    let mut watcher = Watcher::new("hp,-inc-hyperx-alloy-origins");
    let mut all: Vec<String> = Vec::new();
    for b in data.iter() {
        all.extend(watcher.on_chunk(&[*b]).unwrap());
    }
    assert_eq!(vec!["English".to_string()], all);
}

#[test]
fn watcher_closes_on_empty_read() {
    let mut watcher = Watcher::new("kb");
    assert!(!watcher.is_closed());
    let labels = watcher.on_chunk(&[]).unwrap();
    assert!(labels.is_empty());
    assert!(watcher.is_closed());
}

#[test]
fn watcher_rejects_invalid_utf8() {
    let mut watcher = Watcher::new("kb");
    let r = watcher.on_chunk(&[0xFF, 0xFE, b'\n']);
    assert_eq!(Err(KbError::DecodeError), r);
    assert!(watcher.is_closed());
}

#[test]
fn watcher_errors_on_label_less_layout() {
    let mut watcher = Watcher::new("kb");
    let r = watcher.on_chunk(b"activelayout>>kb,English\n");
    assert_eq!(Err(KbError::MalformedLayout("English".to_string())), r);
    assert!(watcher.is_closed());
}

#[test]
fn watcher_keeps_partial_line_buffered() {
    let mut watcher = Watcher::new("kb");
    assert_eq!(Vec::<String>::new(), watcher.on_chunk(b"activelayout>>kb,Ger").unwrap());
    let labels = watcher.on_chunk(b"man (DE)\n").unwrap();
    assert_eq!(vec!["German".to_string()], labels);
}

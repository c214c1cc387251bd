use hypr_kblayout::bootstrap::{bootstrap_label, get_active_layout};
use hypr_kblayout::error::KbError;

const BLOB: &str = "Keyboards:\n\tDevice: foo\n\t\tkeymap: English (US)\n\tDevice: bar";

#[test]
fn bootstrap_extracts_keymap() {
    assert_eq!(Ok("English (US)"), get_active_layout(BLOB, "foo"));
}

#[test]
fn bootstrap_derives_label() {
    assert_eq!(Ok("English".to_string()), bootstrap_label(BLOB, "foo"));
}

#[test]
fn bootstrap_missing_device_not_found() {
    assert_eq!(
        Err(KbError::LayoutNotFound("missing".to_string())),
        bootstrap_label(BLOB, "missing")
    );
}

#[test]
fn bootstrap_without_marker_malformed() {
    assert_eq!(
        Err(KbError::MalformedResponse),
        bootstrap_label("no keyboard section here", "foo")
    );
}

#[test]
fn bootstrap_undelimited_keymap_malformed() {
    let blob = "Keyboards:\n\tDevice: foo\n\t\tkeymap: English (US)";
    assert_eq!(Err(KbError::MalformedResponse), bootstrap_label(blob, "foo"));
}

#[test]
fn bootstrap_label_without_space_malformed() {
    let blob = "Keyboards:\n\tDevice: foo\n\t\tkeymap: English\n\tDevice: bar";
    assert_eq!(
        Err(KbError::MalformedLayout("English".to_string())),
        bootstrap_label(blob, "foo")
    );
}

use hypr_kblayout::error::KbError;

#[test]
fn message_layout_not_found() {
    let e = KbError::LayoutNotFound("foo".to_string());
    assert_eq!("Layout foo not found!", e.message());
}

#[test]
fn message_malformed_layout() {
    let e = KbError::MalformedLayout("English".to_string());
    assert_eq!(
        "Layout description without a language code: English",
        e.message()
    );
}

#[test]
fn message_other_variants() {
    assert_eq!("Malformed device report", KbError::MalformedResponse.message());
    assert_eq!("Line exceeds the framer capacity", KbError::LineTooLong.message());
    assert_eq!("Event line is not valid UTF-8", KbError::DecodeError.message());
}

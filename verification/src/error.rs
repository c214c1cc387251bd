//! Failures surfaced by the protocol layer. Parser-level rejections of noise
//! lines are not errors: the parsing functions report those as `None`.

use vstd::prelude::*;

verus! {

#[derive(Debug, PartialEq, Eq)]
pub enum KbError {
    /// The target device does not occur in the bootstrap device report.
    LayoutNotFound(String),
    /// A layout description carries no language code (no space to split on).
    MalformedLayout(String),
    /// The bootstrap response lacks one of its expected markers.
    MalformedResponse,
    /// The framer's buffer grew past the line capacity without a newline.
    LineTooLong,
    /// A framed line is not valid UTF-8.
    DecodeError,
}

impl KbError {
    /// A human-readable description of the failure.
    pub fn message(&self) -> (r: String)
        ensures
            match self {
                KbError::LayoutNotFound(s) => r@ == "Layout "@ + s@ + " not found!"@,
                KbError::MalformedLayout(s) => r@ == "Layout description without a language code: "@
                    + s@,
                KbError::MalformedResponse => r@ == "Malformed device report"@,
                KbError::LineTooLong => r@ == "Line exceeds the framer capacity"@,
                KbError::DecodeError => r@ == "Event line is not valid UTF-8"@,
            },
    {
        match self {
            KbError::LayoutNotFound(s) => "Layout ".to_owned().concat(s.as_str()).concat(
                " not found!",
            ),
            KbError::MalformedLayout(s) => "Layout description without a language code: ".to_owned()
                .concat(s.as_str()),
            KbError::MalformedResponse => "Malformed device report".to_owned(),
            KbError::LineTooLong => "Line exceeds the framer capacity".to_owned(),
            KbError::DecodeError => "Event line is not valid UTF-8".to_owned(),
        }
    }
}

} // verus!

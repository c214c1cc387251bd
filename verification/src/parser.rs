//! The event parser: decides whether a raw line from the subscription stream
//! is a layout-change event for the target device and extracts its fields.
//!
//! Protocol shape: `name>>payload\n`, relevant name `activelayout`, payload
//! `device-name,layout-description` where the device name may itself contain
//! commas, so the split anchors on the last comma.

use vstd::prelude::*;

use crate::error::KbError;
use crate::search::{
    char_first_at, char_last_at, has_char, first_char_at, find_char, rfind_char, str_eq,
    lemma_char_first_at_unique, lemma_char_last_at_unique, lemma_char_first_pins,
};

verus! {

/// The line names the `activelayout` event: its text before the first `>` is
/// exactly that event name.
pub open spec fn valid_event(s: Seq<char>) -> bool {
    exists|i: int| char_first_at(s, '>', i) && s.subrange(0, i) == "activelayout"@
}

/// With `i` the position of the last `>` of `s` and `k` the position of the
/// last comma of the payload after it, the payload splits into `name` before
/// and `layout` after that comma.
pub open spec fn payload_splits(
    s: Seq<char>,
    i: int,
    k: int,
    name: Seq<char>,
    layout: Seq<char>,
) -> bool {
    let data = s.subrange(i + 1, s.len() as int);
    &&& char_last_at(s, '>', i)
    &&& char_last_at(data, ',', k)
    &&& name == data.subrange(0, k)
    &&& layout == data.subrange(k + 1, data.len() as int)
}

/// The line is an `activelayout` event whose device name is exactly `target`
/// and whose extracted fields are `name` and `layout`.
pub open spec fn parses_to(
    s: Seq<char>,
    target: Seq<char>,
    name: Seq<char>,
    layout: Seq<char>,
) -> bool {
    &&& valid_event(s)
    &&& name == target
    &&& exists|i: int, k: int| payload_splits(s, i, k, name, layout)
}

/// Some device name and layout make the line an accepted event for `target`.
pub open spec fn accepted(s: Seq<char>, target: Seq<char>) -> bool {
    exists|name: Seq<char>, layout: Seq<char>| parses_to(s, target, name, layout)
}

/// The short label of a layout description: its text up to the first space.
/// Meaningful only when the description has a space.
pub open spec fn label_of(desc: Seq<char>) -> Seq<char> {
    desc.subrange(0, first_char_at(desc, ' '))
}

proof fn lemma_not_valid_not_accepted(s: Seq<char>, target: Seq<char>)
    requires
        !valid_event(s),
    ensures
        !accepted(s, target),
{
    assert forall|name: Seq<char>, layout: Seq<char>| !parses_to(s, target, name, layout) by {}
}

/// A line without the `>` delimiter is never an event.
pub proof fn lemma_no_delimiter_no_event(s: Seq<char>, target: Seq<char>)
    requires
        !has_char(s, '>'),
    ensures
        !accepted(s, target),
{
    assert forall|j: int| !char_first_at(s, '>', j) by {
        if char_first_at(s, '>', j) {
            assert(0 <= j < s.len() && s[j] == '>');
        }
    }
    assert(!valid_event(s));
    lemma_not_valid_not_accepted(s, target);
}

/// A line whose event name (the text before its first `>`) is not
/// `activelayout` is never an event, whatever its payload.
pub proof fn lemma_wrong_name_no_event(s: Seq<char>, target: Seq<char>, i: int)
    requires
        char_first_at(s, '>', i),
        s.subrange(0, i) != "activelayout"@,
    ensures
        !accepted(s, target),
{
    assert forall|j: int| !(char_first_at(s, '>', j) && s.subrange(0, j) == "activelayout"@) by {
        if char_first_at(s, '>', j) {
            lemma_char_first_at_unique(s, '>', i, j);
        }
    }
    assert(!valid_event(s));
    lemma_not_valid_not_accepted(s, target);
}

/// Parsing is pure: the accepted fields are a function of the line and the
/// target alone, so parsing the same line twice gives the same result.
pub proof fn lemma_parse_deterministic(
    s: Seq<char>,
    target: Seq<char>,
    n1: Seq<char>,
    l1: Seq<char>,
    n2: Seq<char>,
    l2: Seq<char>,
)
    requires
        parses_to(s, target, n1, l1),
        parses_to(s, target, n2, l2),
    ensures
        n1 == n2,
        l1 == l2,
{
    let (i1, k1) = choose|i: int, k: int| payload_splits(s, i, k, n1, l1);
    let (i2, k2) = choose|i: int, k: int| payload_splits(s, i, k, n2, l2);
    lemma_char_last_at_unique(s, '>', i1, i2);
    let data = s.subrange(i1 + 1, s.len() as int);
    lemma_char_last_at_unique(data, ',', k1, k2);
}

/// One accepted `activelayout` event: the device the event is for and the
/// full layout description it reports.
///
/// The fields are owned copies of the two payload slices, so the event
/// remains valid after the read buffer that held the raw line is reused.
#[derive(Debug, PartialEq, Eq)]
pub struct KeyboardConfig {
    pub keyboard_name: String,
    pub layout: String,
}

impl KeyboardConfig {
    /// Parse one raw line, accepting it only as an `activelayout` event whose
    /// device name equals `target_name` exactly; anything else is noise and
    /// is rejected silently.
    pub fn new(raw_str: &str, target_name: &str) -> (r: Option<KeyboardConfig>)
        ensures
            match r {
                Some(c) => parses_to(raw_str@, target_name@, c.keyboard_name@, c.layout@),
                None => !accepted(raw_str@, target_name@),
            },
    {
        let ghost s = raw_str@;
        let ghost t = target_name@;
        if !Self::event_valid(raw_str) {
            proof {
                lemma_not_valid_not_accepted(s, t);
            }
            return None;
        }
        let data = match Self::get_data(raw_str) {
            Some(d) => d,
            None => {
                proof {
                    let j = choose|j: int|
                        char_first_at(s, '>', j) && s.subrange(0, j) == "activelayout"@;
                    assert(0 <= j < s.len() && s[j] == '>');
                    assert(false);
                }
                return None;
            },
        };
        let ghost i = choose|i: int|
            char_last_at(s, '>', i) && data@ == s.subrange(i + 1, s.len() as int);
        let k = match rfind_char(data, ',') {
            Some(k) => k,
            None => {
                proof {
                    assert forall|n1: Seq<char>, l1: Seq<char>| !parses_to(s, t, n1, l1) by {
                        if parses_to(s, t, n1, l1) {
                            let (i2, k2) = choose|i2: int, k2: int|
                                payload_splits(s, i2, k2, n1, l1);
                            lemma_char_last_at_unique(s, '>', i, i2);
                            assert(char_last_at(data@, ',', k2));
                            assert(0 <= k2 < data@.len() && data@[k2] == ',');
                        }
                    }
                    assert(!accepted(s, t));
                }
                return None;
            },
        };
        let dn = data.unicode_len();
        let keyboard_name = data.substring_char(0, k);
        let layout = data.substring_char(k + 1, dn);
        if !str_eq(keyboard_name, target_name) {
            proof {
                assert forall|n1: Seq<char>, l1: Seq<char>| !parses_to(s, t, n1, l1) by {
                    if parses_to(s, t, n1, l1) {
                        let (i2, k2) = choose|i2: int, k2: int| payload_splits(s, i2, k2, n1, l1);
                        lemma_char_last_at_unique(s, '>', i, i2);
                        lemma_char_last_at_unique(data@, ',', k as int, k2);
                        assert(n1 == data@.subrange(0, k as int));
                    }
                }
                assert(!accepted(s, t));
            }
            return None;
        }
        let r = KeyboardConfig { keyboard_name: keyboard_name.to_owned(), layout: layout.to_owned() };
        proof {
            assert(payload_splits(s, i, k as int, r.keyboard_name@, r.layout@));
        }
        Some(r)
    }

    /// Is the text before the first `>` exactly the event name
    /// `activelayout`?
    pub fn event_valid(raw_str: &str) -> (r: bool)
        ensures
            r == valid_event(raw_str@),
    {
        match find_char(raw_str, '>') {
            Some(i) => {
                let event = raw_str.substring_char(0, i);
                let r = str_eq(event, "activelayout");
                proof {
                    if r {
                        assert(char_first_at(raw_str@, '>', i as int) && raw_str@.subrange(
                            0,
                            i as int,
                        ) == "activelayout"@);
                    } else {
                        assert forall|j: int|
                            !(char_first_at(raw_str@, '>', j) && raw_str@.subrange(0, j)
                                == "activelayout"@) by {
                            if char_first_at(raw_str@, '>', j) {
                                lemma_char_first_at_unique(raw_str@, '>', i as int, j);
                            }
                        }
                    }
                }
                r
            },
            None => {
                proof {
                    assert forall|j: int| !char_first_at(raw_str@, '>', j) by {
                        if char_first_at(raw_str@, '>', j) {
                            assert(0 <= j < raw_str@.len() && raw_str@[j] == '>');
                        }
                    }
                }
                false
            },
        }
    }

    /// The payload: everything strictly after the last `>` of the line.
    pub fn get_data<'a>(raw_str: &'a str) -> (r: Option<&'a str>)
        ensures
            match r {
                Some(d) => exists|i: int|
                    char_last_at(raw_str@, '>', i) && d@ == raw_str@.subrange(
                        i + 1,
                        raw_str@.len() as int,
                    ),
                None => !has_char(raw_str@, '>'),
            },
    {
        match rfind_char(raw_str, '>') {
            Some(i) => {
                let n = raw_str.unicode_len();
                let d = raw_str.substring_char(i + 1, n);
                proof {
                    assert(char_last_at(raw_str@, '>', i as int) && d@ == raw_str@.subrange(
                        i + 1,
                        raw_str@.len() as int,
                    ));
                }
                Some(d)
            },
            None => None,
        }
    }

    /// The device name the event reports on.
    pub fn keyboard_name(&self) -> (r: &str)
        ensures
            r@ == self.keyboard_name@,
    {
        self.keyboard_name.as_str()
    }

    /// The full layout description the event carries.
    pub fn layout(&self) -> (r: &str)
        ensures
            r@ == self.layout@,
    {
        self.layout.as_str()
    }
}

/// Derive the short label of a layout description: its text up to (not
/// including) the first space. A description without a space carries no
/// separable language code and is reported as a malformed-layout error
/// rather than returned whole.
pub fn layout_label<'a>(description: &'a str) -> (r: Result<&'a str, KbError>)
    ensures
        match r {
            Ok(l) => has_char(description@, ' ') && l@ == label_of(description@),
            Err(e) => !has_char(description@, ' ') && (e matches KbError::MalformedLayout(d)
                && d@ == description@),
        },
{
    match find_char(description, ' ') {
        Some(i) => {
            proof {
                lemma_char_first_pins(description@, ' ', i as int);
                assert(0 <= i < description@.len() && description@[i as int] == ' ');
            }
            Ok(description.substring_char(0, i))
        },
        None => Err(KbError::MalformedLayout(description.to_owned())),
    }
}

} // verus!

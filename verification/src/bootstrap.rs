//! The bootstrap query: a one-shot request/response exchange at startup. The
//! response is a free-form, tab-indented device report; these functions
//! extract the layout currently active for a named device from it, so the
//! watcher can publish the present state before any change event arrives.

use vstd::prelude::*;

use crate::error::KbError;
use crate::parser::{label_of, layout_label};
use crate::search::{has_char, has_first, first_at, find_str, lemma_first_at_pins};

verus! {

/// The report from its `Keyboards:` marker on. Meaningful only when
/// `has_kb_marker` holds, and so on down the chain.
pub open spec fn kb_section(msg: Seq<char>) -> Seq<char> {
    msg.skip(first_at(msg, "Keyboards:"@))
}

/// The keyboard section from the first occurrence of the target device on.
pub open spec fn device_section(msg: Seq<char>, target: Seq<char>) -> Seq<char> {
    kb_section(msg).skip(first_at(kb_section(msg), target))
}

/// The device section from one character past the colon of its first
/// `keymap:` field on.
pub open spec fn keymap_tail(msg: Seq<char>, target: Seq<char>) -> Seq<char> {
    device_section(msg, target).skip(first_at(device_section(msg, target), "keymap:"@) + 8)
}

/// The extracted keymap value: the tail cut at the next tab-indented line.
pub open spec fn keymap_value(msg: Seq<char>, target: Seq<char>) -> Seq<char> {
    keymap_tail(msg, target).take(first_at(keymap_tail(msg, target), "\n\t"@))
}

/// The report has its `Keyboards:` section marker.
pub open spec fn has_kb_marker(msg: Seq<char>) -> bool {
    has_first(msg, "Keyboards:"@)
}

/// The target device occurs in the keyboard section.
pub open spec fn device_found(msg: Seq<char>, target: Seq<char>) -> bool {
    &&& has_kb_marker(msg)
    &&& has_first(kb_section(msg), target)
}

/// A `keymap:` field follows the device, with room for a value to begin one
/// character past its colon.
pub open spec fn keymap_found(msg: Seq<char>, target: Seq<char>) -> bool {
    &&& device_found(msg, target)
    &&& has_first(device_section(msg, target), "keymap:"@)
    &&& first_at(device_section(msg, target), "keymap:"@) + 8 <= device_section(
        msg,
        target,
    ).len()
}

/// The keymap value is delimited by a following tab-indented line.
pub open spec fn keymap_delimited(msg: Seq<char>, target: Seq<char>) -> bool {
    &&& keymap_found(msg, target)
    &&& has_first(keymap_tail(msg, target), "\n\t"@)
}

/// Extract the layout description currently associated with `target_kb`
/// from one response blob. A report without the `Keyboards:` marker or with
/// an undelimited `keymap:` field is a protocol violation; a report without
/// the device is the recoverable lookup failure.
pub fn get_active_layout<'a>(msg: &'a str, target_kb: &str) -> (r: Result<&'a str, KbError>)
    ensures
        match r {
            Ok(v) => keymap_delimited(msg@, target_kb@) && v@ == keymap_value(msg@, target_kb@),
            Err(e) => match e {
                KbError::LayoutNotFound(t) => has_kb_marker(msg@) && !device_found(
                    msg@,
                    target_kb@,
                ) && t@ == target_kb@,
                KbError::MalformedResponse => !has_kb_marker(msg@) || (device_found(
                    msg@,
                    target_kb@,
                ) && !keymap_delimited(msg@, target_kb@)),
                _ => false,
            },
        },
{
    let i0 = match find_str(msg, "Keyboards:") {
        Some(i) => i,
        None => {
            return Err(KbError::MalformedResponse);
        },
    };
    proof {
        lemma_first_at_pins(msg@, "Keyboards:"@, i0 as int);
    }
    let n = msg.unicode_len();
    let kmap0 = msg.substring_char(i0, n);
    proof {
        assert(kmap0@ == kb_section(msg@));
    }
    let i1 = match find_str(kmap0, target_kb) {
        Some(i) => i,
        None => {
            return Err(KbError::LayoutNotFound(target_kb.to_owned()));
        },
    };
    proof {
        lemma_first_at_pins(kmap0@, target_kb@, i1 as int);
    }
    let n0 = kmap0.unicode_len();
    let kmap1 = kmap0.substring_char(i1, n0);
    proof {
        assert(kmap1@ == device_section(msg@, target_kb@));
    }
    let i2 = match find_str(kmap1, "keymap:") {
        Some(i) => i,
        None => {
            return Err(KbError::MalformedResponse);
        },
    };
    proof {
        lemma_first_at_pins(kmap1@, "keymap:"@, i2 as int);
    }
    let n1 = kmap1.unicode_len();
    if n1 - i2 < 8 {
        return Err(KbError::MalformedResponse);
    }
    let kmap2 = kmap1.substring_char(i2 + 8, n1);
    proof {
        assert(kmap2@ == keymap_tail(msg@, target_kb@));
    }
    let i3 = match find_str(kmap2, "\n\t") {
        Some(i) => i,
        None => {
            return Err(KbError::MalformedResponse);
        },
    };
    proof {
        lemma_first_at_pins(kmap2@, "\n\t"@, i3 as int);
    }
    let v = kmap2.substring_char(0, i3);
    proof {
        assert(v@ == keymap_value(msg@, target_kb@));
    }
    Ok(v)
}

/// The label published at startup: the keymap value of the target device,
/// cut at its first space.
pub fn bootstrap_label(msg: &str, target_kb: &str) -> (r: Result<String, KbError>)
    ensures
        match r {
            Ok(l) => keymap_delimited(msg@, target_kb@) && has_char(
                keymap_value(msg@, target_kb@),
                ' ',
            ) && l@ == label_of(keymap_value(msg@, target_kb@)),
            Err(e) => match e {
                KbError::LayoutNotFound(t) => has_kb_marker(msg@) && !device_found(
                    msg@,
                    target_kb@,
                ) && t@ == target_kb@,
                KbError::MalformedResponse => !has_kb_marker(msg@) || (device_found(
                    msg@,
                    target_kb@,
                ) && !keymap_delimited(msg@, target_kb@)),
                KbError::MalformedLayout(d) => keymap_delimited(msg@, target_kb@) && d@
                    == keymap_value(msg@, target_kb@) && !has_char(
                    keymap_value(msg@, target_kb@),
                    ' ',
                ),
                _ => false,
            },
        },
{
    let desc = match get_active_layout(msg, target_kb) {
        Ok(v) => v,
        Err(e) => {
            return Err(e);
        },
    };
    match layout_label(desc) {
        Ok(l) => Ok(l.to_owned()),
        Err(e) => Err(e),
    }
}

} // verus!

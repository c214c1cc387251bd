//! The watch loop's decision core: feed each raw read from the subscription
//! transport into the framer, drain every complete line, run the parser on
//! it, and collect the labels to publish. The caller performs the reads and
//! the publishing; everything between them is decided and proved here.

use vstd::prelude::*;
use vstd::string::StringSliceAdditionalSpecFns;
use vstd::utf8::{valid_utf8, decode_utf8, encode_utf8_decode_utf8};

use crate::error::KbError;
use crate::framer::{LineFramer, LINE_LIMIT, has_nl, nl_first_at, lemma_nl_first_at_unique};
use crate::parser::{
    accepted, parses_to, label_of, layout_label, lemma_parse_deterministic, KeyboardConfig,
};
use crate::search::has_char;

verus! {

/// Handle one framed line: the label to publish, if the line is an accepted
/// layout event for the target; nothing for noise lines; an error for an
/// accepted event whose layout carries no language code.
pub fn watch_line(msg: &str, target_name: &str) -> (r: Result<Option<String>, KbError>)
    ensures
        match r {
            Ok(Some(lbl)) => exists|n: Seq<char>, l: Seq<char>|
                parses_to(msg@, target_name@, n, l) && has_char(l, ' ') && lbl@ == label_of(l),
            Ok(None) => !accepted(msg@, target_name@),
            Err(e) => exists|n: Seq<char>, l: Seq<char>|
                parses_to(msg@, target_name@, n, l) && !has_char(l, ' ') && (e matches
                KbError::MalformedLayout(d) && d@ == l),
        },
{
    match KeyboardConfig::new(msg, target_name) {
        None => Ok(None),
        Some(conf) => match layout_label(conf.layout()) {
            Ok(l) => {
                proof {
                    assert(parses_to(msg@, target_name@, conf.keyboard_name@, conf.layout@)
                        && has_char(conf.layout@, ' ') && l@ == label_of(conf.layout@));
                }
                Ok(Some(l.to_owned()))
            },
            Err(e) => {
                proof {
                    assert(parses_to(msg@, target_name@, conf.keyboard_name@, conf.layout@)
                        && !has_char(conf.layout@, ' ') && (e matches KbError::MalformedLayout(d)
                        && d@ == conf.layout@));
                }
                Err(e)
            },
        },
    }
}

/// Relies on std::str::from_utf8: it succeeds exactly on valid UTF-8 input,
/// and the returned text is a view of the very bytes it was given.
#[verifier::external_body]
fn bytes_to_str(v: &[u8]) -> (r: Option<&str>)
    ensures
        match r {
            Some(s) => valid_utf8(v@) && s.spec_bytes() == v@,
            None => !valid_utf8(v@),
        },
{
    std::str::from_utf8(v).ok()
}

/// Some prefix of `b` is a complete line.
pub open spec fn has_line(b: Seq<u8>) -> bool {
    exists|i: int| nl_first_at(b, i)
}

/// The position of the terminator of the first complete line of `b`;
/// meaningful only when `has_line(b)` holds.
pub open spec fn first_nl(b: Seq<u8>) -> int {
    choose|i: int| nl_first_at(b, i)
}

/// The layout field of an accepted line; meaningful only under `accepted`.
pub open spec fn layout_field(s: Seq<char>, target: Seq<char>) -> Seq<char> {
    (choose|n: Seq<char>, l: Seq<char>| parses_to(s, target, n, l)).1
}

/// One line is handled without a fatal error: it decodes as text, and if it
/// is an accepted event its layout has a language code to cut at.
pub open spec fn line_clean(line: Seq<u8>, target: Seq<char>) -> bool {
    &&& valid_utf8(line)
    &&& (accepted(decode_utf8(line), target) ==> has_char(
        layout_field(decode_utf8(line), target),
        ' ',
    ))
}

/// Every complete line of `b` is clean, and the trailing partial line is
/// still within the framer's capacity.
pub open spec fn all_lines_clean(b: Seq<u8>, target: Seq<char>) -> bool
    decreases b.len(),
{
    if has_line(b) {
        let i = first_nl(b);
        &&& line_clean(b.subrange(0, i), target)
        &&& all_lines_clean(b.subrange(i + 1, b.len() as int), target)
    } else {
        b.len() <= LINE_LIMIT
    }
}

/// The labels drained from the complete lines of `b`, in stream order.
pub open spec fn drain_labels(b: Seq<u8>, target: Seq<char>) -> Seq<Seq<char>>
    decreases b.len(),
{
    if has_line(b) {
        let i = first_nl(b);
        let s = decode_utf8(b.subrange(0, i));
        let rest = drain_labels(b.subrange(i + 1, b.len() as int), target);
        if accepted(s, target) && has_char(layout_field(s, target), ' ') {
            seq![label_of(layout_field(s, target))] + rest
        } else {
            rest
        }
    } else {
        Seq::empty()
    }
}

/// The bytes still buffered once every complete line of `b` is drained.
pub open spec fn drained_rest(b: Seq<u8>) -> Seq<u8>
    decreases b.len(),
{
    if has_line(b) {
        drained_rest(b.subrange(first_nl(b) + 1, b.len() as int))
    } else {
        b
    }
}

/// Where the subscription loop stands. Neither closed state is ever left:
/// the watcher does not reconnect.
#[derive(Debug, PartialEq, Eq)]
pub enum WatchState {
    /// Connected and consuming the stream.
    Running,
    /// The transport reported an orderly end of stream.
    ClosedNormal,
    /// A fatal protocol violation ended the watch.
    ClosedError,
}

/// Drives framing and parsing over the subscription stream: each call hands
/// in one raw read, and out come the labels to publish, in order.
pub struct Watcher {
    framer: LineFramer,
    target: String,
    state: WatchState,
}

impl Watcher {
    /// The device filter this watcher was configured with.
    pub closed spec fn spec_target(&self) -> Seq<char> {
        self.target@
    }

    /// The bytes buffered and not yet framed into a line.
    pub closed spec fn buffered(&self) -> Seq<u8> {
        self.framer@
    }

    /// Where the loop stands.
    pub closed spec fn spec_state(&self) -> WatchState {
        self.state
    }

    /// A fresh watcher for the given target device, with nothing buffered.
    pub fn new(target_name: &str) -> (r: Watcher)
        ensures
            r.spec_target() == target_name@,
            r.buffered() == Seq::<u8>::empty(),
            r.spec_state() == WatchState::Running,
    {
        Watcher { framer: LineFramer::new(), target: target_name.to_owned(), state: WatchState::Running }
    }

    /// Is the watch over (either closed state)?
    pub fn is_closed(&self) -> (r: bool)
        ensures
            r == (self.spec_state() != WatchState::Running),
    {
        match self.state {
            WatchState::Running => false,
            WatchState::ClosedNormal => true,
            WatchState::ClosedError => true,
        }
    }

    /// Feed one raw read from the subscription transport. An empty read is
    /// the orderly end of the stream and closes the watch. Otherwise the
    /// bytes are buffered and every complete line is drained: noise lines
    /// are skipped, accepted events yield their labels in stream order, and
    /// the first fatal violation (an undecodable line, a label-less layout,
    /// an unframeable stream) closes the watch with its error.
    pub fn on_chunk(&mut self, chunk: &[u8]) -> (r: Result<Vec<String>, KbError>)
        requires
            old(self).spec_state() == WatchState::Running,
        ensures
            final(self).spec_target() == old(self).spec_target(),
            chunk@.len() == 0 ==> (r matches Ok(v) && v@.len() == 0 && final(self).spec_state()
                == WatchState::ClosedNormal && final(self).buffered() == old(self).buffered()),
            chunk@.len() > 0 ==> (r matches Ok(v) ==> all_lines_clean(
                old(self).buffered() + chunk@,
                old(self).spec_target(),
            ) && v@.map_values(|s: String| s@) == drain_labels(
                old(self).buffered() + chunk@,
                old(self).spec_target(),
            ) && final(self).buffered() == drained_rest(old(self).buffered() + chunk@)
                && final(self).spec_state() == WatchState::Running),
            chunk@.len() > 0 ==> (r is Err ==> !all_lines_clean(
                old(self).buffered() + chunk@,
                old(self).spec_target(),
            ) && final(self).spec_state() == WatchState::ClosedError),
            r matches Err(e) ==> (e matches KbError::MalformedLayout(_) || e matches
                KbError::LineTooLong || e matches KbError::DecodeError),
    {
        if chunk.len() == 0 {
            self.state = WatchState::ClosedNormal;
            return Ok(Vec::new());
        }
        self.framer.push_bytes(chunk);
        let ghost b0 = self.framer@;
        let ghost t = self.target@;
        let mut out: Vec<String> = Vec::new();
        proof {
            assert(out@.map_values(|s: String| s@) + drain_labels(b0, t) =~= drain_labels(b0, t));
        }
        loop
            invariant
                t == old(self).spec_target(),
                b0 == old(self).buffered() + chunk@,
                chunk@.len() > 0,
                self.target@ == t,
                self.state == WatchState::Running,
                drain_labels(b0, t) == out@.map_values(|s: String| s@) + drain_labels(
                    self.framer@,
                    t,
                ),
                all_lines_clean(b0, t) == all_lines_clean(self.framer@, t),
                drained_rest(b0) == drained_rest(self.framer@),
            decreases self.framer@.len(),
        {
            let ghost pre = self.framer@;
            match self.framer.next_line() {
                Err(e) => {
                    proof {
                        lemma_no_nl_no_line(pre);
                    }
                    self.state = WatchState::ClosedError;
                    return Err(e);
                },
                Ok(None) => {
                    proof {
                        lemma_no_nl_no_line(pre);
                        assert(out@.map_values(|s: String| s@) + drain_labels(pre, t)
                            =~= out@.map_values(|s: String| s@));
                    }
                    return Ok(out);
                },
                Ok(Some(line)) => {
                    proof {
                        let i = choose|i: int|
                            nl_first_at(pre, i) && line@ == pre.subrange(0, i) && self.framer@
                                == pre.subrange(i + 1, pre.len() as int);
                        assert(has_line(pre));
                        assert(nl_first_at(pre, first_nl(pre)));
                        lemma_nl_first_at_unique(pre, i, first_nl(pre));
                    }
                    let msg = match bytes_to_str(line.as_slice()) {
                        Some(m) => m,
                        None => {
                            proof {
                                assert(!line_clean(line@, t));
                                assert(!all_lines_clean(pre, t));
                            }
                            self.state = WatchState::ClosedError;
                            return Err(KbError::DecodeError);
                        },
                    };
                    proof {
                        encode_utf8_decode_utf8(msg@);
                        assert(msg@ == decode_utf8(line@));
                    }
                    match watch_line(msg, self.target.as_str()) {
                        Err(e) => {
                            proof {
                                let (n1, l1) = choose|n1: Seq<char>, l1: Seq<char>|
                                    parses_to(msg@, t, n1, l1) && !has_char(l1, ' ') && (e matches
                                    KbError::MalformedLayout(d) && d@ == l1);
                                assert(accepted(msg@, t));
                                let picked = choose|n: Seq<char>, l: Seq<char>|
                                    parses_to(msg@, t, n, l);
                                lemma_parse_deterministic(msg@, t, n1, l1, picked.0, picked.1);
                                assert(!has_char(layout_field(msg@, t), ' '));
                                assert(!line_clean(line@, t));
                                assert(!all_lines_clean(pre, t));
                            }
                            self.state = WatchState::ClosedError;
                            return Err(e);
                        },
                        Ok(None) => {
                            proof {
                                assert(line_clean(line@, t));
                                assert(drain_labels(pre, t) == drain_labels(self.framer@, t));
                            }
                        },
                        Ok(Some(lbl)) => {
                            proof {
                                let (n1, l1) = choose|n1: Seq<char>, l1: Seq<char>|
                                    parses_to(msg@, t, n1, l1) && has_char(l1, ' ') && lbl@
                                        == label_of(l1);
                                assert(accepted(msg@, t));
                                let picked = choose|n: Seq<char>, l: Seq<char>|
                                    parses_to(msg@, t, n, l);
                                lemma_parse_deterministic(msg@, t, n1, l1, picked.0, picked.1);
                                assert(has_char(layout_field(msg@, t), ' '));
                                assert(lbl@ == label_of(layout_field(msg@, t)));
                                assert(line_clean(line@, t));
                                assert(drain_labels(pre, t) == seq![label_of(
                                    layout_field(msg@, t),
                                )] + drain_labels(self.framer@, t));
                                assert((out@ + seq![lbl]).map_values(|s: String| s@)
                                    =~= out@.map_values(|s: String| s@) + seq![lbl@]);
                                assert(out@.map_values(|s: String| s@) + seq![lbl@] + drain_labels(
                                    self.framer@,
                                    t,
                                ) =~= out@.map_values(|s: String| s@) + (seq![lbl@] + drain_labels(
                                    self.framer@,
                                    t,
                                )));
                            }
                            out.push(lbl);
                        },
                    }
                },
            }
        }
    }
}

proof fn lemma_no_nl_no_line(b: Seq<u8>)
    requires
        !has_nl(b),
    ensures
        !has_line(b),
{
    assert forall|i: int| !nl_first_at(b, i) by {
        if nl_first_at(b, i) {
            assert(0 <= i < b.len() && b[i] == 10u8);
        }
    }
}

} // verus!

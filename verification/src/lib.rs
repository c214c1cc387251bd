//! Protocol layer for a keyboard-layout watcher: line framing over a byte
//! stream, parsing of `activelayout` events, and extraction of the current
//! layout from the compositor's one-shot device report.

pub mod bootstrap;
pub mod error;
pub mod framer;
pub mod parser;
pub mod search;
pub mod watch;

//! A shortcut store and expansion engine.
//!
//! A store is a key-to-value mapping kept in a flat text file, one
//! `key = value` line per entry.  The expander scans an input string for
//! bracketed tokens such as `[home]` and replaces each with the stored
//! value for its key, falling back to a built-in escape for `[rn]`.

pub mod expand;
pub mod manager;
pub mod store;
pub mod text;

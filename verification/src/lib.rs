//! Core of a vocabulary-drill tool: a line-based flat-file codec for
//! word/translation records, an in-memory store split into the entries that
//! may be shown now and those resting on a timeout, and a deterministic
//! pseudo-random generator used to pick the next word.
//!
//! All scheduling decisions are pure: the current time enters every function
//! as a plain number of seconds since the epoch, so the whole core is
//! verified; file reading and writing live outside the library.

pub mod codec;
pub mod db;
pub mod entry;
pub mod rng;

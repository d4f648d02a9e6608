//! The command line: which options are accepted, and what is done in which order.

use vstd::prelude::*;

pub mod options;
pub mod run;
pub mod speaker;

verus! {

/// The exit code of a run that spoke all of its text.
pub const OK: i32 = 0;

/// The exit code of a run that failed, or had nothing to speak.
pub const NOTHING_SPOKEN: i32 = 1;

/// The exit code of a run whose options are refused.
pub const USAGE: i32 = 2;

/// The exit code of a run that was interrupted.
pub const INTERRUPTED: i32 = 130;

} // verus!

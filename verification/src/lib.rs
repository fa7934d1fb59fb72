use vstd::prelude::*;

pub mod laws;
pub mod ledger;
pub mod text;
pub mod tracker;
pub mod width;

verus! {

/// Milliseconds of continuous user inactivity after which time is counted
/// as idle rather than as window time.
pub const IDLE_THRESHOLD_MS: u64 = 60000;

/// Fixed delay between two focus samples, in milliseconds.
pub const POLL_INTERVAL_MS: u64 = 500;

/// Display columns reserved for the window-title column of the report.
pub const TITLE_WIDTH: usize = 40;

} // verus!

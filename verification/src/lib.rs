//! Core pipeline of a two-channel sensor acquisition system: bounded
//! sample channels, sliding time-windowed series, per-epoch rolling
//! statistics, and the closed-loop stimulation trigger.
//!
//! Values and timestamps are carried as fixed-point integers: one unit
//! of measurement is `SCALE` ticks, so a reading of 2.5 units is stored
//! as `5 * SCALE / 2`. The unverified binary converts hardware readings
//! to and from this representation at the process boundary.
use vstd::prelude::*;

pub mod epoch;
pub mod measurements;
pub mod ornstein;
pub mod panel;
pub mod parse;
pub mod replay;
pub mod session;
pub mod stim;
pub mod structs;
pub mod threadedchannel;
pub mod trigger;
pub mod util;

verus! {

/// Fixed-point scale: number of ticks per whole unit.
pub const SCALE: i64 = 1_000_000;

/// Largest magnitude (in ticks) a sample value, score or statistic may
/// take. Keeping values inside this range lets every sum, square and
/// product in the statistics fit their machine integers.
pub const VAL_BOUND: i64 = 0x100_0000_0000;

} // verus!

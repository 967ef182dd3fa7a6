//! Shared run-time configuration of the pipeline.
use vstd::prelude::*;

verus! {

/// Operator-adjustable parameters shared by the pipeline and the
/// rendering boundary.
#[derive(Debug, Clone, Copy)]
pub struct RasaVariables {
    pub show_box: bool,
    /// How many seconds the plotted windows look backward.
    pub look_behind: usize,
    /// Decimation: raw ticks consumed per value forwarded into the
    /// slower feature-window path.
    pub skip: usize,
    pub channels: usize,
}

} // verus!

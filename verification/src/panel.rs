//! View-model state behind the rendering boundary: what the reward
//! plot and the sidebar show, kept apart from any drawing toolkit.
use vstd::prelude::*;

use crate::measurements::MeasurementWindow;

verus! {

/// State backing the reward plot: the windowed series it draws from.
pub struct RewardPlot {
    pub measurements: MeasurementWindow,
}

impl RewardPlot {
    pub fn new(measurements: MeasurementWindow) -> (p: Self)
        ensures
            p.measurements == measurements,
    {
        Self { measurements }
    }
}

/// State backing the sidebar controls.
pub struct Sidebar {
    pub show_box: bool,
    pub sidebar_text: String,
}

impl Sidebar {
    pub fn new(show_box: bool) -> (s: Self)
        ensures
            s.show_box == show_box,
            s.sidebar_text@ == Seq::<char>::empty(),
    {
        Self { show_box, sidebar_text: String::new() }
    }
}

} // verus!

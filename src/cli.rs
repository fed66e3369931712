//! The run's configuration choices.
use vstd::prelude::*;

verus! {

/// How the seed points are placed.
#[derive(Copy, Clone, PartialEq, Eq, PartialOrd, Ord, Debug, Structural)]
pub enum Mode {
    GridWithN,
    GridWithD,
    PoissonDisk,
}

/// What is drawn once the points (and the cells) are computed.
#[derive(Copy, Clone, PartialEq, Eq, PartialOrd, Ord, Debug, Structural)]
pub enum PlotMode {
    Points,
    Jfa,
    Off,
}

/// Which engine floods the grid.
#[derive(Copy, Clone, PartialEq, Eq, PartialOrd, Ord, Debug, Structural)]
pub enum JfaMode {
    Cpu,
    Gpu,
    Off,
}

} // verus!

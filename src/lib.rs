//! Discrete Voronoi diagrams by jump flooding, and the cell polygons read
//! off the finished grid.
//!
//! - [`jfa`]: seeding and the sequential flood, with the exact result of every
//!   in-place pass stated as spec functions.
//! - [`coverage`]: what a flood guarantees (owned cells stay owned, seed cells
//!   keep their seed, full coverage on power-of-two grids).
//! - [`mesh`]: junction keys, subset removal and the walk into closed loops.
//! - [`layout`]: rows and columns for placing points on a regular grid.
//! - [`cli`]: the run's configuration choices.
use vstd::prelude::*;

pub mod cli;
pub mod coverage;
pub mod jfa;
pub mod layout;
pub mod mesh;

verus! {

/// Clamps a scaled coordinate into `[0, res - 1]`.
pub fn clamp_coord(v: usize, res: usize) -> (r: usize)
    requires
        res >= 1,
    ensures
        r == if v < res { v } else { (res - 1) as usize },
{
    if v < res {
        v
    } else {
        res - 1
    }
}

} // verus!

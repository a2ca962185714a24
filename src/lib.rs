//! A 2D heat-diffusion solver with a 5-point stencil, in several execution models that
//! all produce the grid of the sequential reference: a plain sweep, two row-bands that
//! exchange one ghost row per step, and a per-step pool of row chunks. The cell type and
//! the stencil kernel are the caller's; the kernel only has to be pure.
use vstd::prelude::*;

pub mod grid;
pub mod stencil;
pub mod driver;
pub mod partition;
pub mod schedule;
pub mod exchange;
pub mod codec;

verus! {

} // verus!

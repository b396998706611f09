//! # tile_fd_pricer
//!
//! The discrete, verified core of a deterministic finite-difference option
//! pricer: the grid and time-step sizing rules, the neighbour-local stencil
//! sweep, and the batching layout (four options per quad, thread slices
//! aligned to quads). The floating-point arithmetic of the pricer lives in the
//! companion application crate and calls into these functions.

use vstd::prelude::*;

pub mod batch;
pub mod black_scholes;
pub mod fd;
pub mod heston;

verus! {

/// Call or put.
#[derive(Clone, Copy, Debug, PartialEq, Eq, Structural)]
pub enum OptionType {
    Call,
    Put,
}

/// Exercise style. American options have no closed form and must be priced on
/// the grid.
#[derive(Clone, Copy, Debug, PartialEq, Eq, Structural)]
pub enum Exercise {
    European,
    American,
}

} // verus!

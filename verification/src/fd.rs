//! Finite-difference option pricing on a log-space grid: the discrete rules.
//!
//! The Black–Scholes PDE in `x = ln(S)` has constant coefficients, so one time
//! step is a three-point stencil `V'ᵢ = f(Vᵢ₋₁, Vᵢ, Vᵢ₊₁)`: every grid value is
//! a function of its immediate neighbours. This module holds the sweep that
//! applies such a kernel over the interior of a grid, the rule that sizes the
//! grid so the spot lands on a node, and the rule that chooses the number of
//! time steps for each scheme.

use vstd::prelude::*;

verus! {

/// Discretisation scheme.
#[derive(Clone, Copy, Debug, PartialEq, Eq, Structural)]
pub enum Scheme {
    /// Forward-Euler in time. Conditionally stable; this is the pure stencil.
    Explicit,
    /// Crank–Nicolson. Unconditionally stable, second-order in time.
    CrankNicolson,
}

/// Number of space intervals actually used for a requested `n_space`: the
/// request rounded up to an even number, so that node `n / 2` (the spot node)
/// is exactly the centre of the grid.
pub fn grid_intervals(n_space: usize) -> (n: usize)
    requires
        n_space < usize::MAX,
    ensures
        n % 2 == 0,
        n_space <= n <= n_space + 1,
        n_space % 2 == 0 ==> n == n_space,
{
    if n_space % 2 == 0 {
        n_space
    } else {
        n_space + 1
    }
}

/// Number of time steps a solve takes.
///
/// For [`Scheme::Explicit`] the request is raised to `stable`, the smallest
/// step count that satisfies the forward-Euler stability bound; for
/// [`Scheme::CrankNicolson`] (unconditionally stable) the request is kept.
/// Either way at least one step is taken.
pub fn time_steps(scheme: Scheme, n_time: usize, stable: usize) -> (steps: usize)
    ensures
        steps == match scheme {
            Scheme::Explicit => max3(n_time as int, stable as int, 1),
            Scheme::CrankNicolson => max3(n_time as int, 1, 1),
        },
        steps >= 1,
        steps >= n_time,
        scheme == Scheme::Explicit ==> steps >= stable,
        scheme == Scheme::Explicit ==> steps == n_time || steps == stable || steps == 1,
        scheme == Scheme::CrankNicolson ==> steps == n_time || steps == 1,
{
    let base = match scheme {
        Scheme::Explicit => if n_time >= stable { n_time } else { stable },
        Scheme::CrankNicolson => n_time,
    };
    if base >= 1 { base } else { 1 }
}

/// The largest of three integers.
pub open spec fn max3(a: int, b: int, c: int) -> int {
    let ab = if a >= b { a } else { b };
    if ab >= c { ab } else { c }
}

/// The explicit stencil sweep over the interior of a grid.
///
/// For every interior node `i` (`1 <= i < n - 1`), `dst[i]` becomes
/// `kernel(src[i - 1], src[i], src[i + 1])`; the two boundary nodes of `dst`
/// are left as they were, for the boundary conditions to set.
pub fn explicit_step<T: Copy, F: Fn(T, T, T) -> T>(src: &[T], dst: &mut [T], kernel: F)
    requires
        1 <= src@.len(),
        old(dst)@.len() == src@.len(),
        forall|i: int|
            1 <= i < src@.len() - 1 ==> #[trigger] call_requires(kernel, (src@[i - 1], src@[i], src@[i + 1])),
    ensures
        final(dst)@.len() == src@.len(),
        final(dst)@[0] == old(dst)@[0],
        final(dst)@[src@.len() - 1] == old(dst)@[src@.len() - 1],
        forall|i: int|
            1 <= i < src@.len() - 1 ==> call_ensures(
                kernel,
                (src@[i - 1], src@[i], src@[i + 1]),
                #[trigger] final(dst)@[i],
            ),
{
    let n = src.len();
    let mut i: usize = 1;
    while i < n - 1
        invariant
            1 <= i <= n,
            n == src@.len(),
            dst@.len() == n,
            dst@[0] == old(dst)@[0],
            dst@[n - 1] == old(dst)@[n - 1],
            forall|k: int|
                1 <= k < n - 1 ==> #[trigger] call_requires(kernel, (src@[k - 1], src@[k], src@[k + 1])),
            forall|k: int|
                1 <= k < i && k < n - 1 ==> call_ensures(
                    kernel,
                    (src@[k - 1], src@[k], src@[k + 1]),
                    #[trigger] dst@[k],
                ),
        decreases n - i,
    {
        let value = kernel(src[i - 1], src[i], src[i + 1]);
        dst[i] = value;
        i = i + 1;
    }
}

} // verus!

//! Heston stochastic-volatility pricing on a 2D `(x = ln S, v)` grid: the
//! discrete rules.
//!
//! The `x` axis is sized like the 1D grid (an even number of intervals, spot
//! on the centre node; see [`crate::fd::grid_intervals`]). The value surface
//! is stored row-major, node `(i, j)` at `i * (nv + 1) + j`. Each explicit
//! time step is a nine-point stencil: the value at an interior node is a
//! function of its row's variance level and of the node with its eight
//! neighbours (four along the axes, four diagonal corners); along the `v = 0`
//! edge a one-sided convection update uses the node, its two `x` neighbours
//! and the node above it. This module holds that sweep, the Neumann copy at
//! `v = v_max`, and the step-count rules of the two 2D schemes.

use vstd::prelude::*;

verus! {

/// Step count used when a solve is left to choose it for the ADI scheme.
pub const ADI_DEFAULT_STEPS: usize = 100;

/// Time steps of the explicit 2D solve: a positive request is kept; a request
/// of 0 selects `stable`, the explicit-stability minimum, but never fewer
/// than one step.
pub fn explicit_time_steps(requested: usize, stable: usize) -> (steps: usize)
    ensures
        requested > 0 ==> steps == requested,
        requested == 0 ==> steps == if stable >= 1 { stable } else { 1 },
        steps >= 1,
{
    if requested > 0 {
        requested
    } else if stable >= 1 {
        stable
    } else {
        1
    }
}

/// Time steps of the Douglas ADI solve, which is unconditionally stable: a
/// positive request is kept, and 0 selects [`ADI_DEFAULT_STEPS`].
pub fn adi_time_steps(requested: usize) -> (steps: usize)
    ensures
        steps == if requested > 0 { requested } else { ADI_DEFAULT_STEPS },
        steps >= 1,
{
    if requested > 0 {
        requested
    } else {
        ADI_DEFAULT_STEPS
    }
}

/// Position of node `(i, j)` in a row-major surface with `nv + 1` variance
/// levels per `x` node.
pub open spec fn cell(i: int, j: int, nv: int) -> int {
    i * (nv + 1) + j
}

/// The nine values the stencil reads around node `(i, j)`, in the order
/// centre, `x + 1`, `x − 1`, `v + 1`, `v − 1`, then the corners
/// `(+1, +1)`, `(+1, −1)`, `(−1, +1)`, `(−1, −1)`.
pub open spec fn neighbourhood<T>(u: Seq<T>, i: int, j: int, nv: int) -> Seq<T> {
    seq![
        u[cell(i, j, nv)],
        u[cell(i + 1, j, nv)],
        u[cell(i - 1, j, nv)],
        u[cell(i, j + 1, nv)],
        u[cell(i, j - 1, nv)],
        u[cell(i + 1, j + 1, nv)],
        u[cell(i + 1, j - 1, nv)],
        u[cell(i - 1, j + 1, nv)],
        u[cell(i - 1, j - 1, nv)],
    ]
}

/// The four values the `v = 0` edge update reads at `x` node `i`: the node,
/// its `x + 1` and `x − 1` neighbours, and the node above it.
pub open spec fn low_edge<T>(u: Seq<T>, i: int, nv: int) -> Seq<T> {
    seq![u[cell(i, 0, nv)], u[cell(i + 1, 0, nv)], u[cell(i - 1, 0, nv)], u[cell(i, 1, nv)]]
}

/// `value` is a result of `interior` applied to row `j` and the
/// neighbourhood of node `(i, j)` of `u`.
pub open spec fn stencil_applied<T, F: Fn(usize, [T; 9]) -> T>(
    interior: F,
    u: Seq<T>,
    i: int,
    j: usize,
    nv: int,
    value: T,
) -> bool {
    exists|q: [T; 9]|
        #![trigger call_ensures(interior, (j, q), value)]
        q@ == neighbourhood(u, i, j as int, nv) && call_ensures(interior, (j, q), value)
}

/// `value` is a result of `edge` applied to the `v = 0` edge values at `x`
/// node `i` of `u`.
pub open spec fn edge_applied<T, G: Fn([T; 4]) -> T>(
    edge: G,
    u: Seq<T>,
    i: int,
    nv: int,
    value: T,
) -> bool {
    exists|q: [T; 4]|
        #![trigger call_ensures(edge, (q,), value)]
        q@ == low_edge(u, i, nv) && call_ensures(edge, (q,), value)
}

proof fn lemma_cell_in_grid(i: int, j: int, nx: int, nv: int)
    requires
        0 <= i <= nx,
        0 <= j <= nv,
    ensures
        0 <= cell(i, j, nv) < (nx + 1) * (nv + 1),
        cell(i, j, nv) <= cell(nx, nv, nv),
        (nx + 1) * (nv + 1) == cell(nx, nv, nv) + 1,
{
    assert(0 <= i * (nv + 1) <= nx * (nv + 1)) by (nonlinear_arith)
        requires
            0 <= i <= nx,
            0 <= nv,
    ;
    assert((nx + 1) * (nv + 1) == nx * (nv + 1) + nv + 1) by (nonlinear_arith);
}

proof fn lemma_cell_injective(i1: int, j1: int, i2: int, j2: int, nv: int)
    requires
        0 <= j1 <= nv,
        0 <= j2 <= nv,
        cell(i1, j1, nv) == cell(i2, j2, nv),
    ensures
        i1 == i2,
        j1 == j2,
{
    assert(i1 == i2) by (nonlinear_arith)
        requires
            i1 * (nv + 1) + j1 == i2 * (nv + 1) + j2,
            0 <= j1 <= nv,
            0 <= j2 <= nv,
    {
        if i1 > i2 {
            assert((i1 - i2) * (nv + 1) >= nv + 1);
        } else if i1 < i2 {
            assert((i2 - i1) * (nv + 1) >= nv + 1);
        }
    }
}

proof fn lemma_cell_steps(i: int, j: int, nv: int)
    ensures
        cell(i + 1, j, nv) == cell(i, j, nv) + nv + 1,
        cell(i - 1, j, nv) == cell(i, j, nv) - nv - 1,
        cell(i, j + 1, nv) == cell(i, j, nv) + 1,
        cell(i, j - 1, nv) == cell(i, j, nv) - 1,
{
    assert((i + 1) * (nv + 1) == i * (nv + 1) + nv + 1) by (nonlinear_arith);
    assert((i - 1) * (nv + 1) == i * (nv + 1) - nv - 1) by (nonlinear_arith);
}

/// One explicit time step of the 2D solve over the nodes it computes.
///
/// For every interior node (`1 <= i < nx`, `1 <= j < nv`), `un` gets
/// `interior(j, neighbours)`, where the neighbours are the nine values of
/// [`neighbourhood`] read from `u`; for every `x` node `1 <= i < nx` on the
/// `v = 0` edge, `un` gets `edge` of the four values of [`low_edge`]. Every
/// other node of `un` (the `x` boundaries and the `v = v_max` row) is left as
/// it was, for the boundary conditions to set.
pub fn nine_point_step<T: Copy, F: Fn(usize, [T; 9]) -> T, G: Fn([T; 4]) -> T>(
    u: &[T],
    un: &mut [T],
    nx: usize,
    nv: usize,
    interior: F,
    edge: G,
)
    requires
        1 <= nv,
        u@.len() == (nx + 1) * (nv + 1),
        old(un)@.len() == u@.len(),
        forall|i: int, j: usize, q: [T; 9]|
            #![trigger call_requires(interior, (j, q)), neighbourhood(u@, i, j as int, nv as int)]
            1 <= i < nx && 1 <= j < nv && q@ == neighbourhood(u@, i, j as int, nv as int)
                ==> call_requires(interior, (j, q)),
        forall|i: int, q: [T; 4]|
            #![trigger call_requires(edge, (q,)), low_edge(u@, i, nv as int)]
            1 <= i < nx && q@ == low_edge(u@, i, nv as int) ==> call_requires(edge, (q,)),
    ensures
        final(un)@.len() == u@.len(),
        forall|i: int, j: usize|
            1 <= i < nx && 1 <= j < nv ==> #[trigger] stencil_applied(
                interior,
                u@,
                i,
                j,
                nv as int,
                final(un)@[cell(i, j as int, nv as int)],
            ),
        forall|i: int|
            1 <= i < nx ==> #[trigger] edge_applied(
                edge,
                u@,
                i,
                nv as int,
                final(un)@[cell(i, 0, nv as int)],
            ),
        forall|i: int, j: int|
            0 <= i <= nx && 0 <= j <= nv && (i == 0 || i == nx || j == nv)
                ==> #[trigger] final(un)@[cell(i, j, nv as int)] == old(un)@[cell(
                i,
                j,
                nv as int,
            )],
{
    let len = u.len();
    proof {
        assert(nv + 1 <= (nx + 1) * (nv + 1)) by (nonlinear_arith)
            requires
                1 <= nv,
        ;
    }
    let stride = nv + 1;
    let mut i: usize = 1;
    while i < nx
        invariant
            1 <= nv,
            stride == nv + 1,
            1 <= i,
            i <= nx || nx == 0,
            len == u@.len(),
            u@.len() == (nx + 1) * (nv + 1),
            un@.len() == u@.len(),
            forall|a: int, b: usize, q: [T; 9]|
                #![trigger call_requires(interior, (b, q)), neighbourhood(u@, a, b as int, nv as int)]
                1 <= a < nx && 1 <= b < nv && q@ == neighbourhood(u@, a, b as int, nv as int)
                    ==> call_requires(interior, (b, q)),
            forall|a: int, q: [T; 4]|
                #![trigger call_requires(edge, (q,)), low_edge(u@, a, nv as int)]
                1 <= a < nx && q@ == low_edge(u@, a, nv as int) ==> call_requires(edge, (q,)),
            forall|a: int, b: usize|
                1 <= a < i && 1 <= b < nv ==> #[trigger] stencil_applied(
                    interior,
                    u@,
                    a,
                    b,
                    nv as int,
                    un@[cell(a, b as int, nv as int)],
                ),
            forall|a: int|
                1 <= a < i ==> #[trigger] edge_applied(
                    edge,
                    u@,
                    a,
                    nv as int,
                    un@[cell(a, 0, nv as int)],
                ),
            forall|a: int, b: int|
                0 <= a <= nx && 0 <= b <= nv && !(1 <= a < i && b < nv)
                    ==> #[trigger] un@[cell(a, b, nv as int)] == old(un)@[cell(a, b, nv as int)],
        decreases nx - i,
    {
        proof {
            lemma_cell_in_grid(i as int + 1, nv as int, nx as int, nv as int);
            lemma_cell_in_grid(i as int, 0, nx as int, nv as int);
            lemma_cell_steps(i as int, 0, nv as int);
        }
        let row = i * stride;
        let mut j: usize = 1;
        while j < nv
            invariant
                1 <= nv,
                stride == nv + 1,
                1 <= i < nx,
                1 <= j <= nv,
                row == cell(i as int, 0, nv as int),
                len == u@.len(),
                u@.len() == (nx + 1) * (nv + 1),
                un@.len() == u@.len(),
                forall|a: int, b: usize, q: [T; 9]|
                    #![trigger call_requires(interior, (b, q)), neighbourhood(u@, a, b as int, nv as int)]
                    1 <= a < nx && 1 <= b < nv && q@ == neighbourhood(u@, a, b as int, nv as int)
                        ==> call_requires(interior, (b, q)),
                forall|a: int, b: usize|
                    1 <= a < i && 1 <= b < nv ==> #[trigger] stencil_applied(
                        interior,
                        u@,
                        a,
                        b,
                        nv as int,
                        un@[cell(a, b as int, nv as int)],
                    ),
                forall|b: usize|
                    1 <= b < j ==> #[trigger] stencil_applied(
                        interior,
                        u@,
                        i as int,
                        b,
                        nv as int,
                        un@[cell(i as int, b as int, nv as int)],
                    ),
                forall|a: int|
                    1 <= a < i ==> #[trigger] edge_applied(
                        edge,
                        u@,
                        a,
                        nv as int,
                        un@[cell(a, 0, nv as int)],
                    ),
                forall|a: int, b: int|
                    0 <= a <= nx && 0 <= b <= nv && !(1 <= a < i && b < nv) && !(a == i && 1 <= b
                        < j) ==> #[trigger] un@[cell(a, b, nv as int)] == old(un)@[cell(
                        a,
                        b,
                        nv as int,
                    )],
            decreases nv - j,
        {
            proof {
                lemma_cell_steps(i as int, j as int, nv as int);
                lemma_cell_steps(i as int + 1, j as int, nv as int);
                lemma_cell_steps(i as int - 1, j as int, nv as int);
                lemma_cell_in_grid(i as int + 1, j as int + 1, nx as int, nv as int);
                lemma_cell_in_grid(i as int - 1, j as int - 1, nx as int, nv as int);
                lemma_cell_in_grid(i as int, j as int, nx as int, nv as int);
            }
            let k = row + j;
            assert(k == cell(i as int, j as int, nv as int));
            let q = [
                u[k],
                u[k + stride],
                u[k - stride],
                u[k + 1],
                u[k - 1],
                u[k + stride + 1],
                u[k + stride - 1],
                u[k - stride + 1],
                u[k - stride - 1],
            ];
            assert(q@ =~= neighbourhood(u@, i as int, j as int, nv as int));
            let value = interior(j, q);
            let ghost prev = un@;
            un[k] = value;
            proof {
                assert(stencil_applied(interior, u@, i as int, j, nv as int, value));
                assert forall|a: int, b: int|
                    0 <= a <= nx && 0 <= b <= nv && (a != i || b != j) implies #[trigger] un@[cell(
                        a,
                        b,
                        nv as int,
                    )] == prev[cell(a, b, nv as int)] by {
                    lemma_cell_in_grid(a, b, nx as int, nv as int);
                    if cell(a, b, nv as int) == k {
                        lemma_cell_injective(a, b, i as int, j as int, nv as int);
                    }
                }
                assert forall|a: int, b: usize|
                    1 <= a < i && 1 <= b < nv implies #[trigger] stencil_applied(
                        interior,
                        u@,
                        a,
                        b,
                        nv as int,
                        un@[cell(a, b as int, nv as int)],
                    ) by {
                    assert(un@[cell(a, b as int, nv as int)] == prev[cell(a, b as int, nv as int)]);
                }
                assert forall|b: usize|
                    1 <= b < j + 1 implies #[trigger] stencil_applied(
                        interior,
                        u@,
                        i as int,
                        b,
                        nv as int,
                        un@[cell(i as int, b as int, nv as int)],
                    ) by {
                    if b < j {
                        assert(un@[cell(i as int, b as int, nv as int)] == prev[cell(
                            i as int,
                            b as int,
                            nv as int,
                        )]);
                    }
                }
                assert forall|a: int|
                    1 <= a < i implies #[trigger] edge_applied(
                        edge,
                        u@,
                        a,
                        nv as int,
                        un@[cell(a, 0, nv as int)],
                    ) by {
                    assert(un@[cell(a, 0, nv as int)] == prev[cell(a, 0, nv as int)]);
                }
            }
            j = j + 1;
        }
        proof {
            lemma_cell_in_grid(i as int - 1, 0, nx as int, nv as int);
        }
        let q = [u[row], u[row + stride], u[row - stride], u[row + 1]];
        assert(q@ =~= low_edge(u@, i as int, nv as int));
        let value = edge(q);
        let ghost prev = un@;
        un[row] = value;
        proof {
            assert(edge_applied(edge, u@, i as int, nv as int, value));
            assert forall|a: int, b: int|
                0 <= a <= nx && 0 <= b <= nv && (a != i || b != 0) implies #[trigger] un@[cell(
                    a,
                    b,
                    nv as int,
                )] == prev[cell(a, b, nv as int)] by {
                lemma_cell_in_grid(a, b, nx as int, nv as int);
                if cell(a, b, nv as int) == row {
                    lemma_cell_injective(a, b, i as int, 0, nv as int);
                }
            }
            assert forall|a: int, b: usize|
                1 <= a < i + 1 && 1 <= b < nv implies #[trigger] stencil_applied(
                    interior,
                    u@,
                    a,
                    b,
                    nv as int,
                    un@[cell(a, b as int, nv as int)],
                ) by {
                assert(un@[cell(a, b as int, nv as int)] == prev[cell(a, b as int, nv as int)]);
            }
            assert forall|a: int|
                1 <= a < i + 1 implies #[trigger] edge_applied(
                    edge,
                    u@,
                    a,
                    nv as int,
                    un@[cell(a, 0, nv as int)],
                ) by {
                if a < i {
                    assert(un@[cell(a, 0, nv as int)] == prev[cell(a, 0, nv as int)]);
                }
            }
        }
        i = i + 1;
    }
}

/// Value of node `(i, j)` once the Dirichlet `x` boundaries are set: `hi` on
/// the last `x` node, `lo` on the first (the last wins on a one-node grid),
/// unchanged elsewhere.
pub open spec fn with_x_boundaries<T>(un: Seq<T>, i: int, j: int, nx: int, nv: int, lo: T, hi: T) -> T {
    if i == nx {
        hi
    } else if i == 0 {
        lo
    } else {
        un[cell(i, j, nv)]
    }
}

/// The boundary conditions of one explicit 2D time step: the Dirichlet
/// values `lo` and `hi` on the first and last `x` node at every variance
/// level, then the Neumann condition `∂U/∂v = 0` at `v = v_max`, which copies
/// each node of the row below into the top row.
pub fn set_boundaries<T: Copy>(un: &mut [T], nx: usize, nv: usize, lo: T, hi: T)
    requires
        1 <= nv,
        old(un)@.len() == (nx + 1) * (nv + 1),
    ensures
        final(un)@.len() == old(un)@.len(),
        forall|i: int, j: int|
            0 <= i <= nx && 0 <= j < nv ==> #[trigger] final(un)@[cell(i, j, nv as int)]
                == with_x_boundaries(old(un)@, i, j, nx as int, nv as int, lo, hi),
        forall|i: int|
            0 <= i <= nx ==> #[trigger] final(un)@[cell(i, nv as int, nv as int)]
                == with_x_boundaries(old(un)@, i, nv - 1, nx as int, nv as int, lo, hi),
        nx >= 1 ==> forall|j: int| 0 <= j <= nv ==> #[trigger] final(un)@[j] == lo,
        forall|j: int|
            #![trigger final(un)@[nx * (nv + 1) + j]]
            0 <= j <= nv ==> final(un)@[nx * (nv + 1) + j] == hi,
        forall|i: int, j: int|
            #![trigger final(un)@[i * (nv + 1) + j]]
            0 < i < nx && 0 <= j < nv ==> final(un)@[i * (nv + 1) + j] == old(un)@[i * (nv + 1)
                + j],
        forall|i: int|
            #![trigger final(un)@[i * (nv + 1) + nv]]
            0 < i < nx ==> final(un)@[i * (nv + 1) + nv] == old(un)@[i * (nv + 1) + nv - 1],
{
    let len = un.len();
    proof {
        assert(nv + 1 <= (nx + 1) * (nv + 1)) by (nonlinear_arith)
            requires
                1 <= nv,
        ;
        assert(nx + 1 <= (nx + 1) * (nv + 1)) by (nonlinear_arith)
            requires
                1 <= nv,
        ;
        lemma_cell_in_grid(nx as int, 0, nx as int, nv as int);
    }
    let stride = nv + 1;
    let last = nx * stride;
    let mut j: usize = 0;
    while j <= nv
        invariant
            1 <= nv,
            stride == nv + 1,
            last == cell(nx as int, 0, nv as int),
            j <= nv + 1,
            len == un@.len(),
            un@.len() == (nx + 1) * (nv + 1),
            forall|a: int, b: int|
                0 <= a <= nx && 0 <= b <= nv ==> #[trigger] un@[cell(a, b, nv as int)] == if b < j {
                    with_x_boundaries(old(un)@, a, b, nx as int, nv as int, lo, hi)
                } else {
                    old(un)@[cell(a, b, nv as int)]
                },
        decreases nv + 1 - j,
    {
        proof {
            lemma_cell_in_grid(nx as int, j as int, nx as int, nv as int);
            lemma_cell_in_grid(0, j as int, nx as int, nv as int);
        }
        let ghost prev = un@;
        un[j] = lo;
        un[last + j] = hi;
        proof {
            assert forall|a: int, b: int|
                0 <= a <= nx && 0 <= b <= nv implies #[trigger] un@[cell(a, b, nv as int)] == if b
                    < j + 1 {
                    with_x_boundaries(old(un)@, a, b, nx as int, nv as int, lo, hi)
                } else {
                    old(un)@[cell(a, b, nv as int)]
                } by {
                lemma_cell_in_grid(a, b, nx as int, nv as int);
                assert(cell(0, j as int, nv as int) == j);
                if cell(a, b, nv as int) == j {
                    lemma_cell_injective(a, b, 0, j as int, nv as int);
                }
                if cell(a, b, nv as int) == last + j {
                    lemma_cell_injective(a, b, nx as int, j as int, nv as int);
                }
                assert(prev[cell(a, b, nv as int)] == if b < j {
                    with_x_boundaries(old(un)@, a, b, nx as int, nv as int, lo, hi)
                } else {
                    old(un)@[cell(a, b, nv as int)]
                });
            }
        }
        j = j + 1;
    }
    let ghost mid = un@;
    let mut i: usize = 0;
    while i <= nx
        invariant
            1 <= nv,
            stride == nv + 1,
            i <= nx + 1,
            len == un@.len(),
            nx + 1 <= len,
            un@.len() == (nx + 1) * (nv + 1),
            forall|a: int, b: int|
                0 <= a <= nx && 0 <= b < nv ==> #[trigger] un@[cell(a, b, nv as int)] == mid[cell(
                    a,
                    b,
                    nv as int,
                )],
            forall|a: int|
                0 <= a <= nx ==> #[trigger] un@[cell(a, nv as int, nv as int)] == if a < i {
                    mid[cell(a, nv - 1, nv as int)]
                } else {
                    mid[cell(a, nv as int, nv as int)]
                },
        decreases nx + 1 - i,
    {
        proof {
            lemma_cell_in_grid(i as int, nv as int, nx as int, nv as int);
            lemma_cell_in_grid(i as int, 0, nx as int, nv as int);
        }
        let top = i * stride + nv;
        let ghost prev = un@;
        let below = un[top - 1];
        un[top] = below;
        proof {
            assert(top - 1 == cell(i as int, nv - 1, nv as int));
            assert forall|a: int, b: int|
                0 <= a <= nx && 0 <= b <= nv && (a != i || b != nv) implies #[trigger] un@[cell(
                    a,
                    b,
                    nv as int,
                )] == prev[cell(a, b, nv as int)] by {
                lemma_cell_in_grid(a, b, nx as int, nv as int);
                if cell(a, b, nv as int) == top {
                    lemma_cell_injective(a, b, i as int, nv as int, nv as int);
                }
            }
            assert forall|a: int|
                0 <= a <= nx implies #[trigger] un@[cell(a, nv as int, nv as int)] == if a < i + 1 {
                    mid[cell(a, nv - 1, nv as int)]
                } else {
                    mid[cell(a, nv as int, nv as int)]
                } by {
                if a != i {
                    assert(un@[cell(a, nv as int, nv as int)] == prev[cell(a, nv as int, nv as int)]);
                }
            }
            assert forall|a: int, b: int|
                0 <= a <= nx && 0 <= b < nv implies #[trigger] un@[cell(a, b, nv as int)] == mid[cell(
                    a,
                    b,
                    nv as int,
                )] by {
                assert(un@[cell(a, b, nv as int)] == prev[cell(a, b, nv as int)]);
            }
        }
        i = i + 1;
    }
    proof {
        assert forall|i: int| 0 <= i <= nx implies #[trigger] un@[cell(i, nv as int, nv as int)]
            == with_x_boundaries(old(un)@, i, nv - 1, nx as int, nv as int, lo, hi) by {
            assert(un@[cell(i, nv as int, nv as int)] == mid[cell(i, nv - 1, nv as int)]);
        }
        if nx >= 1 {
            assert forall|j: int| 0 <= j <= nv implies #[trigger] un@[j] == lo by {
                assert(cell(0, j, nv as int) == j);
                if j == nv {
                    assert(cell(0, nv - 1, nv as int) == nv - 1);
                }
            }
        }
        assert forall|j: int|
            #![trigger un@[nx * (nv + 1) + j]]
            0 <= j <= nv implies un@[nx * (nv + 1) + j] == hi by {
            assert(cell(nx as int, j, nv as int) == nx * (nv + 1) + j);
        }
        assert forall|i: int, j: int|
            #![trigger un@[i * (nv + 1) + j]]
            0 < i < nx && 0 <= j < nv implies un@[i * (nv + 1) + j]
            == old(un)@[i * (nv + 1) + j] by {
            assert(cell(i, j, nv as int) == i * (nv + 1) + j);
        }
        assert forall|i: int|
            #![trigger un@[i * (nv + 1) + nv]]
            0 < i < nx implies un@[i * (nv + 1) + nv] == old(un)@[i * (nv + 1)
            + nv - 1] by {
            assert(cell(i, nv as int, nv as int) == i * (nv + 1) + nv);
            assert(cell(i, nv - 1, nv as int) == i * (nv + 1) + nv - 1);
        }
    }
}

/// Every interior node of a nine-point step reads its own neighbourhood: when
/// `un` is what [`nine_point_step`] gives on `u`, the value at interior node
/// `(i, j)` is a result of the interior kernel on row `j` and the array that
/// holds, in order, the node itself, its `x + 1` and `x − 1` neighbours, its
/// `v + 1` and `v − 1` neighbours, and the corners `(+1, +1)`, `(+1, −1)`,
/// `(−1, +1)`, `(−1, −1)`, all read from `u` in row-major order.
pub proof fn lemma_interior_node_reads<T, F: Fn(usize, [T; 9]) -> T>(
    interior: F,
    u: Seq<T>,
    un: Seq<T>,
    nx: int,
    nv: int,
    i: int,
    j: usize,
)
    requires
        forall|a: int, b: usize|
            1 <= a < nx && 1 <= b < nv ==> #[trigger] stencil_applied(
                interior,
                u,
                a,
                b,
                nv,
                un[cell(a, b as int, nv)],
            ),
        1 <= i < nx,
        1 <= j < nv,
    ensures
        exists|q: [T; 9]|
            #![trigger call_ensures(interior, (j, q), un[i * (nv + 1) + j])]
            call_ensures(interior, (j, q), un[i * (nv + 1) + j])
                && q@[0] == u[i * (nv + 1) + j]
                && q@[1] == u[(i + 1) * (nv + 1) + j]
                && q@[2] == u[(i - 1) * (nv + 1) + j]
                && q@[3] == u[i * (nv + 1) + j + 1]
                && q@[4] == u[i * (nv + 1) + j - 1]
                && q@[5] == u[(i + 1) * (nv + 1) + j + 1]
                && q@[6] == u[(i + 1) * (nv + 1) + j - 1]
                && q@[7] == u[(i - 1) * (nv + 1) + j + 1]
                && q@[8] == u[(i - 1) * (nv + 1) + j - 1],
{
    assert(stencil_applied(interior, u, i, j, nv, un[cell(i, j as int, nv)]));
    let q = choose|q: [T; 9]|
        q@ == neighbourhood(u, i, j as int, nv) && call_ensures(
            interior,
            (j, q),
            un[cell(i, j as int, nv)],
        );
    assert(call_ensures(interior, (j, q), un[i * (nv + 1) + j]));
}

/// Every `v = 0` node of a nine-point step reads its own edge values: when
/// `un` is what [`nine_point_step`] gives on `u`, the value at node `(i, 0)`
/// is a result of the edge kernel on the array that holds, in order, the node
/// itself, its `x + 1` and `x − 1` neighbours on the edge, and the node above
/// it, all read from `u` in row-major order.
pub proof fn lemma_edge_node_reads<T, G: Fn([T; 4]) -> T>(
    edge: G,
    u: Seq<T>,
    un: Seq<T>,
    nx: int,
    nv: int,
    i: int,
)
    requires
        forall|a: int| 1 <= a < nx ==> #[trigger] edge_applied(edge, u, a, nv, un[cell(a, 0, nv)]),
        1 <= i < nx,
    ensures
        exists|q: [T; 4]|
            #![trigger call_ensures(edge, (q,), un[i * (nv + 1)])]
            call_ensures(edge, (q,), un[i * (nv + 1)])
                && q@[0] == u[i * (nv + 1)]
                && q@[1] == u[(i + 1) * (nv + 1)]
                && q@[2] == u[(i - 1) * (nv + 1)]
                && q@[3] == u[i * (nv + 1) + 1],
{
    assert(edge_applied(edge, u, i, nv, un[cell(i, 0, nv)]));
    let q = choose|q: [T; 4]|
        q@ == low_edge(u, i, nv) && call_ensures(edge, (q,), un[cell(i, 0, nv)]);
    assert(call_ensures(edge, (q,), un[i * (nv + 1)]));
}

} // verus!

//! Grid sizing, step counts and the explicit stencil sweep.

use tile_fd_pricer::black_scholes::is_analytic;
use tile_fd_pricer::fd::{explicit_step, grid_intervals, time_steps, Scheme};
use tile_fd_pricer::Exercise;

#[test]
fn only_european_options_have_a_closed_form() {
    assert!(is_analytic(Exercise::European));
    assert!(!is_analytic(Exercise::American));
}

#[test]
fn grid_intervals_round_up_to_even() {
    assert_eq!(grid_intervals(400), 400);
    assert_eq!(grid_intervals(401), 402);
    assert_eq!(grid_intervals(0), 0);
    assert_eq!(grid_intervals(1), 2);
    let n = grid_intervals(799);
    assert_eq!(2 * (n / 2), n);
}

#[test]
fn explicit_steps_are_raised_for_stability() {
    assert_eq!(time_steps(Scheme::Explicit, 400, 2500), 2500);
    assert_eq!(time_steps(Scheme::Explicit, 4000, 2500), 4000);
    assert_eq!(time_steps(Scheme::Explicit, 0, 0), 1);
}

#[test]
fn crank_nicolson_keeps_the_request() {
    assert_eq!(time_steps(Scheme::CrankNicolson, 400, 2500), 400);
    assert_eq!(time_steps(Scheme::CrankNicolson, 0, 2500), 1);
}

#[test]
fn stencil_reads_only_immediate_neighbours() {
    let src: Vec<i64> = vec![1, 10, 100, 1000, 10000];
    let mut dst: Vec<i64> = vec![-1, -2, -3, -4, -5];
    explicit_step(&src, &mut dst, |l, c, r| 3 * l + 5 * c + 7 * r);
    assert_eq!(dst, vec![-1, 3 + 50 + 700, 30 + 500 + 7000, 300 + 5000 + 70000, -5]);
}

#[test]
fn stencil_on_tiny_grids_touches_nothing() {
    let src = vec![4u8];
    let mut dst = vec![9u8];
    explicit_step(&src, &mut dst, |l: u8, c: u8, r: u8| l.wrapping_add(c).wrapping_add(r));
    assert_eq!(dst, vec![9]);
    let src = vec![4u8, 5];
    let mut dst = vec![9u8, 8];
    explicit_step(&src, &mut dst, |l: u8, c: u8, r: u8| l.wrapping_add(c).wrapping_add(r));
    assert_eq!(dst, vec![9, 8]);
}

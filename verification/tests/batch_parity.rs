//! The batch layout: quads of four options and thread slices aligned to them.

use tile_fd_pricer::fd::explicit_step;
use tile_fd_pricer::batch::{
    self, node_at, parallel_slices, price_by_quads, quad_sweep, resolve_steps, set_node,
    stable_steps,
};

#[test]
fn lanes_width_is_four() {
    assert_eq!(batch::LANES, 4);
}

#[test]
fn quads_return_each_option_to_its_slot() {
    // 37 options: not a multiple of the quad width, so the last quad is padded.
    let opts: Vec<u64> = (0..37).map(|i| 1000 + i).collect();
    let out = price_by_quads(&opts, |q: [u64; 4]| [q[0] * 2, q[1] * 2, q[2] * 2, q[3] * 2]);
    let expected: Vec<u64> = opts.iter().map(|x| x * 2).collect();
    assert_eq!(out, expected);
}

#[test]
fn short_last_quad_is_padded_with_its_first_option() {
    let opts: Vec<u32> = vec![10, 20, 30, 40, 50, 60];
    // Every lane reports the sum of its quad: the padded quad is [50, 60, 50, 50].
    let out = price_by_quads(&opts, |q: [u32; 4]| {
        let s = q[0] + q[1] + q[2] + q[3];
        [s, s, s, s]
    });
    assert_eq!(out, vec![100, 100, 100, 100, 210, 210]);
}

#[test]
fn quads_of_an_empty_book() {
    let opts: Vec<u8> = Vec::new();
    let out = price_by_quads(&opts, |q: [u8; 4]| q);
    assert!(out.is_empty());
}

#[test]
fn stable_steps_is_the_binding_constraint() {
    assert_eq!(stable_steps(&[120, 3400, 980, 3399]), 3400);
    assert_eq!(stable_steps(&[0, 0]), 1);
    assert_eq!(stable_steps(&[]), 1);
}

#[test]
fn zero_requests_the_stable_minimum() {
    assert_eq!(resolve_steps(0, 777), 777);
    assert_eq!(resolve_steps(400, 777), 400);
}

#[test]
fn thread_slices_for_two_hundred_options() {
    // 50 quads over 4 workers: 13 quads (52 options) each, the rest last.
    assert_eq!(parallel_slices(200, 4), vec![52, 52, 52, 44]);
}

#[test]
fn small_books_and_single_workers_are_not_split() {
    assert_eq!(parallel_slices(15, 8), vec![15]);
    assert_eq!(parallel_slices(1000, 1), vec![1000]);
    assert_eq!(parallel_slices(0, 4), vec![0]);
}

#[test]
fn thread_slices_partition_and_align() {
    for total in [16usize, 17, 37, 64, 200, 1001] {
        for threads in [2usize, 3, 4, 7, 16, 64] {
            let lens = parallel_slices(total, threads);
            assert!(lens.len() <= threads);
            assert_eq!(lens.iter().sum::<usize>(), total);
            let mut start = 0;
            for &len in &lens {
                assert!(len > 0);
                assert_eq!(start % batch::LANES, 0);
                start += len;
                assert!(start % batch::LANES == 0 || start == total);
            }
        }
    }
}

#[test]
fn slicing_the_book_does_not_change_any_quad() {
    let opts: Vec<u64> = (0..203).map(|i| i * 7 + 1).collect();
    // A quad kernel whose lanes depend on the whole quad, so a different
    // packing would show up in the results.
    let kernel = |q: [u64; 4]| {
        let s = q[0] + q[1] + q[2] + q[3];
        [q[0] * 1000 + s, q[1] * 1000 + s, q[2] * 1000 + s, q[3] * 1000 + s]
    };
    let whole = price_by_quads(&opts, kernel);
    let mut pieces: Vec<u64> = Vec::new();
    let mut start = 0;
    for len in parallel_slices(opts.len(), 3) {
        pieces.extend(price_by_quads(&opts[start..start + len], kernel));
        start += len;
    }
    assert_eq!(pieces, whole);
}

#[test]
fn nodes_are_stored_lane_by_lane() {
    let mut v: Vec<i32> = (0..12).collect();
    assert_eq!(node_at(&v, 1), [4, 5, 6, 7]);
    set_node(&mut v, 2, [-1, -2, -3, -4]);
    assert_eq!(v, vec![0, 1, 2, 3, 4, 5, 6, 7, -1, -2, -3, -4]);
}

#[test]
fn quad_sweep_updates_interior_nodes_from_their_neighbours() {
    let n = 3;
    let src: Vec<i64> = (0..(4 * (n + 1)) as i64).collect();
    let mut dst = vec![-9i64; src.len()];
    quad_sweep(&src, &mut dst, n, |l: [i64; 4], c: [i64; 4], r: [i64; 4]| {
        [
            l[0] + 10 * c[0] + 100 * r[0],
            l[1] + 10 * c[1] + 100 * r[1],
            l[2] + 10 * c[2] + 100 * r[2],
            l[3] + 10 * c[3] + 100 * r[3],
        ]
    });
    for j in 0..=n {
        for lane in 0..4 {
            let got = dst[4 * j + lane];
            if j >= 1 && j < n {
                let at = |k: usize| src[4 * k + lane];
                assert_eq!(got, at(j - 1) + 10 * at(j) + 100 * at(j + 1));
            } else {
                assert_eq!(got, -9);
            }
        }
    }
}

#[test]
fn quad_sweep_on_a_single_interval_touches_nothing() {
    let src = vec![1u8; 8];
    let mut dst = vec![2u8; 8];
    quad_sweep(&src, &mut dst, 1, |_l: [u8; 4], c: [u8; 4], _r: [u8; 4]| c);
    assert_eq!(dst, vec![2u8; 8]);
}

#[test]
fn each_lane_of_a_quad_step_is_the_scalar_step() {
    let n = 6;
    let src: Vec<i64> = (0..(4 * (n + 1)) as i64).map(|k| k * k - 3 * k).collect();
    let mut dst = vec![0i64; src.len()];
    let h = |l: i64, c: i64, r: i64| 2 * l - 5 * c + 7 * r;
    quad_sweep(&src, &mut dst, n, |l: [i64; 4], c: [i64; 4], r: [i64; 4]| {
        [h(l[0], c[0], r[0]), h(l[1], c[1], r[1]), h(l[2], c[2], r[2]), h(l[3], c[3], r[3])]
    });
    for lane in 0..4 {
        let column: Vec<i64> = (0..=n).map(|j| src[4 * j + lane]).collect();
        let mut out = vec![0i64; n + 1];
        explicit_step(&column, &mut out, h);
        for j in 1..n {
            assert_eq!(dst[4 * j + lane], out[j], "lane {lane}, node {j}");
        }
    }
}

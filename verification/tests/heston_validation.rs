//! The 2D Heston grid: the nine-point sweep, its boundaries, step counts.

use tile_fd_pricer::heston::{adi_time_steps, explicit_time_steps, nine_point_step, set_boundaries};

fn at(i: usize, j: usize, nv: usize) -> usize {
    i * (nv + 1) + j
}

#[test]
fn nine_point_sweep_reads_the_neighbourhood() {
    let (nx, nv) = (4usize, 3usize);
    let u: Vec<i64> = (0..(nx + 1) * (nv + 1)).map(|k| (k as i64) * (k as i64)).collect();
    let mut un = vec![-7i64; u.len()];
    nine_point_step(
        &u,
        &mut un,
        nx,
        nv,
        |j: usize, q: [i64; 9]| {
            q[0] + 2 * q[1] + 3 * q[2] + 5 * q[3] + 7 * q[4] + 11 * q[5] + 13 * q[6] + 17 * q[7]
                + 19 * q[8]
                + 1000 * j as i64
        },
        |q: [i64; 4]| q[0] - q[1] + 2 * q[2] - 3 * q[3],
    );
    for i in 0..=nx {
        for j in 0..=nv {
            let got = un[at(i, j, nv)];
            if i >= 1 && i < nx && j >= 1 && j < nv {
                let w = |a: usize, b: usize| u[at(a, b, nv)];
                let want = w(i, j)
                    + 2 * w(i + 1, j)
                    + 3 * w(i - 1, j)
                    + 5 * w(i, j + 1)
                    + 7 * w(i, j - 1)
                    + 11 * w(i + 1, j + 1)
                    + 13 * w(i + 1, j - 1)
                    + 17 * w(i - 1, j + 1)
                    + 19 * w(i - 1, j - 1)
                    + 1000 * j as i64;
                assert_eq!(got, want, "node ({i}, {j})");
            } else if i >= 1 && i < nx && j == 0 {
                let want = u[at(i, 0, nv)] - u[at(i + 1, 0, nv)] + 2 * u[at(i - 1, 0, nv)]
                    - 3 * u[at(i, 1, nv)];
                assert_eq!(got, want, "edge node ({i}, 0)");
            } else {
                assert_eq!(got, -7, "boundary node ({i}, {j})");
            }
        }
    }
}

#[test]
fn boundaries_dirichlet_in_x_then_neumann_at_the_top() {
    let (nx, nv) = (3usize, 2usize);
    let mut un: Vec<i32> = (0..(nx + 1) * (nv + 1)).map(|k| k as i32).collect();
    set_boundaries(&mut un, nx, nv, -1, -2);
    // rows i = 0 and i = nx take lo and hi at every level
    assert_eq!(&un[at(0, 0, nv)..=at(0, nv, nv)], &[-1, -1, -1]);
    assert_eq!(&un[at(nx, 0, nv)..=at(nx, nv, nv)], &[-2, -2, -2]);
    // interior rows: levels below the top unchanged, top copied from below
    assert_eq!(un[at(1, 0, nv)], 3);
    assert_eq!(un[at(1, 1, nv)], 4);
    assert_eq!(un[at(1, 2, nv)], 4);
    assert_eq!(un[at(2, 2, nv)], 7);
}

#[test]
fn boundaries_on_a_one_node_grid_take_the_high_value() {
    let mut un = vec![5i32, 6];
    set_boundaries(&mut un, 0, 1, 1, 2);
    assert_eq!(un, vec![2, 2]);
}

#[test]
fn heston_step_counts() {
    assert_eq!(explicit_time_steps(250, 90000), 250);
    assert_eq!(explicit_time_steps(0, 90000), 90000);
    assert_eq!(explicit_time_steps(0, 0), 1);
    assert_eq!(adi_time_steps(0), 100);
    assert_eq!(adi_time_steps(40), 40);
}

use jacobi_rust::codec::{decode_grid, encode_grid, LoadError};
use jacobi_rust::driver::{
    check_pair, jacobi_step, run_banded, run_counter_handshake, run_row_parallel,
};
use jacobi_rust::exchange::{Action, Handshake, Phase};
use jacobi_rust::grid::{ConfigError, Grid};
use jacobi_rust::partition::{band_step, join_bands, split_bands};
use jacobi_rust::schedule::{compute_rows, copy_border_rows, copy_cells, row_chunks, write_rows};
use jacobi_rust::stencil::{sweep, update_row, Stencil};

fn heat_with(factor: f64) -> impl Fn(Stencil<f64>) -> f64 {
    move |s: Stencil<f64>| s.center + factor * (s.up + s.down + s.left + s.right - 4.0 * s.center)
}

/// A plain loop version of the update, to hold the library against.
fn naive(start: &[f64], n: usize, m: usize, steps: usize, factor: f64) -> Vec<f64> {
    let mut cur = start.to_vec();
    for _ in 0..steps {
        let mut next = cur.clone();
        for i in 1..n - 1 {
            for j in 1..m - 1 {
                let x = i * m + j;
                next[x] = cur[x]
                    + factor * (cur[x - m] + cur[x + m] + cur[x - 1] + cur[x + 1] - 4.0 * cur[x]);
            }
        }
        next[(n / 2) * m + m / 2] = 100.0;
        cur = next;
    }
    cur
}

/// A grid whose cells are all different, borders included.
fn patterned(n: usize, m: usize) -> Grid<f64> {
    let mut g = Grid::new(n, m, 0.0, 100.0).unwrap();
    for x in 0..n * m {
        g.data[x] = ((x * 37) % 101) as f64 / 7.0;
    }
    g.data[(n / 2) * m + m / 2] = 100.0;
    g
}

fn copy_of(g: &Grid<f64>) -> Grid<f64> {
    Grid { rows: g.rows, cols: g.cols, data: g.data.clone() }
}

#[test]
fn six_by_six_single_step_moves_heat_to_the_four_neighbours() {
    let k = heat_with(0.08);
    let runs: Vec<Grid<f64>> = (0..3)
        .map(|which| {
            let mut a = Grid::new(6, 6, 0.0, 100.0).unwrap();
            let mut b = Grid::new(6, 6, 0.0, 100.0).unwrap();
            match which {
                0 => jacobi_step(&k, 100.0, &mut a, &mut b, 1).unwrap(),
                1 => run_banded(&k, 100.0, &mut a, &mut b, 1).unwrap(),
                _ => run_row_parallel(&k, 100.0, &mut a, &mut b, 1, 2).unwrap(),
            }
            a
        })
        .collect();
    for g in &runs {
        for i in 0..6 {
            for j in 0..6 {
                let v = g.get(i, j);
                let expected = if (i, j) == (3, 3) {
                    100.0
                } else if (i, j) == (2, 3) || (i, j) == (4, 3) || (i, j) == (3, 2) || (i, j) == (3, 4) {
                    8.0
                } else {
                    0.0
                };
                assert_eq!(v, expected, "cell ({}, {})", i, j);
            }
        }
    }
}

#[test]
fn every_driver_matches_the_plain_loops_for_even_and_odd_step_counts() {
    let factor = 0.1;
    let k = heat_with(factor);
    for &(n, m) in &[(9usize, 7usize), (6, 10), (3, 3), (4, 5)] {
        for &steps in &[0usize, 1, 2, 9, 10] {
            let start = patterned(n, m);
            let expected = naive(&start.data, n, m, steps, factor);
            let mut results = Vec::new();
            for which in 0..4 {
                let mut a = copy_of(&start);
                let mut b = Grid::new(n, m, 0.0, 100.0).unwrap();
                match which {
                    0 => jacobi_step(&k, 100.0, &mut a, &mut b, steps).unwrap(),
                    1 => run_banded(&k, 100.0, &mut a, &mut b, steps).unwrap(),
                    2 => run_row_parallel(&k, 100.0, &mut a, &mut b, steps, 1).unwrap(),
                    _ => run_row_parallel(&k, 100.0, &mut a, &mut b, steps, 5).unwrap(),
                }
                assert_eq!(a.rows, n);
                assert_eq!(a.cols, m);
                for x in 0..n * m {
                    let border = x / m == 0 || x / m == n - 1 || x % m == 0 || x % m == m - 1;
                    if border {
                        assert_eq!(a.data[x], start.data[x]);
                    } else {
                        assert!((a.data[x] - expected[x]).abs() <= 1e-10, "cell {}", x);
                    }
                }
                assert_eq!(a.data[(n / 2) * m + m / 2], 100.0);
                results.push(a.data);
            }
            for r in &results[1..] {
                assert_eq!(r, &results[0], "drivers differ for {}x{} after {} steps", n, m, steps);
            }
        }
    }
}

#[test]
fn same_run_twice_is_bit_identical() {
    let k = heat_with(0.2);
    let run = || {
        let mut a = patterned(11, 9);
        let mut b = Grid::new(11, 9, 0.0, 100.0).unwrap();
        run_banded(&k, 100.0, &mut a, &mut b, 7).unwrap();
        a.data.iter().map(|v| v.to_bits()).collect::<Vec<u64>>()
    };
    assert_eq!(run(), run());
}

#[test]
fn configuration_errors_are_reported() {
    assert_eq!(Grid::new(2, 5, 0.0, 1.0).err(), Some(ConfigError::TooSmall));
    assert_eq!(Grid::new(5, 2, 0.0, 1.0).err(), Some(ConfigError::TooSmall));
    assert_eq!(Grid::new(usize::MAX, 3, 0.0, 1.0).err(), Some(ConfigError::TooLarge));

    let k = heat_with(0.1);
    let mut a = Grid::new(5, 5, 0.0, 100.0).unwrap();
    let mut b = Grid::new(5, 6, 0.0, 100.0).unwrap();
    assert_eq!(jacobi_step(&k, 100.0, &mut a, &mut b, 3), Err(ConfigError::ShapeMismatch));
    assert_eq!(run_banded(&k, 100.0, &mut a, &mut b, 3), Err(ConfigError::ShapeMismatch));
    assert_eq!(a.data[0], 0.0);
    assert_eq!(a.data.len(), 25);

    let mut short = Grid { rows: 5, cols: 5, data: vec![0.0; 24] };
    let mut other = Grid::new(5, 5, 0.0, 100.0).unwrap();
    assert_eq!(check_pair(&short, &other), Err(ConfigError::ShapeMismatch));
    assert_eq!(
        run_row_parallel(&k, 100.0, &mut short, &mut other, 1, 2),
        Err(ConfigError::ShapeMismatch)
    );

    let mut tiny = Grid { rows: 2, cols: 5, data: vec![0.0; 10] };
    let mut tiny2 = Grid { rows: 2, cols: 5, data: vec![0.0; 10] };
    assert_eq!(jacobi_step(&k, 100.0, &mut tiny, &mut tiny2, 1), Err(ConfigError::TooSmall));

    let mut a = Grid::new(5, 5, 0.0, 100.0).unwrap();
    let mut b = Grid::new(5, 5, 0.0, 100.0).unwrap();
    assert_eq!(run_row_parallel(&k, 100.0, &mut a, &mut b, 1, 0), Err(ConfigError::NoWorkers));
    assert_eq!(check_pair(&a, &b), Ok(()));
}

#[test]
fn new_grid_is_zero_but_the_source() {
    let g = Grid::new(5, 4, 0.0, 100.0).unwrap();
    assert_eq!(g.data.len(), 20);
    assert_eq!(g.index(2, 2), 10);
    for x in 0..20 {
        assert_eq!(g.data[x], if x == 10 { 100.0 } else { 0.0 });
    }
}

#[test]
fn chunks_split_the_interior_evenly() {
    assert_eq!(row_chunks(10, 3).unwrap(), vec![(1, 4), (4, 7), (7, 9)]);
    assert_eq!(row_chunks(5, 10).unwrap(), vec![(1, 2), (2, 3), (3, 4)]);
    assert_eq!(row_chunks(128, 1).unwrap(), vec![(1, 127)]);
    assert_eq!(row_chunks(2, 4).unwrap(), vec![]);
    assert_eq!(row_chunks(10, 0), Err(ConfigError::NoWorkers));
}

#[test]
fn split_and_join_keep_every_cell() {
    let g = patterned(5, 3);
    let cells = g.data.clone();
    let (upper, lower) = split_bands(g);
    assert_eq!((upper.first, upper.rows), (0, 2));
    assert_eq!((lower.first, lower.rows), (2, 3));
    assert_eq!(upper.data, cells[0..6].to_vec());
    assert_eq!(lower.data, cells[6..15].to_vec());
    assert_eq!(upper.seam_row(), cells[3..6].to_vec());
    assert_eq!(lower.seam_row(), cells[6..9].to_vec());
    let joined = join_bands(upper, lower);
    assert_eq!(joined.rows, 5);
    assert_eq!(joined.data, cells);
}

#[test]
fn bands_with_exchanged_seams_give_the_rows_of_a_full_sweep() {
    let k = heat_with(0.15);
    for &(n, m) in &[(8usize, 6usize), (7, 5), (3, 4)] {
        let g = patterned(n, m);
        let mut full = Grid::new(n, m, 0.0, 100.0).unwrap();
        sweep(&k, 100.0, &g, &mut full);

        let (upper, lower) = split_bands(copy_of(&g));
        let (mut upper_dst, mut lower_dst) = split_bands(Grid::new(n, m, 0.0, 100.0).unwrap());
        band_step(&k, 100.0, &upper, &lower.seam_row(), &mut upper_dst);
        band_step(&k, 100.0, &lower, &upper.seam_row(), &mut lower_dst);
        let joined = join_bands(upper_dst, lower_dst);
        assert_eq!(joined.data, full.data);
    }
}

#[test]
fn a_stale_ghost_row_shows_in_the_seam_row() {
    let k = heat_with(0.25);
    let g = patterned(8, 6);
    let (upper, lower) = split_bands(copy_of(&g));
    let (mut fresh, _) = split_bands(Grid::new(8, 6, 0.0, 100.0).unwrap());
    let (mut stale, _) = split_bands(Grid::new(8, 6, 0.0, 100.0).unwrap());
    band_step(&k, 100.0, &upper, &lower.seam_row(), &mut fresh);
    band_step(&k, 100.0, &upper, &vec![0.0; 6], &mut stale);
    // Rows 0..3 do not read the ghost row; row 3, at the seam, does.
    assert_eq!(fresh.data[0..18], stale.data[0..18]);
    assert_ne!(fresh.data[19..23], stale.data[19..23]);
}

#[test]
fn pool_rows_match_the_full_sweep() {
    let k = heat_with(0.05);
    let g = patterned(9, 7);
    let mut full = Grid::new(9, 7, 0.0, 100.0).unwrap();
    sweep(&k, 100.0, &g, &mut full);
    for &(lo, hi) in &[(0usize, 9usize), (1, 8), (3, 5), (8, 9), (4, 4)] {
        let rows = compute_rows(&k, 100.0, &g, lo, hi);
        assert_eq!(rows, full.data[lo * 7..hi * 7].to_vec());
    }
    let mut dst = Grid::new(9, 7, -1.0, -1.0).unwrap();
    copy_border_rows(&g, &mut dst);
    assert_eq!(dst.data[0..7], g.data[0..7]);
    assert_eq!(dst.data[56..63], g.data[56..63]);
    assert!(dst.data[7..56].iter().all(|v| *v == -1.0));
    write_rows(&mut dst, 2, &vec![5.0; 7]);
    assert!(dst.data[14..21].iter().all(|v| *v == 5.0));
    assert_eq!(copy_cells(&g.data, 3, 6), g.data[3..6].to_vec());
}

#[test]
fn update_row_reads_the_given_rows() {
    let k = |s: Stencil<i64>| s.up * 1000 + s.down * 100 + s.left * 10 + s.right + s.center * 10000;
    let up = vec![1i64, 2, 3, 4];
    let row = vec![5i64, 6, 7, 8];
    let down = vec![9i64, 9, 9, 9];
    let mut dst = vec![0i64; 6];
    // Row 1 of a 5 by 4 grid: not the source row (2), so both inner cells take the kernel.
    update_row(&k, -7, 5, 4, 1, &up, 0, &row, 0, &down, 0, &mut dst, 1);
    assert_eq!(dst, vec![0, 5, 60000 + 2000 + 900 + 50 + 7, 70000 + 3000 + 900 + 60 + 8, 8, 0]);
    // Row 2 holds the source at column 2.
    update_row(&k, -7, 5, 4, 2, &up, 0, &row, 0, &down, 0, &mut dst, 0);
    assert_eq!(dst[0..4], [5, 60000 + 2000 + 900 + 50 + 7, -7, 8]);
}

#[test]
fn handshake_steps_through_one_exchange() {
    let mut w = Handshake::new(2);
    assert_eq!(w.ready(), 0);
    assert_eq!(w.poll(0, 0), Action::Publish);
    assert_eq!(w.ready(), 1);
    assert_eq!(w.poll(0, 0), Action::Wait);
    assert_eq!(w.poll(1, 0), Action::Compute);
    assert_eq!(w.done(), 1);
    assert_eq!(w.poll(1, 0), Action::Wait);
    assert_eq!(w.poll(1, 1), Action::Swap);
    assert_eq!((w.step, w.phase), (2, Phase::Publish));
    assert_eq!(w.poll(1, 1), Action::Publish);
    assert_eq!(w.poll(2, 1), Action::Compute);
    assert_eq!(w.poll(2, 2), Action::Swap);
    assert_eq!(w.poll(2, 2), Action::Finished);
    assert_eq!(w.step, 3);
}

#[test]
fn interleaved_workers_read_only_fresh_slots() {
    let steps = 6u64;
    // Each pattern says which worker polls next; the counters are read fresh.
    for pattern in [0b1011_0110u32, 0b0000_1111, 0b1111_0000, 0b0101_0101, 0b0011_1001] {
        let mut w = [Handshake::new(steps), Handshake::new(steps)];
        let mut slot = [0u64; 2];
        let mut computed = [0u64; 2];
        let mut turn = 0u32;
        while w[0].step <= steps || w[1].step <= steps {
            let me = ((pattern >> (turn % 32)) & 1) as usize;
            turn += 1;
            let peer = 1 - me;
            let (pr, pd) = (w[peer].ready(), w[peer].done());
            let step = w[me].step;
            match w[me].poll(pr, pd) {
                Action::Publish => slot[me] = step,
                Action::Compute => {
                    assert_eq!(slot[peer], step);
                    computed[me] += 1;
                }
                _ => {}
            }
        }
        assert_eq!(computed, [steps, steps]);
    }
}

#[test]
fn grid_bytes_round_trip() {
    let values = [0.0f64, 100.0, -2.5, 1e-300, f64::MAX, 8.0, 0.08, -0.0, 3.25];
    let g = Grid { rows: 3, cols: 3, data: values.iter().map(|v| v.to_bits()).collect() };
    let bytes = encode_grid(&g);
    assert_eq!(bytes.len(), 8 + 9 * 8);
    assert_eq!(bytes[0..8], [3, 0, 0, 0, 3, 0, 0, 0]);
    assert_eq!(bytes[16..24], 100.0f64.to_le_bytes());
    let back = decode_grid(&bytes, 3, 3).unwrap();
    assert_eq!(back.data, g.data);
    let floats: Vec<f64> = back.data.iter().map(|b| f64::from_bits(*b)).collect();
    assert_eq!(floats[1], 100.0);
    assert_eq!(floats[6], 0.08);
}

#[test]
fn grid_bytes_errors() {
    let g = Grid { rows: 3, cols: 4, data: (0..12u64).collect() };
    let bytes = encode_grid(&g);
    assert_eq!(bytes[0..8], [3, 0, 0, 0, 4, 0, 0, 0]);
    assert_eq!(decode_grid(&bytes[0..5].to_vec(), 3, 4).err(), Some(LoadError::Truncated));
    assert_eq!(
        decode_grid(&bytes, 4, 4).err(),
        Some(LoadError::ShapeMismatch { rows: 3, cols: 4 })
    );
    assert_eq!(
        decode_grid(&bytes[0..bytes.len() - 1].to_vec(), 3, 4).err(),
        Some(LoadError::Truncated)
    );
    let mut longer = bytes.clone();
    longer.push(7);
    assert_eq!(decode_grid(&longer, 3, 4).unwrap().data, g.data);
    let big = Grid { rows: 1, cols: 1, data: vec![0x0102_0304_0506_0708u64] };
    assert_eq!(encode_grid(&big)[8..16], [8, 7, 6, 5, 4, 3, 2, 1]);
}

fn scheduled(start: &Grid<f64>, steps: usize, turns: &Vec<bool>) -> (Result<bool, ConfigError>, Grid<f64>) {
    let k = heat_with(0.12);
    let mut a = copy_of(start);
    let mut b = Grid::new(start.rows, start.cols, 0.0, 100.0).unwrap();
    let r = run_counter_handshake(&k, 100.0, &mut a, &mut b, steps, &turns);
    (r, a)
}

#[test]
fn counter_handshake_matches_the_reference_under_any_interleaving() {
    let k = heat_with(0.12);
    let start = patterned(9, 6);
    let steps = 5;
    let mut reference = copy_of(&start);
    let mut spare = Grid::new(9, 6, 0.0, 100.0).unwrap();
    jacobi_step(&k, 100.0, &mut reference, &mut spare, steps).unwrap();

    let alternating: Vec<bool> = (0..6 * steps).map(|i| i % 2 == 0).collect();
    let (r, a) = scheduled(&start, steps, &alternating);
    assert_eq!(r, Ok(true));
    assert_eq!(a.data, reference.data);

    let mut seed: u64 = 12345;
    for _ in 0..20 {
        let turns: Vec<bool> = (0..400)
            .map(|_| {
                seed = seed.wrapping_mul(6364136223846793005).wrapping_add(1442695040888963407);
                (seed >> 33) % 3 == 0
            })
            .collect();
        let (r, a) = scheduled(&start, steps, &turns);
        assert_eq!(r, Ok(true));
        assert_eq!(a.data, reference.data);
    }

    let upper_first: Vec<bool> = (0..200).map(|i| i < 100).collect();
    let (r, _) = scheduled(&start, steps, &upper_first);
    assert_eq!(r, Ok(false));
}

#[test]
fn counter_handshake_reports_unfinished_and_bad_pairs() {
    let start = patterned(6, 5);
    let (r, a) = scheduled(&start, 0, &vec![]);
    assert_eq!(r, Ok(true));
    assert_eq!(a.data, start.data);
    let (r, a) = scheduled(&start, 2, &vec![true, false, true, false]);
    assert_eq!(r, Ok(false));
    assert_eq!(a.data.len(), 30);
    let k = heat_with(0.1);
    let mut bad = Grid { rows: 6, cols: 5, data: vec![0.0; 29] };
    let mut other = Grid::new(6, 5, 0.0, 100.0).unwrap();
    assert_eq!(
        run_counter_handshake(&k, 100.0, &mut bad, &mut other, 1, &vec![true]),
        Err(ConfigError::ShapeMismatch)
    );
}

#[test]
fn second_buffer_holds_the_step_before() {
    let k = heat_with(0.1);
    let start = patterned(7, 6);
    let second = Grid::new(7, 6, 3.0, 100.0).unwrap();
    for &steps in &[0usize, 1, 2, 9] {
        let mut expected_a = copy_of(&start);
        let mut expected_b = copy_of(&second);
        jacobi_step(&k, 100.0, &mut expected_a, &mut expected_b, steps).unwrap();
        let before = if steps == 0 {
            second.data.clone()
        } else {
            naive(&start.data, 7, 6, steps - 1, 0.1)
        };
        for x in 0..42 {
            assert!((expected_b.data[x] - before[x]).abs() <= 1e-10);
        }
        let turns: Vec<bool> = (0..6 * steps).map(|i| i % 2 == 0).collect();
        for which in 0..3 {
            let mut a = copy_of(&start);
            let mut b = copy_of(&second);
            match which {
                0 => run_banded(&k, 100.0, &mut a, &mut b, steps).unwrap(),
                1 => run_row_parallel(&k, 100.0, &mut a, &mut b, steps, 2).unwrap(),
                _ => assert_eq!(run_counter_handshake(&k, 100.0, &mut a, &mut b, steps, &turns), Ok(true)),
            }
            assert_eq!(a.data, expected_a.data);
            assert_eq!(b.data, expected_b.data);
        }
    }
}

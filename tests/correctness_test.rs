use jacobi_rust::driver::{jacobi_step, run_banded, run_counter_handshake, run_row_parallel};
use jacobi_rust::grid::Grid;
use jacobi_rust::stencil::Stencil;

const N: usize = 128;
const M: usize = 128;
const TEST_STEPS: usize = 10;
const EPSILON: f64 = 1e-10;
const ALPHA: f64 = 0.8;
const DT: f64 = 0.1;
const DX: f64 = 1.0;
const WORKERS: usize = 4;

fn factor() -> f64 {
    ALPHA * DT / (DX * DX)
}

fn heat(s: Stencil<f64>) -> f64 {
    let laplacian = s.up + s.down + s.left + s.right - 4.0 * s.center;
    s.center + factor() * laplacian
}

fn new_grid() -> Grid<f64> {
    Grid::new(N, M, 0.0, 100.0).unwrap()
}

/// Every cell of the two grids agrees within the tolerance.
fn grids_are_equal(grid1: &Grid<f64>, grid2: &Grid<f64>) -> bool {
    if grid1.data.len() != grid2.data.len() {
        return false;
    }
    for i in 0..grid1.data.len() {
        let diff = (grid1.data[i] - grid2.data[i]).abs();
        if diff > EPSILON {
            println!(
                "Mismatch at index {}: {} vs {} (diff: {})",
                i, grid1.data[i], grid2.data[i], diff
            );
            return false;
        }
    }
    true
}

fn single() -> Grid<f64> {
    let mut a = new_grid();
    let mut b = new_grid();
    jacobi_step(&heat, 100.0, &mut a, &mut b, TEST_STEPS).unwrap();
    a
}

fn banded() -> Grid<f64> {
    let mut a = new_grid();
    let mut b = new_grid();
    run_banded(&heat, 100.0, &mut a, &mut b, TEST_STEPS).unwrap();
    a
}

/// The step-counter handshake, the two band workers taking strict turns.
fn counter() -> Grid<f64> {
    let mut a = new_grid();
    let mut b = new_grid();
    let turns: Vec<bool> = (0..6 * TEST_STEPS).map(|i| i % 2 == 0).collect();
    let r = run_counter_handshake(&heat, 100.0, &mut a, &mut b, TEST_STEPS, &turns);
    assert_eq!(r, Ok(true));
    a
}

fn row_parallel() -> Grid<f64> {
    let mut a = new_grid();
    let mut b = new_grid();
    run_row_parallel(&heat, 100.0, &mut a, &mut b, TEST_STEPS, WORKERS).unwrap();
    a
}

#[test]
fn test_single_vs_semaphore() {
    assert!(
        grids_are_equal(&single(), &counter()),
        "Single-thread and semaphore implementations produce different results"
    );
    println!("✓ Single vs Semaphore: Results match!");
}

#[test]
fn correctness_test_test_single_step_consistency() {
    assert!(
        grids_are_equal(&single(), &single()),
        "Single-thread implementation is not deterministic"
    );
    println!("✓ Single-thread consistency: Results match!");
}

#[test]
fn correctness_test_test_heat_source_preserved() {
    let final_grid = single();
    let heat_source_idx = N / 2 * M + M / 2;
    assert_eq!(
        final_grid.data[heat_source_idx], 100.0,
        "Heat source at ({}, {}) should remain 100.0, but got {}",
        N / 2, M / 2, final_grid.data[heat_source_idx]
    );
    println!("✓ Heat source preserved: 100.0 at center!");
}

#[test]
fn correctness_test_test_boundary_conditions() {
    let final_grid = single();
    for j in 0..M {
        let idx = j;
        assert_eq!(
            final_grid.data[idx], 0.0,
            "Top boundary at (0, {}) should be 0.0, but got {}",
            j, final_grid.data[idx]
        );
    }
    for j in 0..M {
        let idx = (N - 1) * M + j;
        assert_eq!(
            final_grid.data[idx], 0.0,
            "Bottom boundary at ({}, {}) should be 0.0, but got {}",
            N - 1, j, final_grid.data[idx]
        );
    }
    for i in 0..N {
        let idx = i * M;
        assert_eq!(
            final_grid.data[idx], 0.0,
            "Left boundary at ({}, 0) should be 0.0, but got {}",
            i, final_grid.data[idx]
        );
    }
    for i in 0..N {
        let idx = i * M + (M - 1);
        assert_eq!(
            final_grid.data[idx], 0.0,
            "Right boundary at ({}, {}) should be 0.0, but got {}",
            i, M - 1, final_grid.data[idx]
        );
    }
    println!("✓ Boundary conditions: All boundaries remain 0.0!");
}

#[test]
fn correctness_test_test_single_vs_barrier_parallel() {
    assert!(
        grids_are_equal(&single(), &banded()),
        "Single-thread and barrier parallel implementations produce different results"
    );
    println!("✓ Single vs Barrier Parallel: Results match!");
}

#[test]
fn test_single_vs_barrier_parallel_02() {
    assert!(
        grids_are_equal(&single(), &banded()),
        "Single-thread and barrier parallel 02 implementations produce different results"
    );
    println!("✓ Single vs Barrier Parallel 02: Results match!");
}

#[test]
fn test_barrier_parallel_vs_barrier_parallel_02() {
    assert!(grids_are_equal(&banded(), &banded()));
    println!("✓ Barrier Parallel vs Barrier Parallel 02: Results match!");
}

#[test]
fn test_single_vs_rayon() {
    assert!(
        grids_are_equal(&single(), &row_parallel()),
        "Single-thread and rayon implementations produce different results"
    );
    println!("✓ Single vs Rayon: Results match!");
}

#[test]
fn correctness_test_test_single_vs_rayon_v2() {
    assert!(
        grids_are_equal(&single(), &row_parallel()),
        "Single-thread and rayon v2 implementations produce different results"
    );
    println!("✓ Single vs Rayon v2: Results match!");
}

#[test]
fn test_single_vs_barrier_parallel_03() {
    assert!(
        grids_are_equal(&single(), &banded()),
        "Single-thread and barrier parallel 03 implementations produce different results"
    );
    println!("✓ Single vs Barrier Parallel 03: Results match!");
}

#[test]
fn test_barrier_parallel_02_vs_03() {
    assert!(
        grids_are_equal(&banded(), &banded()),
        "Barrier parallel 02 and 03 implementations produce different results"
    );
    println!("✓ Barrier Parallel 02 vs 03: Results match!");
}

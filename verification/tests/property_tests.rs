use hopfield_canvas::gen_image;
use hopfield_canvas::relax::delta_energy;
use hopfield_canvas::relax::overlap_of;
use hopfield_canvas::relax::tile_energy_of;
use hopfield_canvas::Canvas;
use hopfield_canvas::CanvasError;
use hopfield_canvas::Cell;
use hopfield_canvas::Dimension;
use hopfield_canvas::Grid;

fn grid_diffs(a: &Grid, b: &Grid) -> usize {
    a.cells
        .iter()
        .zip(b.cells.iter())
        .filter(|(x, y)| x != y)
        .count()
}

#[test]
fn test_create_valid_dimensions() {
    // Divisibility satisfied: creation succeeds with one grid per position.
    let canvas = Canvas::new(40, 60, 6, 8).unwrap();
    assert_eq!(canvas.grids.len(), (40 / 8) * (60 / 6));
    assert_eq!(canvas.width(), 40);
    assert_eq!(canvas.height(), 60);
    for grid in &canvas.grids {
        assert_eq!(grid.width(), 8);
        assert_eq!(grid.height(), 6);
        assert!(grid.cells.iter().all(|&c| c == Cell::White));
    }

    let single = Canvas::new(1, 1, 1, 1).unwrap();
    assert_eq!(single.grids.len(), 1);
}

#[test]
fn test_create_width_mismatch() {
    let r = Canvas::new(100, 100, 10, 7);
    assert_eq!(
        r.unwrap_err(),
        CanvasError::DimensionMismatch {
            dimension: Dimension::Width,
            size: 100,
            divisor: 7,
        }
    );
}

#[test]
fn test_create_height_mismatch() {
    let r = Canvas::new(100, 90, 7, 10);
    assert_eq!(
        r.unwrap_err(),
        CanvasError::DimensionMismatch {
            dimension: Dimension::Height,
            size: 90,
            divisor: 7,
        }
    );
}

#[test]
fn test_create_both_mismatched_names_width_first() {
    let r = Canvas::new(7, 9, 2, 3);
    assert_eq!(
        r.unwrap_err(),
        CanvasError::DimensionMismatch {
            dimension: Dimension::Width,
            size: 7,
            divisor: 3,
        }
    );
}

#[test]
fn test_grid_get_absent_iff_out_of_bounds() {
    let grid = Grid::new(3, 4);
    for x in 0..6u32 {
        for y in 0..6u32 {
            let r = grid.get(x, y);
            if x < 3 && y < 4 {
                assert_eq!(r, Some(Cell::White));
            } else {
                assert_eq!(r, None);
            }
        }
    }
}

#[test]
fn test_grid_set_in_and_out_of_bounds() {
    let mut grid = Grid::new(3, 2);
    assert!(grid.set(2, 1, Cell::Black));
    assert_eq!(grid.get(2, 1), Some(Cell::Black));
    assert_eq!(grid.get(1, 1), Some(Cell::White));

    let before = grid.cells.clone();
    assert!(!grid.set(3, 0, Cell::Black));
    assert!(!grid.set(0, 2, Cell::Black));
    assert_eq!(grid.cells, before);
}

#[test]
fn test_step_pattern_length_mismatch() {
    let mut canvas = Canvas::new(10, 10, 5, 5).unwrap();
    let before: Vec<Cell> = canvas.grids.iter().flat_map(|g| g.cells.clone()).collect();
    let r = canvas.step(vec![Cell::White; 99]);
    assert_eq!(
        r,
        Err(CanvasError::PatternLengthMismatch {
            expected: 100,
            actual: 99,
        })
    );
    let after: Vec<Cell> = canvas.grids.iter().flat_map(|g| g.cells.clone()).collect();
    assert_eq!(before, after);
}

#[test]
fn test_energy_delta_scenario() {
    // A 2x2 tile with reference [White, Black, White, Black] and cells
    // [White, White, Black, Black]: the overlap is 0, so the energy delta is
    // -2 where cell and reference agree and +2 where they differ.
    let pattern = vec![Cell::White, Cell::Black, Cell::White, Cell::Black];
    let cells = vec![Cell::White, Cell::White, Cell::Black, Cell::Black];
    assert_eq!(overlap_of(&pattern, &cells), 0);
    assert_eq!(delta_energy(&pattern, &cells, 0), -2);
    assert_eq!(delta_energy(&pattern, &cells, 1), 2);
    assert_eq!(delta_energy(&pattern, &cells, 2), 2);
    assert_eq!(delta_energy(&pattern, &cells, 3), -2);

    // The first step call flips index 0 (the first minimum) and reports
    // not-stable.
    let mut canvas = Canvas::new(2, 2, 2, 2).unwrap();
    canvas.grids[0].cells = cells.clone();
    let stable = canvas.step(pattern).unwrap();
    assert!(!stable);
    assert_eq!(
        canvas.grids[0].cells,
        vec![Cell::Black, Cell::White, Cell::Black, Cell::Black]
    );
}

#[test]
fn test_step_flips_at_most_one_cell_per_grid() {
    let mut canvas = Canvas::new(20, 20, 10, 10).unwrap();
    canvas.randomize();
    let image = gen_image(20, 20);
    for _ in 0..10 {
        let before = canvas.grids.clone();
        let stable = canvas.step(image.clone()).unwrap();
        let mut total_flips = 0usize;
        for (b, a) in before.iter().zip(canvas.grids.iter()) {
            let d = grid_diffs(b, a);
            assert!(d <= 1);
            total_flips += d;
        }
        // Stable exactly when the call produced zero flips anywhere.
        assert_eq!(stable, total_flips == 0);
    }
}

#[test]
fn test_energy_monotone_and_convergence() {
    let mut canvas = Canvas::new(20, 20, 10, 10).unwrap();
    canvas.randomize();
    let image = gen_image(20, 20);
    let slice_len = 100usize;
    let slices: Vec<Vec<Cell>> = (0..4)
        .map(|t| image[t * slice_len..(t + 1) * slice_len].to_vec())
        .collect();
    let energies = |c: &Canvas| -> Vec<i128> {
        c.grids
            .iter()
            .zip(slices.iter())
            .map(|(g, s)| tile_energy_of(s, &g.cells))
            .collect()
    };

    let mut prev = energies(&canvas);
    let mut converged_at = None;
    // Each grid holds 100 cells, so the canvas must settle within 100 calls.
    for call in 0..101 {
        let stable = canvas.step(image.clone()).unwrap();
        let now = energies(&canvas);
        for (e_new, e_old) in now.iter().zip(prev.iter()) {
            assert!(e_new <= e_old);
        }
        prev = now;
        if stable {
            converged_at = Some(call);
            break;
        }
    }
    assert!(converged_at.is_some());

    // Once converged, further calls stay stable and change nothing.
    let settled: Vec<Cell> = canvas.grids.iter().flat_map(|g| g.cells.clone()).collect();
    for _ in 0..3 {
        assert!(canvas.step(image.clone()).unwrap());
    }
    let after: Vec<Cell> = canvas.grids.iter().flat_map(|g| g.cells.clone()).collect();
    assert_eq!(settled, after);
}

#[test]
fn test_generated_pattern_converges() {
    // A 20x20 surface with 10x10 grids and a generated reference pattern
    // settles within a bounded number of calls and never fails.
    let mut canvas = Canvas::new(20, 20, 10, 10).unwrap();
    canvas.randomize();
    let image = gen_image(20, 20);
    let mut stable = false;
    for _ in 0..101 {
        stable = canvas.step(image.clone()).unwrap();
        if stable {
            break;
        }
    }
    assert!(stable);
    assert!(canvas.step(image).unwrap());
}

#[test]
fn test_get_grids_cells_matches_grids() {
    let mut canvas = Canvas::new(6, 6, 3, 3).unwrap();
    canvas.randomize();
    assert_eq!(canvas.grids_len(), 4);
    for t in 0..canvas.grids_len() {
        assert_eq!(canvas.get_grids_cells(t), &canvas.grids[t].cells);
    }
}

#[test]
fn test_tile_energy_exact_value() {
    // Reference all White against cells all White over 4 positions: the
    // overlap is 4 and the energy is -(4 - 1)^2 = -9.
    let pattern = vec![Cell::White; 4];
    let cells = vec![Cell::White; 4];
    assert_eq!(tile_energy_of(&pattern, &cells), -9);

    // One disagreeing cell lowers the overlap to 2: energy -(2 - 1)^2 = -1.
    let cells2 = vec![Cell::Black, Cell::White, Cell::White, Cell::White];
    assert_eq!(tile_energy_of(&pattern, &cells2), -1);
}

#[test]
fn test_tile_at_mapping() {
    let canvas = Canvas::new(20, 20, 10, 10).unwrap();
    assert_eq!(canvas.tile_at(0, 0), Some(0));
    assert_eq!(canvas.tile_at(9, 9), Some(0));
    assert_eq!(canvas.tile_at(10, 9), Some(1));
    assert_eq!(canvas.tile_at(19, 0), Some(1));
    assert_eq!(canvas.tile_at(0, 19), Some(2));
    assert_eq!(canvas.tile_at(19, 19), Some(3));
    assert_eq!(canvas.tile_at(20, 0), None);
    assert_eq!(canvas.tile_at(0, 20), None);
}

use blue_noise::clamp_coord;
use blue_noise::jfa::{home_cells, jfa, jfa_step, jump_schedule, seed_grid, JfaError};

/// Scales a point of the box `width` by `height` to a grid of resolution `res`.
fn scaled(p: (f64, f64), config: (f64, f64), res: usize) -> (usize, usize) {
    (
        (p.0 * res as f64 / config.0).floor() as usize,
        (p.1 * res as f64 / config.1).floor() as usize,
    )
}

fn sq(a: usize, b: usize) -> usize {
    let d = if a > b { a - b } else { b - a };
    d * d
}

#[test]
fn test_insert_pixel() {
    const RESO: usize = 512;
    let points = vec![(1.0, 1.0)];
    let config = (2.0, 2.0);
    let scaled_points: Vec<(usize, usize)> = points.iter().map(|p| scaled(*p, config, RESO)).collect();

    let pixel_grid = jfa(&scaled_points, RESO).unwrap();

    // a single seed floods the whole grid, this far corner included
    assert_eq!(pixel_grid[12], 1);
    assert_eq!(pixel_grid[512 * RESO / 2 + RESO / 2], 1);
}

#[test]
fn single_seed_owns_every_cell() {
    for res in [1usize, 2, 4, 16, 64] {
        for seed in [(0usize, 0usize), (res - 1, 0), (res / 3, res / 2), (res * 5, res * 5)] {
            let grid = jfa(&vec![seed], res).unwrap();
            assert_eq!(grid.len(), res * res);
            assert!(grid.iter().all(|&c| c == 1), "res {} seed {:?}", res, seed);
        }
    }
}

#[test]
fn seed_home_cell_keeps_its_owner() {
    let grid = jfa(&vec![(256, 256)], 512).unwrap();
    assert_eq!(grid[512 * 256 + 256], 1);
}

#[test]
fn two_seeds_cells_go_to_a_near_seed() {
    let res = 64;
    let seeds = vec![(10usize, 12usize), (50usize, 40usize)];
    let grid = jfa(&seeds, res).unwrap();
    for y in 0..res {
        for x in 0..res {
            let owner = grid[x + y * res];
            assert!(owner == 1 || owner == 2);
            let mine = seeds[owner - 1];
            let other = seeds[2 - owner];
            let d_mine = sq(x, mine.0) + sq(y, mine.1);
            let d_other = sq(x, other.0) + sq(y, other.1);
            assert!(d_mine <= d_other + 2 * res, "cell ({}, {})", x, y);
        }
    }
}

#[test]
fn two_runs_give_identical_grids() {
    let seeds = vec![(3usize, 7usize), (20, 5), (9, 28), (30, 30), (15, 15)];
    let a = jfa(&seeds, 32).unwrap();
    let b = jfa(&seeds, 32).unwrap();
    assert_eq!(a, b);
}

#[test]
fn no_seed_leaves_the_grid_empty() {
    let grid = jfa(&Vec::new(), 16).unwrap();
    assert_eq!(grid.len(), 256);
    assert!(grid.iter().all(|&c| c == 0));
}

#[test]
fn zero_resolution_is_rejected() {
    assert_eq!(jfa(&vec![(1, 1)], 0), Err(JfaError::ZeroResolution));
}

#[test]
fn coordinates_are_clamped_into_the_grid() {
    assert_eq!(clamp_coord(600, 512), 511);
    assert_eq!(clamp_coord(511, 512), 511);
    assert_eq!(clamp_coord(3, 512), 3);
    assert_eq!(home_cells(&vec![(600, 3), (2, 512)], 512), vec![(511, 3), (2, 511)]);
}

#[test]
fn later_seed_overwrites_a_shared_cell() {
    let grid = seed_grid(&vec![(1, 1), (2, 0), (1, 1)], 4);
    assert_eq!(grid[1 + 4], 3);
    assert_eq!(grid[2], 2);
    assert_eq!(grid.iter().filter(|&&c| c != 0).count(), 2);
}

#[test]
fn step_adopts_and_prefers_strictly_closer_seeds() {
    // seeds 1 at (0, 0) and 2 at (3, 0) on a 4x1 strip of a 4x4 grid
    let seeds = vec![(0usize, 0usize), (3usize, 0usize)];
    let mut grid = seed_grid(&seeds, 4);
    jfa_step(&mut grid, &seeds, 4, 1);
    assert_eq!(&grid[0..4], &[1, 1, 2, 2]);
    // cell (1, 0) is closer to seed 1, cell (2, 0) to seed 2
    let mut wrong = vec![0usize; 16];
    wrong[1] = 2;
    wrong[0] = 1;
    jfa_step(&mut wrong, &seeds, 4, 1);
    assert_eq!(wrong[1], 1);
}

#[test]
fn schedule_refines_then_halves() {
    assert_eq!(jump_schedule(512), vec![1, 256, 128, 64, 32, 16, 8, 4, 2, 1]);
    assert_eq!(jump_schedule(12), vec![1, 6, 3, 1]);
    assert_eq!(jump_schedule(1), vec![1]);
}

#[test]
fn colliding_seeds_leave_the_earlier_one_without_cells() {
    let grid = jfa(&vec![(5, 5), (5, 5)], 16).unwrap();
    assert!(grid.iter().all(|&c| c == 2));
}

#[test]
fn each_seed_cell_stays_with_its_seed() {
    let seeds = vec![(3usize, 7usize), (20, 5), (9, 28), (30, 30), (15, 15)];
    let res = 32;
    let grid = jfa(&seeds, res).unwrap();
    for (i, s) in seeds.iter().enumerate() {
        assert_eq!(grid[s.0 + s.1 * res], i + 1);
    }
}

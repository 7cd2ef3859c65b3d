use dice_merge::{compute_sum, Grid};

fn grid_from_array(a: [u32; 9]) -> Grid {
    let mut g = Grid::default();
    for (i, n) in a.into_iter().enumerate() {
        g.set(i % 3, i / 3, n);
    }
    g
}

#[test]
fn test_1() {
    let depth = 20;
    let grid = grid_from_array([0, 6, 0, 2, 2, 2, 1, 6, 1]);
    assert_eq!(compute_sum(grid, depth), 322444322);
}

#[test]
fn test_2() {
    let depth = 20;
    let grid = grid_from_array([5, 0, 6, 4, 5, 0, 0, 6, 4]);
    assert_eq!(compute_sum(grid, depth), 951223336);
}

#[test]
fn test_3() {
    let depth = 1;
    let grid = grid_from_array([5, 5, 5, 0, 0, 5, 5, 5, 5]);
    assert_eq!(compute_sum(grid, depth), 36379286);
}

#[test]
fn test_4() {
    let depth = 1;
    let grid = grid_from_array([6, 1, 6, 1, 0, 1, 6, 1, 6]);
    assert_eq!(compute_sum(grid, depth), 264239762);
}

#[test]
fn test_5() {
    let depth = 8;
    let grid = grid_from_array([6, 0, 6, 0, 0, 0, 6, 1, 5]);
    assert_eq!(compute_sum(grid, depth), 76092874);
}

#[test]
fn test_6() {
    let depth = 24;
    let grid = grid_from_array([3, 0, 0, 3, 6, 2, 1, 0, 2]);
    assert_eq!(compute_sum(grid, depth), 661168294);
}

#[test]
fn test_7() {
    let depth = 36;
    let grid = grid_from_array([6, 0, 4, 2, 0, 2, 4, 0, 0]);
    assert_eq!(compute_sum(grid, depth), 350917228);
}

#[test]
fn test_8() {
    let depth = 32;
    let grid = grid_from_array([0, 0, 0, 0, 5, 4, 1, 0, 5]);
    assert_eq!(compute_sum(grid, depth), 999653138);
}

#[test]
fn test_9() {
    let depth = 40;
    let grid = grid_from_array([0, 0, 4, 0, 2, 4, 1, 3, 4]);
    assert_eq!(compute_sum(grid, depth), 521112022);
}

#[test]
fn test_10() {
    let depth = 40;
    let grid = grid_from_array([0, 5, 4, 0, 3, 0, 0, 3, 0]);
    assert_eq!(compute_sum(grid, depth), 667094338);
}

#[test]
fn test_11() {
    let depth = 20;
    let grid = grid_from_array([0, 5, 1, 0, 0, 0, 4, 0, 1]);
    assert_eq!(compute_sum(grid, depth), 738691369);
}

#[test]
fn test_12() {
    let depth = 20;
    let grid = grid_from_array([1, 0, 0, 3, 5, 2, 1, 0, 0]);
    assert_eq!(compute_sum(grid, depth), 808014757);
}

/// The base-10 positional checksum of a board, cell 0 most significant.
fn hash_of(a: [u32; 9]) -> u32 {
    a.iter().fold(0u32, |acc, &v| acc * 10 + v)
}

#[test]
fn depth_zero_is_own_hash() {
    let cells = [0, 6, 0, 2, 2, 2, 1, 6, 1];
    let grid = grid_from_array(cells);
    assert_eq!(compute_sum(grid, 0), hash_of(cells));
    let cells2 = [5, 0, 6, 4, 5, 0, 0, 6, 4];
    let grid2 = grid_from_array(cells2);
    assert_eq!(compute_sum(grid2, 0), hash_of(cells2));
}

#[test]
fn full_board_is_terminal_at_any_depth() {
    let cells = [6, 1, 6, 1, 2, 1, 6, 1, 6];
    let grid = grid_from_array(cells);
    assert!(grid.possible_states().is_empty());
    assert_eq!(grid.dice_count(), 9);
    // The whole remaining budget is absorbed at once: one contribution.
    assert_eq!(compute_sum(grid, 5), hash_of(cells) % (1 << 30));
    assert_eq!(compute_sum(grid, 40), compute_sum(grid, 1));
}

use dice_merge::Grid;

fn grid_from_array(a: [u32; 9]) -> Grid {
    let mut g = Grid::default();
    for (i, n) in a.into_iter().enumerate() {
        g.set(i % 3, i / 3, n);
    }
    g
}

#[test]
fn test_transforms_diag() {
    let grid = grid_from_array([0, 1, 2, 3, 4, 5, 6, 0, 1]);
    assert_eq!(grid.d_flip().v_flip(), grid.dv_flip());
    assert_eq!(grid.d_flip().h_flip(), grid.dh_flip());
    assert_eq!(grid.d_flip().vh_flip(), grid.dvh_flip());
    assert_eq!(grid.d_flip().d_flip(), grid);
    assert_eq!(grid.d_flip().dv_flip(), grid.v_flip());
    assert_eq!(grid.d_flip().dh_flip(), grid.h_flip());
    assert_eq!(grid.d_flip().dvh_flip(), grid.vh_flip());

    assert_eq!(grid.dv_flip().d_flip(), grid.h_flip());
    assert_eq!(grid.dv_flip().dv_flip(), grid.vh_flip());
    assert_eq!(grid.dv_flip().dvh_flip(), grid.v_flip());
}

#[test]
fn test_transforms_table() {
    let grid = grid_from_array([0, 0, 0, 0, 0, 0, 0, 0, 0]);
    let f_table = [
        [0, 1, 2, 3, 4, 5, 6, 7],
        [1, 0, 3, 2, 6, 7, 4, 5],
        [2, 3, 0, 1, 5, 4, 7, 6],
        [3, 2, 1, 0, 7, 6, 5, 4],
        [4, 5, 6, 7, 0, 1, 2, 3],
        [5, 4, 7, 6, 2, 3, 0, 1],
        [6, 7, 4, 5, 1, 0, 3, 2],
        [7, 6, 5, 4, 3, 2, 1, 0],
    ];

    let transforms = [
        grid,
        grid.v_flip(),
        grid.h_flip(),
        grid.vh_flip(),
        grid.d_flip(),
        grid.dv_flip(),
        grid.dh_flip(),
        grid.dvh_flip(),
    ];

    for (grid_base, list) in transforms.into_iter().zip(f_table.into_iter()) {
        for (i, grid_output) in list.into_iter().map(|i| transforms[i]).enumerate() {
            let transform = match i {
                0 => grid_base,
                1 => grid_base.v_flip(),
                2 => grid_base.h_flip(),
                3 => grid_base.vh_flip(),
                4 => grid_base.d_flip(),
                5 => grid_base.dv_flip(),
                6 => grid_base.dh_flip(),
                7 => grid_base.dvh_flip(),
                _ => unreachable!(),
            };
            assert_eq!(transform, grid_output);
        }
    }
}

#[test]
fn composition_table_on_a_crowded_board() {
    // The table test above runs on the empty board; repeat it on a board
    // with nine distinct-looking cells so every permutation is visible.
    let grid = grid_from_array([0, 1, 2, 3, 4, 5, 6, 0, 1]);
    let f_table = [
        [0, 1, 2, 3, 4, 5, 6, 7],
        [1, 0, 3, 2, 6, 7, 4, 5],
        [2, 3, 0, 1, 5, 4, 7, 6],
        [3, 2, 1, 0, 7, 6, 5, 4],
        [4, 5, 6, 7, 0, 1, 2, 3],
        [5, 4, 7, 6, 2, 3, 0, 1],
        [6, 7, 4, 5, 1, 0, 3, 2],
        [7, 6, 5, 4, 3, 2, 1, 0],
    ];
    let apply = |g: Grid, t: usize| match t {
        0 => g,
        1 => g.v_flip(),
        2 => g.h_flip(),
        3 => g.vh_flip(),
        4 => g.d_flip(),
        5 => g.dv_flip(),
        6 => g.dh_flip(),
        _ => g.dvh_flip(),
    };
    for a in 0..8 {
        for b in 0..8 {
            assert_eq!(apply(apply(grid, a), b), apply(grid, f_table[a][b]));
        }
    }
}

#[test]
fn canonical_is_symmetry_invariant() {
    let grid = grid_from_array([0, 6, 0, 2, 2, 2, 1, 6, 1]);
    let canon = grid.canonical().1;
    assert_eq!(grid.v_flip().canonical().1, canon);
    assert_eq!(grid.h_flip().canonical().1, canon);
    assert_eq!(grid.vh_flip().canonical().1, canon);
    assert_eq!(grid.d_flip().canonical().1, canon);
    assert_eq!(grid.dv_flip().canonical().1, canon);
    assert_eq!(grid.dh_flip().canonical().1, canon);
    assert_eq!(grid.dvh_flip().canonical().1, canon);
}

#[test]
fn canonical_is_idempotent() {
    let grid = grid_from_array([5, 0, 6, 4, 5, 0, 0, 6, 4]);
    let (_, canon) = grid.canonical();
    let (idx2, canon2) = canon.canonical();
    assert_eq!(idx2, 0);
    assert_eq!(canon2, canon);
}

#[test]
fn canonical_picks_smallest_image() {
    let grid = grid_from_array([1, 0, 0, 0, 0, 0, 0, 0, 0]);
    // The packed word weighs cell 0 least, so the canonical image keeps the
    // lone die in the top-left corner and the transform index is 0.
    let (idx, canon) = grid.canonical();
    assert_eq!(idx, 0);
    assert_eq!(canon, grid);
    // The same die in the bottom-right corner packs largest; its canonical
    // form moves it back to the top-left.
    let far = grid_from_array([0, 0, 0, 0, 0, 0, 0, 0, 1]);
    assert_eq!(far.canonical().1, grid);
}

use dice_merge::{Bitboard, Grid};

fn grid_from_array(a: [u32; 9]) -> Grid {
    let mut g = Grid::default();
    for (i, n) in a.into_iter().enumerate() {
        g.set(i % 3, i / 3, n);
    }
    g
}

#[test]
fn bitboard_from_state_round_trips() {
    let state = [[0, 1, 2], [3, 4, 5], [6, 0, 1]];
    let b = Bitboard::from_state(state);
    for row in 0..3 {
        for col in 0..3 {
            assert_eq!(b.get(row, col) as u32, state[row][col]);
        }
    }
}

#[test]
fn bitboard_new_is_empty_and_set_writes_one_cell() {
    let mut b = Bitboard::new();
    for row in 0..3 {
        for col in 0..3 {
            assert_eq!(b.get(row, col), 0);
        }
    }
    b.set(1, 2, 5);
    assert_eq!(b.get(1, 2), 5);
    assert_eq!(b.get(1, 1), 0);
    assert_eq!(b.get(2, 1), 0);
}

#[test]
fn grid_get_set_are_column_row_addressed() {
    let mut g = Grid::default();
    g.set(2, 0, 4);
    assert_eq!(g.get(2, 0), 4);
    assert_eq!(g.get(0, 2), 0);
    let a = grid_from_array([1, 2, 3, 4, 5, 6, 0, 1, 2]);
    assert_eq!(a.get(0, 0), 1);
    assert_eq!(a.get(1, 0), 2);
    assert_eq!(a.get(0, 1), 4);
    assert_eq!(a.get(2, 2), 2);
}

#[test]
fn occupancy_masks_count_cells() {
    let g = grid_from_array([1, 0, 2, 0, 0, 0, 0, 0, 0]);
    // Cell 0 is the most significant of the nine mask bits.
    assert_eq!(g.occupied(), 0b101000000);
    assert_eq!(g.empty_mask(), 0b010111111);
    assert_eq!(g.dice_count(), 2);
    let full = grid_from_array([6, 1, 6, 1, 2, 1, 6, 1, 6]);
    assert_eq!(full.occupied(), 0x1FF);
    assert_eq!(full.empty_mask(), 0);
    assert_eq!(full.dice_count(), 9);
}

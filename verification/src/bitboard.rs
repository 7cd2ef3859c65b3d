use vstd::prelude::*;
use crate::grid::{cells, Grid};

verus! {

/// The value in row `row`, column `col` of a 3x3 input array.
pub open spec fn state_cell(state: [[u32; 3]; 3], row: int, col: int) -> u32 {
    (state@[row])@[col]
}

/// A 3x3 board of dice packed into a single word, addressed by row and
/// column: cell (row, col) sits at bit offset `3 * (row * 3 + col)`.
#[derive(Clone, Copy, Debug, PartialEq, Eq, Hash)]
pub struct Bitboard(pub u32);

impl Bitboard {
    /// A board is well formed when only the nine 3-bit cell fields are set
    /// and no cell holds the unused field value 7.
    pub open spec fn wf(self) -> bool {
        &&& self.0 >> 27 == 0
        &&& forall|i: int| 0 <= i < 9 ==> cells(self.0)[i] <= 6
    }

    /// Creates a new empty board (all cells set to 0).
    pub fn new() -> (r: Self)
        ensures
            r.wf(),
            r.0 == 0,
            forall|i: int| 0 <= i < 9 ==> cells(r.0)[i] == 0,
    {
        proof {
            crate::grid::lemma_zero_grid();
        }
        Bitboard(0)
    }

    /// Gets the value of a cell at (row, col).
    pub fn get(&self, row: usize, col: usize) -> (r: u8)
        requires
            row < 3,
            col < 3,
        ensures
            r == cells(self.0)[row as int * 3 + col as int],
    {
        let g = Grid { bitset: self.0 };
        proof {
            crate::grid::lemma_cells_bounded(self.0);
        }
        g.cell_at(row * 3 + col) as u8
    }

    /// Sets a cell at (row, col) with a value (1-6, 0 for empty).
    pub fn set(&mut self, row: usize, col: usize, value: u8)
        requires
            row < 3,
            col < 3,
            value <= 6,
            old(self).wf(),
        ensures
            final(self).wf(),
            cells(final(self).0) == cells(old(self).0).update(
                row as int * 3 + col as int,
                value as u32,
            ),
    {
        let mut g = Grid { bitset: self.0 };
        g.set_cell(row * 3 + col, value as u32);
        self.0 = g.bitset;
    }

    /// Builds a board from a 3x3 array of cell values, row-major.
    #[verifier::rlimit(60)]
    pub fn from_state(state: [[u32; 3]; 3]) -> (r: Bitboard)
        requires
            forall|row: int, col: int|
                0 <= row < 3 && 0 <= col < 3 ==> #[trigger] state_cell(state, row, col) <= 6,
        ensures
            r.wf(),
            cells(r.0) == seq![
                state_cell(state, 0, 0),
                state_cell(state, 0, 1),
                state_cell(state, 0, 2),
                state_cell(state, 1, 0),
                state_cell(state, 1, 1),
                state_cell(state, 1, 2),
                state_cell(state, 2, 0),
                state_cell(state, 2, 1),
                state_cell(state, 2, 2),
            ],
    {
        let mut bitboard = Bitboard::new();
        proof {
            assert(state_cell(state, 0, 0) <= 6 && state_cell(state, 0, 1) <= 6 && state_cell(
                state,
                0,
                2,
            ) <= 6 && state_cell(state, 1, 0) <= 6 && state_cell(state, 1, 1) <= 6 && state_cell(
                state,
                1,
                2,
            ) <= 6 && state_cell(state, 2, 0) <= 6 && state_cell(state, 2, 1) <= 6 && state_cell(
                state,
                2,
                2,
            ) <= 6);
        }
        bitboard.set(0, 0, state[0][0] as u8);
        bitboard.set(0, 1, state[0][1] as u8);
        bitboard.set(0, 2, state[0][2] as u8);
        bitboard.set(1, 0, state[1][0] as u8);
        bitboard.set(1, 1, state[1][1] as u8);
        bitboard.set(1, 2, state[1][2] as u8);
        bitboard.set(2, 0, state[2][0] as u8);
        bitboard.set(2, 1, state[2][1] as u8);
        bitboard.set(2, 2, state[2][2] as u8);
        proof {
            assert(cells(bitboard.0) =~= seq![
                state_cell(state, 0, 0),
                state_cell(state, 0, 1),
                state_cell(state, 0, 2),
                state_cell(state, 1, 0),
                state_cell(state, 1, 1),
                state_cell(state, 1, 2),
                state_cell(state, 2, 0),
                state_cell(state, 2, 1),
                state_cell(state, 2, 2),
            ]);
        }
        bitboard
    }
}

} // verus!

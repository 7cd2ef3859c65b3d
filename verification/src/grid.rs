use vstd::prelude::*;

verus! {

/// The nine cell values held in a packed board word: three bits per cell,
/// cell `i` (row-major, `i = y * 3 + x`) at bit offset `3 * i`.
pub open spec fn cells(b: u32) -> Seq<u32> {
    seq![
        b & 7,
        (b >> 3) & 7,
        (b >> 6) & 7,
        (b >> 9) & 7,
        (b >> 12) & 7,
        (b >> 15) & 7,
        (b >> 18) & 7,
        (b >> 21) & 7,
        (b >> 24) & 7,
    ]
}

/// The packed word that a cell sequence denotes: base-8 digits, cell 0 least
/// significant.
pub open spec fn packed(c: Seq<u32>) -> int {
    c[0] + c[1] * 8 + c[2] * 64 + c[3] * 512 + c[4] * 4096 + c[5] * 32768 + c[6] * 262144 + c[7]
        * 2097152 + c[8] * 16777216
}

/// A 3x3 board of dice, each cell 0 (empty) or a value 1..=6, packed into a
/// single word.
#[derive(Clone, Copy, Debug, PartialEq, Eq, Structural)]
pub struct Grid {
    pub bitset: u32,
}

impl View for Grid {
    type V = Seq<u32>;

    open spec fn view(&self) -> Seq<u32> {
        cells(self.bitset)
    }
}

impl Grid {
    /// A board is well formed when only the nine 3-bit cell fields are set and
    /// no cell holds the unused field value 7.
    pub open spec fn wf(self) -> bool {
        &&& self.bitset >> 27 == 0
        &&& forall|i: int| 0 <= i < 9 ==> self@[i] <= 6
    }

    /// The value of the cell with row-major index `i`.
    pub fn cell_at(&self, i: usize) -> (r: u32)
        requires
            i < 9,
        ensures
            r == self@[i as int],
    {
        match i {
            0 => self.bitset & 7,
            1 => (self.bitset >> 3) & 7,
            2 => (self.bitset >> 6) & 7,
            3 => (self.bitset >> 9) & 7,
            4 => (self.bitset >> 12) & 7,
            5 => (self.bitset >> 15) & 7,
            6 => (self.bitset >> 18) & 7,
            7 => (self.bitset >> 21) & 7,
            _ => (self.bitset >> 24) & 7,
        }
    }

    /// The value of the cell in column `x` of row `y`.
    pub fn get(&self, x: usize, y: usize) -> (r: u32)
        requires
            x < 3,
            y < 3,
        ensures
            r == self@[y as int * 3 + x as int],
    {
        self.cell_at(y * 3 + x)
    }

    /// Replaces the cell with row-major index `i` by `n`.
    pub fn set_cell(&mut self, i: usize, n: u32)
        requires
            i < 9,
            n <= 6,
            old(self).wf(),
        ensures
            final(self).wf(),
            final(self)@ == old(self)@.update(i as int, n),
    {
        let b = self.bitset;
        match i {
            0 => {
                self.bitset = (b & !7u32) | n;
                proof {
                    let nb = self.bitset;
                    assert(nb & 7 == n && (nb >> 3) & 7 == (b >> 3) & 7 && (nb >> 6) & 7 == (b
                        >> 6) & 7 && (nb >> 9) & 7 == (b >> 9) & 7 && (nb >> 12) & 7 == (b >> 12)
                        & 7 && (nb >> 15) & 7 == (b >> 15) & 7 && (nb >> 18) & 7 == (b >> 18) & 7
                        && (nb >> 21) & 7 == (b >> 21) & 7 && (nb >> 24) & 7 == (b >> 24) & 7 && (b
                        >> 27 == 0 ==> nb >> 27 == 0)) by (bit_vector)
                        requires
                            nb == (b & !7u32) | n,
                            n <= 6,
                    ;
                }
            },
            1 => {
                self.bitset = (b & !(7u32 << 3)) | (n << 3);
                proof {
                    let nb = self.bitset;
                    assert(nb & 7 == b & 7 && (nb >> 3) & 7 == n && (nb >> 6) & 7 == (b >> 6) & 7
                        && (nb >> 9) & 7 == (b >> 9) & 7 && (nb >> 12) & 7 == (b >> 12) & 7 && (nb
                        >> 15) & 7 == (b >> 15) & 7 && (nb >> 18) & 7 == (b >> 18) & 7 && (nb
                        >> 21) & 7 == (b >> 21) & 7 && (nb >> 24) & 7 == (b >> 24) & 7 && (b >> 27
                        == 0 ==> nb >> 27 == 0)) by (bit_vector)
                        requires
                            nb == (b & !(7u32 << 3)) | (n << 3),
                            n <= 6,
                    ;
                }
            },
            2 => {
                self.bitset = (b & !(7u32 << 6)) | (n << 6);
                proof {
                    let nb = self.bitset;
                    assert(nb & 7 == b & 7 && (nb >> 3) & 7 == (b >> 3) & 7 && (nb >> 6) & 7 == n
                        && (nb >> 9) & 7 == (b >> 9) & 7 && (nb >> 12) & 7 == (b >> 12) & 7 && (nb
                        >> 15) & 7 == (b >> 15) & 7 && (nb >> 18) & 7 == (b >> 18) & 7 && (nb
                        >> 21) & 7 == (b >> 21) & 7 && (nb >> 24) & 7 == (b >> 24) & 7 && (b >> 27
                        == 0 ==> nb >> 27 == 0)) by (bit_vector)
                        requires
                            nb == (b & !(7u32 << 6)) | (n << 6),
                            n <= 6,
                    ;
                }
            },
            3 => {
                self.bitset = (b & !(7u32 << 9)) | (n << 9);
                proof {
                    let nb = self.bitset;
                    assert(nb & 7 == b & 7 && (nb >> 3) & 7 == (b >> 3) & 7 && (nb >> 6) & 7 == (b
                        >> 6) & 7 && (nb >> 9) & 7 == n && (nb >> 12) & 7 == (b >> 12) & 7 && (nb
                        >> 15) & 7 == (b >> 15) & 7 && (nb >> 18) & 7 == (b >> 18) & 7 && (nb
                        >> 21) & 7 == (b >> 21) & 7 && (nb >> 24) & 7 == (b >> 24) & 7 && (b >> 27
                        == 0 ==> nb >> 27 == 0)) by (bit_vector)
                        requires
                            nb == (b & !(7u32 << 9)) | (n << 9),
                            n <= 6,
                    ;
                }
            },
            4 => {
                self.bitset = (b & !(7u32 << 12)) | (n << 12);
                proof {
                    let nb = self.bitset;
                    assert(nb & 7 == b & 7 && (nb >> 3) & 7 == (b >> 3) & 7 && (nb >> 6) & 7 == (b
                        >> 6) & 7 && (nb >> 9) & 7 == (b >> 9) & 7 && (nb >> 12) & 7 == n && (nb
                        >> 15) & 7 == (b >> 15) & 7 && (nb >> 18) & 7 == (b >> 18) & 7 && (nb
                        >> 21) & 7 == (b >> 21) & 7 && (nb >> 24) & 7 == (b >> 24) & 7 && (b >> 27
                        == 0 ==> nb >> 27 == 0)) by (bit_vector)
                        requires
                            nb == (b & !(7u32 << 12)) | (n << 12),
                            n <= 6,
                    ;
                }
            },
            5 => {
                self.bitset = (b & !(7u32 << 15)) | (n << 15);
                proof {
                    let nb = self.bitset;
                    assert(nb & 7 == b & 7 && (nb >> 3) & 7 == (b >> 3) & 7 && (nb >> 6) & 7 == (b
                        >> 6) & 7 && (nb >> 9) & 7 == (b >> 9) & 7 && (nb >> 12) & 7 == (b >> 12)
                        & 7 && (nb >> 15) & 7 == n && (nb >> 18) & 7 == (b >> 18) & 7 && (nb >> 21)
                        & 7 == (b >> 21) & 7 && (nb >> 24) & 7 == (b >> 24) & 7 && (b >> 27 == 0
                        ==> nb >> 27 == 0)) by (bit_vector)
                        requires
                            nb == (b & !(7u32 << 15)) | (n << 15),
                            n <= 6,
                    ;
                }
            },
            6 => {
                self.bitset = (b & !(7u32 << 18)) | (n << 18);
                proof {
                    let nb = self.bitset;
                    assert(nb & 7 == b & 7 && (nb >> 3) & 7 == (b >> 3) & 7 && (nb >> 6) & 7 == (b
                        >> 6) & 7 && (nb >> 9) & 7 == (b >> 9) & 7 && (nb >> 12) & 7 == (b >> 12)
                        & 7 && (nb >> 15) & 7 == (b >> 15) & 7 && (nb >> 18) & 7 == n && (nb >> 21)
                        & 7 == (b >> 21) & 7 && (nb >> 24) & 7 == (b >> 24) & 7 && (b >> 27 == 0
                        ==> nb >> 27 == 0)) by (bit_vector)
                        requires
                            nb == (b & !(7u32 << 18)) | (n << 18),
                            n <= 6,
                    ;
                }
            },
            7 => {
                self.bitset = (b & !(7u32 << 21)) | (n << 21);
                proof {
                    let nb = self.bitset;
                    assert(nb & 7 == b & 7 && (nb >> 3) & 7 == (b >> 3) & 7 && (nb >> 6) & 7 == (b
                        >> 6) & 7 && (nb >> 9) & 7 == (b >> 9) & 7 && (nb >> 12) & 7 == (b >> 12)
                        & 7 && (nb >> 15) & 7 == (b >> 15) & 7 && (nb >> 18) & 7 == (b >> 18) & 7
                        && (nb >> 21) & 7 == n && (nb >> 24) & 7 == (b >> 24) & 7 && (b >> 27 == 0
                        ==> nb >> 27 == 0)) by (bit_vector)
                        requires
                            nb == (b & !(7u32 << 21)) | (n << 21),
                            n <= 6,
                    ;
                }
            },
            _ => {
                self.bitset = (b & !(7u32 << 24)) | (n << 24);
                proof {
                    let nb = self.bitset;
                    assert(nb & 7 == b & 7 && (nb >> 3) & 7 == (b >> 3) & 7 && (nb >> 6) & 7 == (b
                        >> 6) & 7 && (nb >> 9) & 7 == (b >> 9) & 7 && (nb >> 12) & 7 == (b >> 12)
                        & 7 && (nb >> 15) & 7 == (b >> 15) & 7 && (nb >> 18) & 7 == (b >> 18) & 7
                        && (nb >> 21) & 7 == (b >> 21) & 7 && (nb >> 24) & 7 == n && (b >> 27 == 0
                        ==> nb >> 27 == 0)) by (bit_vector)
                        requires
                            nb == (b & !(7u32 << 24)) | (n << 24),
                            n <= 6,
                    ;
                }
            },
        }
        proof {
            assert(self@ =~= old(self)@.update(i as int, n));
        }
    }

    /// Replaces the cell in column `x` of row `y` by `n`.
    pub fn set(&mut self, x: usize, y: usize, n: u32)
        requires
            x < 3,
            y < 3,
            n <= 6,
            old(self).wf(),
        ensures
            final(self).wf(),
            final(self)@ == old(self)@.update(y as int * 3 + x as int, n),
    {
        self.set_cell(y * 3 + x, n);
    }
}

/// The positional checksum of a board: its nine cell values read as the
/// digits of a base-10 number, cell 0 most significant. Each digit is at
/// most 6, so distinct boards have distinct checksums.
pub open spec fn grid_hash(c: Seq<u32>) -> int {
    c[0] * 100000000 + c[1] * 10000000 + c[2] * 1000000 + c[3] * 100000 + c[4] * 10000 + c[5]
        * 1000 + c[6] * 100 + c[7] * 10 + c[8]
}

/// 1 when a cell value counts as occupied, else 0.
pub open spec fn occ_bit(v: u32) -> int {
    if v != 0 {
        1
    } else {
        0
    }
}

/// The occupancy bitset of a cell sequence: bit 8 for cell 0 down to bit 0
/// for cell 8.
pub open spec fn occ_mask(c: Seq<u32>) -> int {
    occ_bit(c[0]) * 256 + occ_bit(c[1]) * 128 + occ_bit(c[2]) * 64 + occ_bit(c[3]) * 32 + occ_bit(
        c[4],
    ) * 16 + occ_bit(c[5]) * 8 + occ_bit(c[6]) * 4 + occ_bit(c[7]) * 2 + occ_bit(c[8])
}

/// The number of occupied cells in a cell sequence.
pub open spec fn occ_count(c: Seq<u32>) -> int {
    occ_bit(c[0]) + occ_bit(c[1]) + occ_bit(c[2]) + occ_bit(c[3]) + occ_bit(c[4]) + occ_bit(c[5])
        + occ_bit(c[6]) + occ_bit(c[7]) + occ_bit(c[8])
}

impl Grid {
    /// Bitset of the occupied cells, cell 0 as the most significant of nine
    /// bits.
    #[verifier::rlimit(50)]
    pub fn occupied(&self) -> (r: u32)
        ensures
            r == occ_mask(self@),
    {
        let mut set: u32 = 0;
        set = set * 2 + (if self.cell_at(0) != 0 {
            1
        } else {
            0
        });
        set = set * 2 + (if self.cell_at(1) != 0 {
            1
        } else {
            0
        });
        set = set * 2 + (if self.cell_at(2) != 0 {
            1
        } else {
            0
        });
        set = set * 2 + (if self.cell_at(3) != 0 {
            1
        } else {
            0
        });
        set = set * 2 + (if self.cell_at(4) != 0 {
            1
        } else {
            0
        });
        set = set * 2 + (if self.cell_at(5) != 0 {
            1
        } else {
            0
        });
        set = set * 2 + (if self.cell_at(6) != 0 {
            1
        } else {
            0
        });
        set = set * 2 + (if self.cell_at(7) != 0 {
            1
        } else {
            0
        });
        set = set * 2 + (if self.cell_at(8) != 0 {
            1
        } else {
            0
        });
        set
    }

    /// Bitset of the empty cells, laid out as in `occupied`.
    pub fn empty_mask(&self) -> (r: u32)
        ensures
            r == 511 - occ_mask(self@),
    {
        let o = self.occupied();
        let r = !o & 0x1FF;
        proof {
            assert(o <= 511 ==> (!o & 0x1FF) == 511 - o) by (bit_vector);
        }
        r
    }

    /// The number of dice on the board.
    pub fn dice_count(&self) -> (r: usize)
        ensures
            r == occ_count(self@),
    {
        let mut n: usize = 0;
        if self.cell_at(0) != 0 {
            n += 1;
        }
        if self.cell_at(1) != 0 {
            n += 1;
        }
        if self.cell_at(2) != 0 {
            n += 1;
        }
        if self.cell_at(3) != 0 {
            n += 1;
        }
        if self.cell_at(4) != 0 {
            n += 1;
        }
        if self.cell_at(5) != 0 {
            n += 1;
        }
        if self.cell_at(6) != 0 {
            n += 1;
        }
        if self.cell_at(7) != 0 {
            n += 1;
        }
        if self.cell_at(8) != 0 {
            n += 1;
        }
        n
    }
}

/// Every three-bit cell field holds at most 7.
pub proof fn lemma_cells_bounded(b: u32)
    ensures
        forall|i: int| 0 <= i < 9 ==> cells(b)[i] <= 7,
{
    assert(b & 7 <= 7 && (b >> 3) & 7 <= 7 && (b >> 6) & 7 <= 7 && (b >> 9) & 7 <= 7 && (b >> 12)
        & 7 <= 7 && (b >> 15) & 7 <= 7 && (b >> 18) & 7 <= 7 && (b >> 21) & 7 <= 7 && (b >> 24) & 7
        <= 7) by (bit_vector);
}

/// The all-empty board word denotes nine empty cells.
pub proof fn lemma_zero_grid()
    ensures
        cells(0) =~= seq![0u32, 0, 0, 0, 0, 0, 0, 0, 0],
        0u32 >> 27 == 0,
{
    assert(0u32 & 7 == 0 && (0u32 >> 3) & 7 == 0 && (0u32 >> 6) & 7 == 0 && (0u32 >> 9) & 7 == 0
        && (0u32 >> 12) & 7 == 0 && (0u32 >> 15) & 7 == 0 && (0u32 >> 18) & 7 == 0 && (0u32 >> 21)
        & 7 == 0 && (0u32 >> 24) & 7 == 0 && 0u32 >> 27 == 0) by (bit_vector);
}

impl Default for Grid {
    /// The empty board.
    fn default() -> (r: Self)
        ensures
            r.wf(),
            r.bitset == 0,
            r@ == seq![0u32, 0, 0, 0, 0, 0, 0, 0, 0],
    {
        proof {
            lemma_zero_grid();
        }
        Grid { bitset: 0 }
    }
}

/// A well-formed board's word is exactly the packed value of its cells, so
/// comparing words compares packed cell sequences.
pub proof fn lemma_packed_bitset(g: Grid)
    requires
        g.wf(),
    ensures
        packed(g@) == g.bitset,
{
    let b = g.bitset;
    assert((b & 7) + ((b >> 3) & 7) * 8 + ((b >> 6) & 7) * 64 + ((b >> 9) & 7) * 512 + ((b >> 12)
        & 7) * 4096 + ((b >> 15) & 7) * 32768 + ((b >> 18) & 7) * 262144 + ((b >> 21) & 7)
        * 2097152 + ((b >> 24) & 7) * 16777216 == b) by (bit_vector)
        requires
            b >> 27 == 0,
    ;
}

/// Two well-formed boards with the same cells are the same board.
pub proof fn lemma_cells_injective(a: Grid, b: Grid)
    requires
        a.wf(),
        b.wf(),
        a@ == b@,
    ensures
        a == b,
{
    lemma_packed_bitset(a);
    lemma_packed_bitset(b);
}

} // verus!

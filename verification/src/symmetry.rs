use vstd::prelude::*;
use crate::grid::{cells, packed, Grid};

verus! {

/// For each of the eight symmetries of the square, the row-major source index
/// that each target cell is taken from. Transform 0 is the identity, 1 mirrors
/// columns, 2 mirrors rows, 3 is their composition (a half turn), 4 is the
/// transpose, 5 and 6 are the transpose followed by a column or row mirror
/// (the two quarter turns), and 7 is the anti-transpose.
pub open spec fn transform_table() -> Seq<Seq<int>> {
    seq![
        seq![0int, 1, 2, 3, 4, 5, 6, 7, 8],
        seq![2int, 1, 0, 5, 4, 3, 8, 7, 6],
        seq![6int, 7, 8, 3, 4, 5, 0, 1, 2],
        seq![8int, 7, 6, 5, 4, 3, 2, 1, 0],
        seq![0int, 3, 6, 1, 4, 7, 2, 5, 8],
        seq![6int, 3, 0, 7, 4, 1, 8, 5, 2],
        seq![2int, 5, 8, 1, 4, 7, 0, 3, 6],
        seq![8int, 5, 2, 7, 4, 1, 6, 3, 0],
    ]
}

/// The source cell index that transform `t` reads target cell `i` from.
pub open spec fn src_idx(t: int, i: int) -> int {
    transform_table()[t][i]
}

/// The cell sequence that transform `t` turns `c` into.
pub open spec fn apply_t(t: int, c: Seq<u32>) -> Seq<u32> {
    Seq::new(9, |i: int| c[src_idx(t, i)])
}

/// The group's composition: applying transform `a` and then transform `b`
/// equals applying `compose(a, b)` directly.
pub open spec fn compose_table() -> Seq<Seq<int>> {
    seq![
        seq![0int, 1, 2, 3, 4, 5, 6, 7],
        seq![1int, 0, 3, 2, 6, 7, 4, 5],
        seq![2int, 3, 0, 1, 5, 4, 7, 6],
        seq![3int, 2, 1, 0, 7, 6, 5, 4],
        seq![4int, 5, 6, 7, 0, 1, 2, 3],
        seq![5int, 4, 7, 6, 2, 3, 0, 1],
        seq![6int, 7, 4, 5, 1, 0, 3, 2],
        seq![7int, 6, 5, 4, 3, 2, 1, 0],
    ]
}

/// The transform that equals applying `a` and then `b`.
pub open spec fn compose(a: int, b: int) -> int {
    compose_table()[a][b]
}

/// The transform that undoes transform `t`.
pub open spec fn inverse(t: int) -> int {
    seq![0int, 1, 2, 3, 4, 6, 5, 7][t]
}

impl Grid {
    /// The board mirrored across its vertical axis (columns swapped).
    pub fn v_flip(&self) -> (r: Self)
        requires
            self.wf(),
        ensures
            r.wf(),
            r@ == apply_t(1, self@),
    {
        let mut r = Grid::default();
        r.set_cell(0, self.cell_at(2));
        r.set_cell(1, self.cell_at(1));
        r.set_cell(2, self.cell_at(0));
        r.set_cell(3, self.cell_at(5));
        r.set_cell(4, self.cell_at(4));
        r.set_cell(5, self.cell_at(3));
        r.set_cell(6, self.cell_at(8));
        r.set_cell(7, self.cell_at(7));
        r.set_cell(8, self.cell_at(6));
        proof {
            assert(r@ =~= apply_t(1, self@));
        }
        r
    }

    /// The board mirrored across its horizontal axis (rows swapped).
    pub fn h_flip(&self) -> (r: Self)
        requires
            self.wf(),
        ensures
            r.wf(),
            r@ == apply_t(2, self@),
    {
        let mut r = Grid::default();
        r.set_cell(0, self.cell_at(6));
        r.set_cell(1, self.cell_at(7));
        r.set_cell(2, self.cell_at(8));
        r.set_cell(3, self.cell_at(3));
        r.set_cell(4, self.cell_at(4));
        r.set_cell(5, self.cell_at(5));
        r.set_cell(6, self.cell_at(0));
        r.set_cell(7, self.cell_at(1));
        r.set_cell(8, self.cell_at(2));
        proof {
            assert(r@ =~= apply_t(2, self@));
        }
        r
    }

    /// Both mirrors applied: the half turn.
    pub fn vh_flip(&self) -> (r: Self)
        requires
            self.wf(),
        ensures
            r.wf(),
            r@ == apply_t(3, self@),
    {
        let r = self.h_flip().v_flip();
        proof {
            assert(r@ =~= apply_t(3, self@));
        }
        r
    }

    /// The board transposed across its main diagonal.
    pub fn d_flip(&self) -> (r: Self)
        requires
            self.wf(),
        ensures
            r.wf(),
            r@ == apply_t(4, self@),
    {
        let mut r = Grid::default();
        r.set_cell(0, self.cell_at(0));
        r.set_cell(1, self.cell_at(3));
        r.set_cell(2, self.cell_at(6));
        r.set_cell(3, self.cell_at(1));
        r.set_cell(4, self.cell_at(4));
        r.set_cell(5, self.cell_at(7));
        r.set_cell(6, self.cell_at(2));
        r.set_cell(7, self.cell_at(5));
        r.set_cell(8, self.cell_at(8));
        proof {
            assert(r@ =~= apply_t(4, self@));
        }
        r
    }

    /// The transpose followed by the column mirror: a quarter turn.
    pub fn dv_flip(&self) -> (r: Self)
        requires
            self.wf(),
        ensures
            r.wf(),
            r@ == apply_t(5, self@),
    {
        let r = self.d_flip().v_flip();
        proof {
            assert(r@ =~= apply_t(5, self@));
        }
        r
    }

    /// The transpose followed by the row mirror: the other quarter turn.
    pub fn dh_flip(&self) -> (r: Self)
        requires
            self.wf(),
        ensures
            r.wf(),
            r@ == apply_t(6, self@),
    {
        let r = self.d_flip().h_flip();
        proof {
            assert(r@ =~= apply_t(6, self@));
        }
        r
    }

    /// The board mirrored across its anti-diagonal.
    pub fn dvh_flip(&self) -> (r: Self)
        requires
            self.wf(),
        ensures
            r.wf(),
            r@ == apply_t(7, self@),
    {
        let mut r = Grid::default();
        r.set_cell(0, self.cell_at(8));
        r.set_cell(1, self.cell_at(5));
        r.set_cell(2, self.cell_at(2));
        r.set_cell(3, self.cell_at(7));
        r.set_cell(4, self.cell_at(4));
        r.set_cell(5, self.cell_at(1));
        r.set_cell(6, self.cell_at(6));
        r.set_cell(7, self.cell_at(3));
        r.set_cell(8, self.cell_at(0));
        proof {
            assert(r@ =~= apply_t(7, self@));
        }
        r
    }
}

/// The index of the transform whose image of `c` has the smallest packed
/// value among the first `k` transforms, earliest index preferred on ties.
pub open spec fn best_upto(c: Seq<u32>, k: int) -> int
    decreases k,
{
    if k <= 1 {
        0
    } else {
        if packed(apply_t(k - 1, c)) < packed(apply_t(best_upto(c, k - 1), c)) {
            k - 1
        } else {
            best_upto(c, k - 1)
        }
    }
}

/// The transform index of the canonical form of `c`.
pub open spec fn canon_idx(c: Seq<u32>) -> int {
    best_upto(c, 8)
}

/// The canonical form of `c`: its numerically smallest symmetry image.
pub open spec fn canon_cells(c: Seq<u32>) -> Seq<u32> {
    apply_t(canon_idx(c), c)
}

impl Grid {
    /// The canonical form of the board: the transform index and image whose
    /// packed value is smallest over all eight symmetries, the lowest index
    /// winning ties.
    #[verifier::rlimit(100)]
    pub fn canonical(&self) -> (r: (usize, Self))
        requires
            self.wf(),
        ensures
            r.0 < 8,
            r.0 as int == canon_idx(self@),
            r.1.wf(),
            r.1@ == canon_cells(self@),
            r.1@ == apply_t(r.0 as int, self@),
    {
        let g0 = *self;
        let g1 = self.v_flip();
        let g2 = self.h_flip();
        let g3 = self.vh_flip();
        let g4 = self.d_flip();
        let g5 = self.dv_flip();
        let g6 = self.dh_flip();
        let g7 = self.dvh_flip();
        proof {
            assert(g0@ =~= apply_t(0, self@));
            crate::grid::lemma_packed_bitset(g0);
            crate::grid::lemma_packed_bitset(g1);
            crate::grid::lemma_packed_bitset(g2);
            crate::grid::lemma_packed_bitset(g3);
            crate::grid::lemma_packed_bitset(g4);
            crate::grid::lemma_packed_bitset(g5);
            crate::grid::lemma_packed_bitset(g6);
            crate::grid::lemma_packed_bitset(g7);
            assert(best_upto(self@, 1) == 0);
        }
        let mut best: usize = 0;
        let mut bg = g0;
        if g1.bitset < bg.bitset {
            best = 1;
            bg = g1;
        }
        proof {
            assert(best as int == best_upto(self@, 2) && bg@ == apply_t(best as int, self@)
                && bg.bitset == packed(bg@));
        }
        if g2.bitset < bg.bitset {
            best = 2;
            bg = g2;
        }
        proof {
            assert(best as int == best_upto(self@, 3) && bg@ == apply_t(best as int, self@)
                && bg.bitset == packed(bg@));
        }
        if g3.bitset < bg.bitset {
            best = 3;
            bg = g3;
        }
        proof {
            assert(best as int == best_upto(self@, 4) && bg@ == apply_t(best as int, self@)
                && bg.bitset == packed(bg@));
        }
        if g4.bitset < bg.bitset {
            best = 4;
            bg = g4;
        }
        proof {
            assert(best as int == best_upto(self@, 5) && bg@ == apply_t(best as int, self@)
                && bg.bitset == packed(bg@));
        }
        if g5.bitset < bg.bitset {
            best = 5;
            bg = g5;
        }
        proof {
            assert(best as int == best_upto(self@, 6) && bg@ == apply_t(best as int, self@)
                && bg.bitset == packed(bg@));
        }
        if g6.bitset < bg.bitset {
            best = 6;
            bg = g6;
        }
        proof {
            assert(best as int == best_upto(self@, 7) && bg@ == apply_t(best as int, self@)
                && bg.bitset == packed(bg@));
        }
        if g7.bitset < bg.bitset {
            best = 7;
            bg = g7;
        }
        proof {
            assert(best as int == best_upto(self@, 8) && bg@ == apply_t(best as int, self@)
                && bg.bitset == packed(bg@));
        }
        (best, bg)
    }
}

/// Composition table correctness: applying transform `a` and then transform
/// `b` to any board equals applying the composed transform from the table
/// directly.
pub proof fn lemma_compose(a: int, b: int, c: Seq<u32>)
    requires
        0 <= a < 8,
        0 <= b < 8,
        c.len() == 9,
    ensures
        apply_t(b, apply_t(a, c)) == apply_t(compose(a, b), c),
{
    assert(apply_t(b, apply_t(a, c)) =~= apply_t(compose(a, b), c));
}

/// The identity transform leaves a board unchanged.
pub proof fn lemma_apply_identity(c: Seq<u32>)
    requires
        c.len() == 9,
    ensures
        apply_t(0, c) == c,
{
    assert(apply_t(0, c) =~= c);
}

/// Every transform is undone by its inverse.
pub proof fn lemma_apply_inverse(t: int, c: Seq<u32>)
    requires
        0 <= t < 8,
        c.len() == 9,
    ensures
        0 <= inverse(t) < 8,
        apply_t(inverse(t), apply_t(t, c)) == c,
{
    lemma_compose(t, inverse(t), c);
    assert(compose(t, inverse(t)) == 0);
    lemma_apply_identity(c);
}

proof fn lemma_best_upto_min(c: Seq<u32>, k: int)
    requires
        1 <= k <= 8,
    ensures
        0 <= best_upto(c, k) < k,
        forall|j: int|
            0 <= j < k ==> packed(apply_t(best_upto(c, k), c)) <= packed(#[trigger] apply_t(j, c)),
        (forall|j: int| 1 <= j < k ==> packed(#[trigger] apply_t(j, c)) >= packed(apply_t(0, c)))
            ==> best_upto(c, k) == 0,
    decreases k,
{
    if k > 1 {
        lemma_best_upto_min(c, k - 1);
    }
}

/// The canonical form is no larger, in packed value, than any symmetry image
/// of the board, and its transform index is the lowest that reaches it.
pub proof fn lemma_canon_min(c: Seq<u32>)
    ensures
        0 <= canon_idx(c) < 8,
        forall|j: int| 0 <= j < 8 ==> packed(canon_cells(c)) <= packed(apply_t(j, c)),
{
    lemma_best_upto_min(c, 8);
}

/// Nine base-8 digits determine their packed value uniquely.
pub proof fn lemma_packed_injective(a: Seq<u32>, b: Seq<u32>)
    requires
        a.len() == 9,
        b.len() == 9,
        forall|i: int| 0 <= i < 9 ==> a[i] <= 7,
        forall|i: int| 0 <= i < 9 ==> b[i] <= 7,
        packed(a) == packed(b),
    ensures
        a == b,
{
    assert(a[0] <= 7 && a[1] <= 7 && a[2] <= 7 && a[3] <= 7 && a[4] <= 7 && a[5] <= 7 && a[6]
        <= 7 && a[7] <= 7 && a[8] <= 7);
    assert(b[0] <= 7 && b[1] <= 7 && b[2] <= 7 && b[3] <= 7 && b[4] <= 7 && b[5] <= 7 && b[6]
        <= 7 && b[7] <= 7 && b[8] <= 7);
    assert(a[8] == b[8] && a[0] + a[1] * 8 + a[2] * 64 + a[3] * 512 + a[4] * 4096 + a[5] * 32768 + a[6] * 262144 + a[7] * 2097152 == b[0] + b[1] * 8 + b[2] * 64 + b[3] * 512 + b[4] * 4096 + b[5] * 32768 + b[6] * 262144 + b[7] * 2097152) by (nonlinear_arith)
        requires
            a[0] <= 7,
            a[1] <= 7,
            a[2] <= 7,
            a[3] <= 7,
            a[4] <= 7,
            a[5] <= 7,
            a[6] <= 7,
            a[7] <= 7,
            a[8] <= 7,
            b[0] <= 7,
            b[1] <= 7,
            b[2] <= 7,
            b[3] <= 7,
            b[4] <= 7,
            b[5] <= 7,
            b[6] <= 7,
            b[7] <= 7,
            b[8] <= 7,
            a[0] + a[1] * 8 + a[2] * 64 + a[3] * 512 + a[4] * 4096 + a[5] * 32768 + a[6] * 262144 + a[7] * 2097152 + a[8] * 16777216 == b[0] + b[1] * 8 + b[2] * 64 + b[3] * 512 + b[4] * 4096 + b[5] * 32768 + b[6] * 262144 + b[7] * 2097152 + b[8] * 16777216,
    ;
    assert(a[7] == b[7] && a[0] + a[1] * 8 + a[2] * 64 + a[3] * 512 + a[4] * 4096 + a[5] * 32768 + a[6] * 262144 == b[0] + b[1] * 8 + b[2] * 64 + b[3] * 512 + b[4] * 4096 + b[5] * 32768 + b[6] * 262144) by (nonlinear_arith)
        requires
            a[0] <= 7,
            a[1] <= 7,
            a[2] <= 7,
            a[3] <= 7,
            a[4] <= 7,
            a[5] <= 7,
            a[6] <= 7,
            a[7] <= 7,
            b[0] <= 7,
            b[1] <= 7,
            b[2] <= 7,
            b[3] <= 7,
            b[4] <= 7,
            b[5] <= 7,
            b[6] <= 7,
            b[7] <= 7,
            a[0] + a[1] * 8 + a[2] * 64 + a[3] * 512 + a[4] * 4096 + a[5] * 32768 + a[6] * 262144 + a[7] * 2097152 == b[0] + b[1] * 8 + b[2] * 64 + b[3] * 512 + b[4] * 4096 + b[5] * 32768 + b[6] * 262144 + b[7] * 2097152,
    ;
    assert(a[6] == b[6] && a[0] + a[1] * 8 + a[2] * 64 + a[3] * 512 + a[4] * 4096 + a[5] * 32768 == b[0] + b[1] * 8 + b[2] * 64 + b[3] * 512 + b[4] * 4096 + b[5] * 32768) by (nonlinear_arith)
        requires
            a[0] <= 7,
            a[1] <= 7,
            a[2] <= 7,
            a[3] <= 7,
            a[4] <= 7,
            a[5] <= 7,
            a[6] <= 7,
            b[0] <= 7,
            b[1] <= 7,
            b[2] <= 7,
            b[3] <= 7,
            b[4] <= 7,
            b[5] <= 7,
            b[6] <= 7,
            a[0] + a[1] * 8 + a[2] * 64 + a[3] * 512 + a[4] * 4096 + a[5] * 32768 + a[6] * 262144 == b[0] + b[1] * 8 + b[2] * 64 + b[3] * 512 + b[4] * 4096 + b[5] * 32768 + b[6] * 262144,
    ;
    assert(a[5] == b[5] && a[0] + a[1] * 8 + a[2] * 64 + a[3] * 512 + a[4] * 4096 == b[0] + b[1] * 8 + b[2] * 64 + b[3] * 512 + b[4] * 4096) by (nonlinear_arith)
        requires
            a[0] <= 7,
            a[1] <= 7,
            a[2] <= 7,
            a[3] <= 7,
            a[4] <= 7,
            a[5] <= 7,
            b[0] <= 7,
            b[1] <= 7,
            b[2] <= 7,
            b[3] <= 7,
            b[4] <= 7,
            b[5] <= 7,
            a[0] + a[1] * 8 + a[2] * 64 + a[3] * 512 + a[4] * 4096 + a[5] * 32768 == b[0] + b[1] * 8 + b[2] * 64 + b[3] * 512 + b[4] * 4096 + b[5] * 32768,
    ;
    assert(a[4] == b[4] && a[0] + a[1] * 8 + a[2] * 64 + a[3] * 512 == b[0] + b[1] * 8 + b[2] * 64 + b[3] * 512) by (nonlinear_arith)
        requires
            a[0] <= 7,
            a[1] <= 7,
            a[2] <= 7,
            a[3] <= 7,
            a[4] <= 7,
            b[0] <= 7,
            b[1] <= 7,
            b[2] <= 7,
            b[3] <= 7,
            b[4] <= 7,
            a[0] + a[1] * 8 + a[2] * 64 + a[3] * 512 + a[4] * 4096 == b[0] + b[1] * 8 + b[2] * 64 + b[3] * 512 + b[4] * 4096,
    ;
    assert(a[3] == b[3] && a[0] + a[1] * 8 + a[2] * 64 == b[0] + b[1] * 8 + b[2] * 64) by (nonlinear_arith)
        requires
            a[0] <= 7,
            a[1] <= 7,
            a[2] <= 7,
            a[3] <= 7,
            b[0] <= 7,
            b[1] <= 7,
            b[2] <= 7,
            b[3] <= 7,
            a[0] + a[1] * 8 + a[2] * 64 + a[3] * 512 == b[0] + b[1] * 8 + b[2] * 64 + b[3] * 512,
    ;
    assert(a[2] == b[2] && a[0] + a[1] * 8 == b[0] + b[1] * 8) by (nonlinear_arith)
        requires
            a[0] <= 7,
            a[1] <= 7,
            a[2] <= 7,
            b[0] <= 7,
            b[1] <= 7,
            b[2] <= 7,
            a[0] + a[1] * 8 + a[2] * 64 == b[0] + b[1] * 8 + b[2] * 64,
    ;
    assert(a[1] == b[1] && a[0] == b[0]) by (nonlinear_arith)
        requires
            a[0] <= 7,
            a[1] <= 7,
            b[0] <= 7,
            b[1] <= 7,
            a[0] + a[1] * 8 == b[0] + b[1] * 8,
    ;
    assert(a[0] == b[0]);
    assert(a =~= b);
}

/// A transform of a valid board is a valid board: a permutation of cells that
/// are all in range.
pub proof fn lemma_apply_valid(t: int, c: Seq<u32>)
    requires
        0 <= t < 8,
        c.len() == 9,
        forall|i: int| 0 <= i < 9 ==> c[i] <= 6,
    ensures
        apply_t(t, c).len() == 9,
        forall|i: int| 0 <= i < 9 ==> apply_t(t, c)[i] <= 6,
{
    assert(forall|i: int| 0 <= i < 9 ==> 0 <= #[trigger] src_idx(t, i) < 9);
}

/// Composed transform indices stay inside the group.
proof fn lemma_compose_range(a: int, b: int)
    requires
        0 <= a < 8,
        0 <= b < 8,
    ensures
        0 <= compose(a, b) < 8,
{
}

/// The canonical form of a board packs no larger than the canonical form of
/// any of its symmetry images.
proof fn lemma_canon_le(c: Seq<u32>, t: int)
    requires
        0 <= t < 8,
        c.len() == 9,
    ensures
        packed(canon_cells(c)) <= packed(canon_cells(apply_t(t, c))),
{
    let c2 = apply_t(t, c);
    lemma_canon_min(c);
    lemma_canon_min(c2);
    let i2 = canon_idx(c2);
    lemma_compose(t, i2, c);
    lemma_compose_range(t, i2);
    assert(canon_cells(c2) == apply_t(compose(t, i2), c));
    assert(packed(canon_cells(c)) <= packed(apply_t(compose(t, i2), c)));
}

/// Symmetry invariance: a board and any of its symmetry images share one
/// canonical form, so the search treats them as the same equivalence class.
pub proof fn lemma_canonical_invariant(c: Seq<u32>, t: int)
    requires
        0 <= t < 8,
        c.len() == 9,
        forall|i: int| 0 <= i < 9 ==> c[i] <= 6,
    ensures
        canon_cells(apply_t(t, c)) == canon_cells(c),
{
    let c2 = apply_t(t, c);
    lemma_apply_valid(t, c);
    lemma_canon_le(c, t);
    let ti = inverse(t);
    lemma_apply_inverse(t, c);
    lemma_canon_le(c2, ti);
    assert(packed(canon_cells(c2)) <= packed(canon_cells(c)));
    lemma_canon_min(c);
    lemma_canon_min(c2);
    lemma_apply_valid(canon_idx(c), c);
    lemma_apply_valid(canon_idx(c2), c2);
    lemma_packed_injective(canon_cells(c), canon_cells(c2));
}

/// Canonicalization is idempotent: the canonical form of a canonical board is
/// the board itself, reached by the identity transform.
pub proof fn lemma_canonical_idempotent(c: Seq<u32>)
    requires
        c.len() == 9,
        forall|i: int| 0 <= i < 9 ==> c[i] <= 6,
    ensures
        canon_idx(canon_cells(c)) == 0,
        canon_cells(canon_cells(c)) == canon_cells(c),
{
    let cc = canon_cells(c);
    lemma_canon_min(c);
    let i1 = canon_idx(c);
    lemma_apply_valid(i1, c);
    assert forall|j: int| 1 <= j < 8 implies packed(#[trigger] apply_t(j, cc)) >= packed(
        apply_t(0, cc),
    ) by {
        lemma_compose(i1, j, c);
        assert(0 <= compose(i1, j) < 8);
        lemma_apply_identity(cc);
    }
    lemma_best_upto_min(cc, 8);
    lemma_apply_identity(cc);
}

} // verus!

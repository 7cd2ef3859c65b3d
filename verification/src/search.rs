use vstd::prelude::*;
use std::collections::HashMap;
use crate::grid::{occ_count, Grid};
use crate::moves::succs;
use crate::symmetry::{apply_t, canon_cells, canon_idx};

verus! {

broadcast use vstd::std_specs::hash::group_hash_axioms;

/// Addition of path counts and checksum words, wrapping as 32-bit words do.
pub open spec fn wadd(a: u32, b: u32) -> u32 {
    vstd::wrapping::u32_specs::wrapping_add(a, b)
}

/// Multiplication of checksum words, wrapping as 32-bit words do.
pub open spec fn wmul(a: u32, b: u32) -> u32 {
    vstd::wrapping::u32_specs::wrapping_mul(a, b)
}

/// The starting board's path vector: one path, arriving by the identity
/// transform. A path vector holds one count per arrival symmetry class.
pub open spec fn start_paths() -> Seq<u32> {
    seq![1u32, 0, 0, 0, 0, 0, 0, 0]
}

/// The path-vector slot that a parent's arrival class `k` credits, given
/// that the child was canonicalized by transform `t`.
pub open spec fn merge_target(t: int, k: int) -> int {
    seq![
        seq![0int, 1, 2, 3, 4, 5, 6, 7],
        seq![1int, 0, 3, 2, 5, 4, 7, 6],
        seq![2int, 3, 0, 1, 6, 7, 4, 5],
        seq![3int, 2, 1, 0, 7, 6, 5, 4],
        seq![4int, 6, 5, 7, 0, 2, 1, 3],
        seq![5int, 7, 4, 6, 1, 3, 0, 2],
        seq![6int, 4, 7, 5, 2, 0, 3, 1],
        seq![7int, 5, 6, 4, 3, 1, 2, 0],
    ][t][k]
}

/// A path vector `p` after crediting a parent's path vector into it, each
/// arrival class `k` of the parent landing in the slot the table names.
pub open spec fn credited(p: Seq<u32>, parent: Seq<u32>, t: int) -> Seq<u32> {
    let p0 = p.update(merge_target(t, 0), wadd(p[merge_target(t, 0)], parent[0]));
    let p1 = p0.update(merge_target(t, 1), wadd(p0[merge_target(t, 1)], parent[1]));
    let p2 = p1.update(merge_target(t, 2), wadd(p1[merge_target(t, 2)], parent[2]));
    let p3 = p2.update(merge_target(t, 3), wadd(p2[merge_target(t, 3)], parent[3]));
    let p4 = p3.update(merge_target(t, 4), wadd(p3[merge_target(t, 4)], parent[4]));
    let p5 = p4.update(merge_target(t, 5), wadd(p4[merge_target(t, 5)], parent[5]));
    let p6 = p5.update(merge_target(t, 6), wadd(p5[merge_target(t, 6)], parent[6]));
    p6.update(merge_target(t, 7), wadd(p6[merge_target(t, 7)], parent[7]))
}

/// The position of the entry for board `key` in a level, or -1 if the board
/// has not been seen yet.
pub open spec fn find_grid(lvl: Seq<(Seq<u32>, Seq<u32>)>, key: Seq<u32>) -> int
    decreases lvl.len(),
{
    if lvl.len() == 0 {
        -1
    } else if lvl[0].0 == key {
        0
    } else {
        let r = find_grid(lvl.drop_first(), key);
        if r < 0 {
            -1
        } else {
            r + 1
        }
    }
}

/// A level after crediting one successor board: the successor is
/// canonicalized, and the parent's path vector is credited into the entry of
/// the canonical board, which is appended if it is new.
pub open spec fn level_add(
    lvl: Seq<(Seq<u32>, Seq<u32>)>,
    child: Seq<u32>,
    parent: Seq<u32>,
) -> Seq<(Seq<u32>, Seq<u32>)> {
    let t = canon_idx(child);
    let cg = canon_cells(child);
    let j = find_grid(lvl, cg);
    if j < 0 {
        lvl.push((cg, credited(seq![0u32, 0, 0, 0, 0, 0, 0, 0], parent, t)))
    } else {
        lvl.update(j, (cg, credited(lvl[j].1, parent, t)))
    }
}

/// A level after crediting the first `k` successors of one parent.
pub open spec fn add_succs(
    lvl: Seq<(Seq<u32>, Seq<u32>)>,
    ss: Seq<Seq<u32>>,
    parent: Seq<u32>,
    k: int,
) -> Seq<(Seq<u32>, Seq<u32>)>
    decreases k,
{
    if k <= 0 {
        lvl
    } else {
        level_add(add_succs(lvl, ss, parent, k - 1), ss[k - 1], parent)
    }
}

/// The per-cell checksum accumulator after one board is added with a weight:
/// each cell contributes its value times the weight, wrapping.
pub open spec fn flush_one(sums: Seq<u32>, c: Seq<u32>, factor: u32) -> Seq<u32> {
    Seq::new(9, |i: int| wadd(sums[i], wmul(c[i], factor)))
}

/// The accumulator after an entry is fully flushed: each arrival class adds
/// the board's image under that class's transform, weighted by its count.
pub open spec fn flush_entry(sums: Seq<u32>, c: Seq<u32>, p: Seq<u32>) -> Seq<u32> {
    let s0 = flush_one(sums, c, p[0]);
    let s1 = flush_one(s0, apply_t(1, c), p[1]);
    let s2 = flush_one(s1, apply_t(2, c), p[2]);
    let s3 = flush_one(s2, apply_t(3, c), p[3]);
    let s4 = flush_one(s3, apply_t(4, c), p[4]);
    let s5 = flush_one(s4, apply_t(6, c), p[5]);
    let s6 = flush_one(s5, apply_t(5, c), p[6]);
    flush_one(s6, apply_t(7, c), p[7])
}

/// One pass over the first `j` entries of a level: full boards are flushed
/// into the accumulator and dropped, the others credit all their successors
/// into the next level.
pub open spec fn process_entries(
    cur: Seq<(Seq<u32>, Seq<u32>)>,
    j: int,
    nxt: Seq<(Seq<u32>, Seq<u32>)>,
    sums: Seq<u32>,
) -> (Seq<(Seq<u32>, Seq<u32>)>, Seq<u32>)
    decreases j,
{
    if j <= 0 {
        (nxt, sums)
    } else {
        let pr = process_entries(cur, j - 1, nxt, sums);
        let g = cur[j - 1].0;
        let p = cur[j - 1].1;
        if occ_count(g) == 9 {
            (pr.0, flush_entry(pr.1, g, p))
        } else {
            (add_succs(pr.0, succs(g), p, succs(g).len() as int), pr.1)
        }
    }
}

/// The level and accumulator after `d` whole passes.
pub open spec fn run_levels(
    cur: Seq<(Seq<u32>, Seq<u32>)>,
    sums: Seq<u32>,
    d: nat,
) -> (Seq<(Seq<u32>, Seq<u32>)>, Seq<u32>)
    decreases d,
{
    if d == 0 {
        (cur, sums)
    } else {
        let pr = process_entries(cur, cur.len() as int, Seq::empty(), sums);
        run_levels(pr.0, pr.1, (d - 1) as nat)
    }
}

/// The accumulator after the first `j` entries of the final level are
/// flushed, moves exhausted.
pub open spec fn flush_all(lvl: Seq<(Seq<u32>, Seq<u32>)>, j: int, sums: Seq<u32>) -> Seq<u32>
    decreases j,
{
    if j <= 0 {
        sums
    } else {
        flush_entry(flush_all(lvl, j - 1, sums), lvl[j - 1].0, lvl[j - 1].1)
    }
}

/// The nine accumulator cells folded into one word, most significant first,
/// by repeated multiplication by ten, wrapping.
pub open spec fn digits(sums: Seq<u32>) -> u32 {
    let f0 = wadd(wmul(0, 10), sums[0]);
    let f1 = wadd(wmul(f0, 10), sums[1]);
    let f2 = wadd(wmul(f1, 10), sums[2]);
    let f3 = wadd(wmul(f2, 10), sums[3]);
    let f4 = wadd(wmul(f3, 10), sums[4]);
    let f5 = wadd(wmul(f4, 10), sums[5]);
    let f6 = wadd(wmul(f5, 10), sums[6]);
    let f7 = wadd(wmul(f6, 10), sums[7]);
    wadd(wmul(f7, 10), sums[8])
}

/// The checksum of the whole bounded search: seed the starting board with
/// one path at the identity class, run the requested number of passes, flush
/// whatever remains, and fold the accumulator, reduced modulo 2^30.
pub open spec fn spec_checksum(c: Seq<u32>, depth: nat) -> u32 {
    let lvl0 = seq![(c, start_paths())];
    let rd = run_levels(lvl0, seq![0u32, 0, 0, 0, 0, 0, 0, 0, 0], depth);
    let sums = flush_all(rd.0, rd.0.len() as int, rd.1);
    digits(sums) % 0x40000000
}

/// The path-vector slot table, as runnable code.
fn merge_target_exec(t: usize, k: usize) -> (r: usize)
    requires
        t < 8,
        k < 8,
    ensures
        r as int == merge_target(t as int, k as int),
        r < 8,
{
    let row: [usize; 8] = match t {
        0 => [0, 1, 2, 3, 4, 5, 6, 7],
        1 => [1, 0, 3, 2, 5, 4, 7, 6],
        2 => [2, 3, 0, 1, 6, 7, 4, 5],
        3 => [3, 2, 1, 0, 7, 6, 5, 4],
        4 => [4, 6, 5, 7, 0, 2, 1, 3],
        5 => [5, 7, 4, 6, 1, 3, 0, 2],
        6 => [6, 4, 7, 5, 2, 0, 3, 1],
        _ => [7, 5, 6, 4, 3, 1, 2, 0],
    };
    row[k]
}

/// Adds a board into the nine-cell checksum accumulator with a weight: every
/// cell contributes its value times the weight, all arithmetic wrapping.
pub fn add_grid_to_sum(sum: &mut [u32; 9], grid: Grid, factor: u32)
    ensures
        final(sum)@ == flush_one(old(sum)@, grid@, factor),
{
    sum[0] = sum[0].wrapping_add(grid.get(0, 0).wrapping_mul(factor));
    sum[1] = sum[1].wrapping_add(grid.get(1, 0).wrapping_mul(factor));
    sum[2] = sum[2].wrapping_add(grid.get(2, 0).wrapping_mul(factor));
    sum[3] = sum[3].wrapping_add(grid.get(0, 1).wrapping_mul(factor));
    sum[4] = sum[4].wrapping_add(grid.get(1, 1).wrapping_mul(factor));
    sum[5] = sum[5].wrapping_add(grid.get(2, 1).wrapping_mul(factor));
    sum[6] = sum[6].wrapping_add(grid.get(0, 2).wrapping_mul(factor));
    sum[7] = sum[7].wrapping_add(grid.get(1, 2).wrapping_mul(factor));
    sum[8] = sum[8].wrapping_add(grid.get(2, 2).wrapping_mul(factor));
    proof {
        assert(sum@ =~= flush_one(old(sum)@, grid@, factor));
    }
}

/// One search level as runnable state: the entries in first-seen order, and
/// an index from each entry's packed board word to its position.
pub struct LevelMap {
    entries: Vec<(Grid, [u32; 8])>,
    index: HashMap<u32, usize>,
}

impl LevelMap {
    /// The mathematical level this map holds.
    pub closed spec fn view(&self) -> Seq<(Seq<u32>, Seq<u32>)> {
        Seq::new(self.entries@.len(), |i: int| (self.entries@[i].0@, self.entries@[i].1@))
    }

    /// Every entry's board is well formed, boards appear once each, and the
    /// index is exactly the positions of the entries' packed words.
    pub closed spec fn wf(&self) -> bool {
        &&& forall|i: int| 0 <= i < self.entries@.len() ==> (#[trigger] self.entries@[i]).0.wf()
        &&& forall|i: int, j: int|
            0 <= i < j < self.entries@.len() ==> (#[trigger] self.entries@[i]).0.bitset != (
            #[trigger] self.entries@[j]).0.bitset
        &&& forall|i: int|
            0 <= i < self.entries@.len() ==> self.index@.contains_key(
                (#[trigger] self.entries@[i]).0.bitset,
            ) && self.index@[self.entries@[i].0.bitset] == i
        &&& forall|k: u32| #[trigger]
            self.index@.contains_key(k) ==> 0 <= self.index@[k] < self.entries@.len()
                && self.entries@[self.index@[k] as int].0.bitset == k
    }

    /// An empty level.
    pub fn new() -> (r: Self)
        ensures
            r.wf(),
            r@ == Seq::<(Seq<u32>, Seq<u32>)>::empty(),
    {
        let r = LevelMap { entries: Vec::new(), index: HashMap::new() };
        proof {
            assert(r@ =~= Seq::<(Seq<u32>, Seq<u32>)>::empty());
        }
        r
    }

    /// The number of boards in the level.
    pub fn len(&self) -> (r: usize)
        ensures
            r == self@.len(),
    {
        self.entries.len()
    }

    /// The board and path vector at a position.
    pub fn entry_at(&self, j: usize) -> (r: (Grid, [u32; 8]))
        requires
            self.wf(),
            j < self@.len(),
        ensures
            r.0@ == self@[j as int].0,
            r.1@ == self@[j as int].1,
            r.0.wf(),
    {
        self.entries[j]
    }

    /// Seeds the level with its first board.
    pub fn seed(&mut self, g: Grid, p: [u32; 8])
        requires
            old(self).wf(),
            old(self)@.len() == 0,
            g.wf(),
        ensures
            final(self).wf(),
            final(self)@ == seq![(g@, p@)],
    {
        self.entries.push((g, p));
        self.index.insert(g.bitset, 0);
        proof {
            assert(self@ =~= seq![(g@, p@)]);
        }
    }
}

/// In a level whose boards are pairwise distinct, a board's entry is found
/// exactly where it sits.
proof fn lemma_find_match(v: Seq<(Seq<u32>, Seq<u32>)>, j: int, key: Seq<u32>)
    requires
        forall|i1: int, i2: int| 0 <= i1 < i2 < v.len() ==> (#[trigger] v[i1]).0 != (#[trigger] v[i2]).0,
        0 <= j < v.len(),
        v[j].0 == key,
    ensures
        find_grid(v, key) == j,
    decreases v.len(),
{
    if v[0].0 == key {
        assert(j == 0);
    } else {
        let rest = v.drop_first();
        assert(forall|i1: int, i2: int|
            0 <= i1 < i2 < rest.len() ==> (#[trigger] rest[i1]).0 != (#[trigger] rest[i2]).0);
        assert(rest[j - 1].0 == key);
        lemma_find_match(rest, j - 1, key);
    }
}

/// A board that sits in no entry of a level is not found in it.
proof fn lemma_find_none(v: Seq<(Seq<u32>, Seq<u32>)>, key: Seq<u32>)
    requires
        forall|i: int| 0 <= i < v.len() ==> (#[trigger] v[i]).0 != key,
    ensures
        find_grid(v, key) == -1,
    decreases v.len(),
{
    if v.len() > 0 {
        let rest = v.drop_first();
        assert(forall|i: int| 0 <= i < rest.len() ==> (#[trigger] rest[i]).0 != key);
        lemma_find_none(rest, key);
    }
}

/// Credits one successor board into the next level: the board is
/// canonicalized, the parent's path vector lands in the canonical entry's
/// slots as the composition table directs, and a first-seen board starts
/// from an all-zero path vector.
pub fn add_grid(next: &mut LevelMap, grid: Grid, parent_path: &[u32; 8])
    requires
        old(next).wf(),
        grid.wf(),
    ensures
        final(next).wf(),
        final(next)@ == level_add(old(next)@, grid@, parent_path@),
{
    let (tidx, canon) = grid.canonical();
    let ghost t = canon_idx(grid@);
    let ghost cg = canon_cells(grid@);
    let ghost v0 = next@;
    proof {
        assert forall|i1: int, i2: int| 0 <= i1 < i2 < v0.len() implies (#[trigger] v0[i1]).0 != (
        #[trigger] v0[i2]).0 by {
            if v0[i1].0 == v0[i2].0 {
                crate::grid::lemma_cells_injective(next.entries@[i1].0, next.entries@[i2].0);
            }
        }
    }
    let found = next.index.get(&canon.bitset);
    match found {
        Some(jr) => {
            let j = *jr;
            proof {
                assert(next.entries@[j as int].0.bitset == canon.bitset);
                assert(v0[j as int].0 == cg);
                lemma_find_match(v0, j as int, cg);
            }
            let e = next.entries[j];
            let mut p = e.1;
            let g0 = merge_target_exec(tidx, 0);
            p[g0] = p[g0].wrapping_add(parent_path[0]);
            let g1 = merge_target_exec(tidx, 1);
            p[g1] = p[g1].wrapping_add(parent_path[1]);
            let g2 = merge_target_exec(tidx, 2);
            p[g2] = p[g2].wrapping_add(parent_path[2]);
            let g3 = merge_target_exec(tidx, 3);
            p[g3] = p[g3].wrapping_add(parent_path[3]);
            let g4 = merge_target_exec(tidx, 4);
            p[g4] = p[g4].wrapping_add(parent_path[4]);
            let g5 = merge_target_exec(tidx, 5);
            p[g5] = p[g5].wrapping_add(parent_path[5]);
            let g6 = merge_target_exec(tidx, 6);
            p[g6] = p[g6].wrapping_add(parent_path[6]);
            let g7 = merge_target_exec(tidx, 7);
            p[g7] = p[g7].wrapping_add(parent_path[7]);
            proof {
                assert(p@ == credited(e.1@, parent_path@, t));
            }
            next.entries[j] = (e.0, p);
            proof {
                assert(next@ =~= level_add(v0, grid@, parent_path@));
            }
        },
        None => {
            proof {
                assert forall|i: int| 0 <= i < v0.len() implies (#[trigger] v0[i]).0 != cg by {
                    if v0[i].0 == cg {
                        crate::grid::lemma_cells_injective(next.entries@[i].0, canon);
                    }
                }
                lemma_find_none(v0, cg);
            }
            let mut p: [u32; 8] = [0, 0, 0, 0, 0, 0, 0, 0];
            let g0 = merge_target_exec(tidx, 0);
            p[g0] = p[g0].wrapping_add(parent_path[0]);
            let g1 = merge_target_exec(tidx, 1);
            p[g1] = p[g1].wrapping_add(parent_path[1]);
            let g2 = merge_target_exec(tidx, 2);
            p[g2] = p[g2].wrapping_add(parent_path[2]);
            let g3 = merge_target_exec(tidx, 3);
            p[g3] = p[g3].wrapping_add(parent_path[3]);
            let g4 = merge_target_exec(tidx, 4);
            p[g4] = p[g4].wrapping_add(parent_path[4]);
            let g5 = merge_target_exec(tidx, 5);
            p[g5] = p[g5].wrapping_add(parent_path[5]);
            let g6 = merge_target_exec(tidx, 6);
            p[g6] = p[g6].wrapping_add(parent_path[6]);
            let g7 = merge_target_exec(tidx, 7);
            p[g7] = p[g7].wrapping_add(parent_path[7]);
            proof {
                assert(p@ == credited(seq![0u32, 0, 0, 0, 0, 0, 0, 0], parent_path@, t));
            }
            let pos = next.entries.len();
            next.entries.push((canon, p));
            next.index.insert(canon.bitset, pos);
            proof {
                assert(next@ =~= level_add(v0, grid@, parent_path@));
            }
        },
    }
}

/// The checksum of the bounded search from `grid`: every board reachable
/// within `depth` moves contributes its positional checksum once per
/// distinct move sequence that reaches it, full boards absorbing their whole
/// remaining budget at once; the total is reduced modulo 2^30.
pub fn compute_sum(grid: Grid, depth: usize) -> (r: u32)
    requires
        grid.wf(),
    ensures
        r == spec_checksum(grid@, depth as nat),
{
    let ghost zero9: Seq<u32> = seq![0u32, 0, 0, 0, 0, 0, 0, 0, 0];
    let mut grid_sum: [u32; 9] = [0, 0, 0, 0, 0, 0, 0, 0, 0];
    let mut current = LevelMap::new();
    let mut next = LevelMap::new();
    let mut path: [u32; 8] = [0, 0, 0, 0, 0, 0, 0, 0];
    path[0] = 1;
    proof {
        assert(path@ =~= start_paths());
        assert(grid_sum@ =~= zero9);
    }
    current.seed(grid, path);
    let ghost lvl0: Seq<(Seq<u32>, Seq<u32>)> = seq![(grid@, start_paths())];
    proof {
        assert(current@ =~= lvl0);
    }
    let mut it: usize = 0;
    while it < depth
        invariant
            it <= depth,
            current.wf(),
            next.wf(),
            next@.len() == 0,
            run_levels(current@, grid_sum@, (depth - it) as nat) == run_levels(
                lvl0,
                zero9,
                depth as nat,
            ),
        decreases depth - it,
    {
        let ghost sums0 = grid_sum@;
        let ghost cur0 = current@;
        proof {
            assert(next@ =~= Seq::<(Seq<u32>, Seq<u32>)>::empty());
        }
        let n = current.len();
        let mut j: usize = 0;
        while j < n
            invariant
                j <= n,
                n == cur0.len(),
                current.wf(),
                next.wf(),
                current@ == cur0,
                (next@, grid_sum@) == process_entries(
                    cur0,
                    j as int,
                    Seq::<(Seq<u32>, Seq<u32>)>::empty(),
                    sums0,
                ),
            decreases n - j,
        {
            let e = current.entry_at(j);
            let g = e.0;
            let p = e.1;
            let ghost spre = grid_sum@;
            let ghost nx0 = next@;
            if g.dice_count() == 9 {
                add_grid_to_sum(&mut grid_sum, g, p[0]);
                add_grid_to_sum(&mut grid_sum, g.v_flip(), p[1]);
                add_grid_to_sum(&mut grid_sum, g.h_flip(), p[2]);
                add_grid_to_sum(&mut grid_sum, g.vh_flip(), p[3]);
                add_grid_to_sum(&mut grid_sum, g.d_flip(), p[4]);
                add_grid_to_sum(&mut grid_sum, g.dh_flip(), p[5]);
                add_grid_to_sum(&mut grid_sum, g.dv_flip(), p[6]);
                add_grid_to_sum(&mut grid_sum, g.dvh_flip(), p[7]);
                proof {
                    assert(grid_sum@ == flush_entry(spre, g@, p@));
                }
            } else {
                let ss = g.possible_states();
                let mut k: usize = 0;
                while k < ss.len()
                    invariant
                        k <= ss@.len(),
                        g.wf(),
                        ss@.len() == succs(g@).len(),
                        forall|m: int|
                            0 <= m < ss@.len() ==> (#[trigger] ss@[m])@ == succs(g@)[m]
                                && ss@[m].wf(),
                        next.wf(),
                        next@ == add_succs(nx0, succs(g@), p@, k as int),
                    decreases ss@.len() - k,
                {
                    add_grid(&mut next, ss[k], &p);
                    k = k + 1;
                }
            }
            j = j + 1;
        }
        proof {
            assert((next@, grid_sum@) == process_entries(
                cur0,
                cur0.len() as int,
                Seq::<(Seq<u32>, Seq<u32>)>::empty(),
                sums0,
            ));
        }
        current = next;
        next = LevelMap::new();
        it = it + 1;
    }
    let ghost rd = run_levels(lvl0, zero9, depth as nat);
    proof {
        assert(current@ == rd.0 && grid_sum@ == rd.1);
    }
    let ghost sums_fin = grid_sum@;
    let n2 = current.len();
    let mut j2: usize = 0;
    while j2 < n2
        invariant
            j2 <= n2,
            n2 == current@.len(),
            current.wf(),
            grid_sum@ == flush_all(current@, j2 as int, sums_fin),
        decreases n2 - j2,
    {
        let e = current.entry_at(j2);
        let g = e.0;
        let p = e.1;
        let ghost spre = grid_sum@;
        add_grid_to_sum(&mut grid_sum, g, p[0]);
        add_grid_to_sum(&mut grid_sum, g.v_flip(), p[1]);
        add_grid_to_sum(&mut grid_sum, g.h_flip(), p[2]);
        add_grid_to_sum(&mut grid_sum, g.vh_flip(), p[3]);
        add_grid_to_sum(&mut grid_sum, g.d_flip(), p[4]);
        add_grid_to_sum(&mut grid_sum, g.dh_flip(), p[5]);
        add_grid_to_sum(&mut grid_sum, g.dv_flip(), p[6]);
        add_grid_to_sum(&mut grid_sum, g.dvh_flip(), p[7]);
        proof {
            assert(grid_sum@ == flush_entry(spre, g@, p@));
        }
        j2 = j2 + 1;
    }
    let mut final_sum: u32 = 0;
    final_sum = final_sum.wrapping_mul(10).wrapping_add(grid_sum[0]);
    final_sum = final_sum.wrapping_mul(10).wrapping_add(grid_sum[1]);
    final_sum = final_sum.wrapping_mul(10).wrapping_add(grid_sum[2]);
    final_sum = final_sum.wrapping_mul(10).wrapping_add(grid_sum[3]);
    final_sum = final_sum.wrapping_mul(10).wrapping_add(grid_sum[4]);
    final_sum = final_sum.wrapping_mul(10).wrapping_add(grid_sum[5]);
    final_sum = final_sum.wrapping_mul(10).wrapping_add(grid_sum[6]);
    final_sum = final_sum.wrapping_mul(10).wrapping_add(grid_sum[7]);
    final_sum = final_sum.wrapping_mul(10).wrapping_add(grid_sum[8]);
    proof {
        assert(final_sum == digits(grid_sum@));
    }
    final_sum % 0x40000000
}

/// With weight one and no symmetric copies, flushing the single starting
/// entry reproduces the board's own cells.
proof fn lemma_flush_identity(c: Seq<u32>)
    requires
        c.len() == 9,
        forall|i: int| 0 <= i < 9 ==> c[i] <= 6,
    ensures
        flush_all(seq![(c, start_paths())], 1, seq![0u32, 0, 0, 0, 0, 0, 0, 0, 0]) == c,
{
    let zero9: Seq<u32> = seq![0u32, 0, 0, 0, 0, 0, 0, 0, 0];
    let lvl0 = seq![(c, start_paths())];
    let sums = flush_all(lvl0, 1, zero9);
    assert(sums == flush_entry(flush_all(lvl0, 0, zero9), c, start_paths()));
    let s0 = flush_one(zero9, c, 1);
    assert(s0 =~= c) by {
        assert(forall|i: int| 0 <= i < 9 ==> wadd(0, wmul(#[trigger] c[i], 1)) == c[i]);
    }
    let s1 = flush_one(s0, apply_t(1, c), 0);
    assert(s1 =~= s0) by {
        assert(forall|i: int|
            0 <= i < 9 ==> wadd(#[trigger] s0[i], wmul(apply_t(1, c)[i], 0)) == s0[i]);
    }
    let s2 = flush_one(s1, apply_t(2, c), 0);
    assert(s2 =~= s1) by {
        assert(forall|i: int|
            0 <= i < 9 ==> wadd(#[trigger] s1[i], wmul(apply_t(2, c)[i], 0)) == s1[i]);
    }
    let s3 = flush_one(s2, apply_t(3, c), 0);
    assert(s3 =~= s2) by {
        assert(forall|i: int|
            0 <= i < 9 ==> wadd(#[trigger] s2[i], wmul(apply_t(3, c)[i], 0)) == s2[i]);
    }
    let s4 = flush_one(s3, apply_t(4, c), 0);
    assert(s4 =~= s3) by {
        assert(forall|i: int|
            0 <= i < 9 ==> wadd(#[trigger] s3[i], wmul(apply_t(4, c)[i], 0)) == s3[i]);
    }
    let s5 = flush_one(s4, apply_t(6, c), 0);
    assert(s5 =~= s4) by {
        assert(forall|i: int|
            0 <= i < 9 ==> wadd(#[trigger] s4[i], wmul(apply_t(6, c)[i], 0)) == s4[i]);
    }
    let s6 = flush_one(s5, apply_t(5, c), 0);
    assert(s6 =~= s5) by {
        assert(forall|i: int|
            0 <= i < 9 ==> wadd(#[trigger] s5[i], wmul(apply_t(5, c)[i], 0)) == s5[i]);
    }
    let s7 = flush_one(s6, apply_t(7, c), 0);
    assert(s7 =~= s6) by {
        assert(forall|i: int|
            0 <= i < 9 ==> wadd(#[trigger] s6[i], wmul(apply_t(7, c)[i], 0)) == s6[i]);
    }
    assert(sums == s7);
}

/// On digits that are at most 6 the fold never wraps, and yields the
/// positional checksum, which is below 2^30.
proof fn lemma_digits_plain(c: Seq<u32>)
    requires
        c.len() == 9,
        forall|i: int| 0 <= i < 9 ==> c[i] <= 6,
    ensures
        digits(c) == crate::grid::grid_hash(c),
        crate::grid::grid_hash(c) < 0x40000000,
{
    assert(c[0] <= 6 && c[1] <= 6 && c[2] <= 6 && c[3] <= 6 && c[4] <= 6 && c[5] <= 6 && c[6]
        <= 6 && c[7] <= 6 && c[8] <= 6);
    vstd::arithmetic::div_mod::lemma_small_mod(0, 0x100000000);
    let f0 = wadd(wmul(0, 10), c[0]);
    assert(f0 == c[0]);
    vstd::arithmetic::div_mod::lemma_small_mod((f0 * 10) as nat, 0x100000000);
    let f1 = wadd(wmul(f0, 10), c[1]);
    assert(f1 == f0 * 10 + c[1] && f1 <= 66);
    vstd::arithmetic::div_mod::lemma_small_mod((f1 * 10) as nat, 0x100000000);
    let f2 = wadd(wmul(f1, 10), c[2]);
    assert(f2 == f1 * 10 + c[2] && f2 <= 666);
    vstd::arithmetic::div_mod::lemma_small_mod((f2 * 10) as nat, 0x100000000);
    let f3 = wadd(wmul(f2, 10), c[3]);
    assert(f3 == f2 * 10 + c[3] && f3 <= 6666);
    vstd::arithmetic::div_mod::lemma_small_mod((f3 * 10) as nat, 0x100000000);
    let f4 = wadd(wmul(f3, 10), c[4]);
    assert(f4 == f3 * 10 + c[4] && f4 <= 66666);
    vstd::arithmetic::div_mod::lemma_small_mod((f4 * 10) as nat, 0x100000000);
    let f5 = wadd(wmul(f4, 10), c[5]);
    assert(f5 == f4 * 10 + c[5] && f5 <= 666666);
    vstd::arithmetic::div_mod::lemma_small_mod((f5 * 10) as nat, 0x100000000);
    let f6 = wadd(wmul(f5, 10), c[6]);
    assert(f6 == f5 * 10 + c[6] && f6 <= 6666666);
    vstd::arithmetic::div_mod::lemma_small_mod((f6 * 10) as nat, 0x100000000);
    let f7 = wadd(wmul(f6, 10), c[7]);
    assert(f7 == f6 * 10 + c[7] && f7 <= 66666666);
    vstd::arithmetic::div_mod::lemma_small_mod((f7 * 10) as nat, 0x100000000);
    let f8 = wadd(wmul(f7, 10), c[8]);
    assert(f8 == f7 * 10 + c[8] && f8 <= 666666666);
    assert(digits(c) == f8);
}

/// Depth-0 identity: with no moves to play, the checksum of a board is just
/// the board's own positional checksum, which always fits below 2^30.
pub proof fn lemma_depth_zero(c: Seq<u32>)
    requires
        c.len() == 9,
        forall|i: int| 0 <= i < 9 ==> c[i] <= 6,
    ensures
        spec_checksum(c, 0) == crate::grid::grid_hash(c),
{
    let zero9: Seq<u32> = seq![0u32, 0, 0, 0, 0, 0, 0, 0, 0];
    let lvl0 = seq![(c, start_paths())];
    let rd = run_levels(lvl0, zero9, 0);
    assert(rd.0 == lvl0 && rd.1 == zero9);
    lemma_flush_identity(c);
    lemma_digits_plain(c);
    vstd::arithmetic::div_mod::lemma_small_mod(digits(c) as nat, 0x40000000);
}

} // verus!

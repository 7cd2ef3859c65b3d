use vstd::prelude::*;
use crate::grid::Grid;
use itertools::Itertools;

verus! {

/// Whether cell `j` can take part in a merge: it holds a die that is not a 6
/// (a 6 can never be merged, since merge results may not exceed 6).
pub open spec fn nb_ok(c: Seq<u32>, j: int) -> bool {
    c[j] != 0 && c[j] != 6
}

/// The mergeable orthogonal neighbours of cell `i`, in the fixed order
/// above, left, below, right.
pub open spec fn nb_list(c: Seq<u32>, i: usize) -> Seq<usize> {
    (if i >= 3 && nb_ok(c, i - 3) {
        seq![(i - 3) as usize]
    } else {
        Seq::empty()
    }) + (if i % 3 != 0 && nb_ok(c, i - 1) {
        seq![(i - 1) as usize]
    } else {
        Seq::empty()
    }) + (if i < 6 && nb_ok(c, i + 3) {
        seq![(i + 3) as usize]
    } else {
        Seq::empty()
    }) + (if i % 3 != 2 && nb_ok(c, i + 1) {
        seq![(i + 1) as usize]
    } else {
        Seq::empty()
    })
}

/// All subsequences of `s` of length `k`, in lexicographic order of the
/// positions picked: those containing the first item come first.
pub open spec fn combos(s: Seq<usize>, k: nat) -> Seq<Seq<usize>>
    decreases s.len(),
{
    if k == 0 {
        seq![Seq::<usize>::empty()]
    } else if s.len() < k {
        Seq::empty()
    } else {
        combos(s.drop_first(), (k - 1) as nat).map_values(|c: Seq<usize>| seq![s[0]] + c)
            + combos(s.drop_first(), k)
    }
}

/// Relies on itertools' combinations adaptor: it yields every `k`-item
/// combination of the input, as the items at `k` strictly increasing
/// positions, ordered lexicographically by those positions.
#[verifier::external_body]
fn combinations_k(items: &Vec<usize>, k: usize) -> (r: Vec<Vec<usize>>)
    ensures
        r@.map_values(|v: Vec<usize>| v@) == combos(items@, k as nat),
{
    items.iter().copied().combinations(k).collect()
}

/// The sum of the cells of `c` picked out by `comb`, front first.
pub open spec fn sum_at(c: Seq<u32>, comb: Seq<usize>) -> int
    decreases comb.len(),
{
    if comb.len() == 0 {
        0
    } else {
        c[comb[0] as int] + sum_at(c, comb.drop_first())
    }
}

/// `c` with every cell picked out by `comb` emptied, front first.
pub open spec fn cleared(c: Seq<u32>, comb: Seq<usize>) -> Seq<u32>
    decreases comb.len(),
{
    if comb.len() == 0 {
        c
    } else {
        cleared(c.update(comb[0] as int, 0), comb.drop_first())
    }
}

/// The board after merging the dice picked out by `comb` into cell `i`.
pub open spec fn merge_of(c: Seq<u32>, i: usize, comb: Seq<usize>) -> Seq<u32> {
    cleared(c, comb).update(i as int, sum_at(c, comb) as u32)
}

/// The merge successors of cell `i` arising from the first `j` candidate
/// combinations, in order, keeping those whose dice sum to at most 6.
pub open spec fn merge_list_upto(c: Seq<u32>, i: usize, cs: Seq<Seq<usize>>, j: int) -> Seq<
    Seq<u32>,
>
    decreases j,
{
    if j <= 0 {
        Seq::empty()
    } else {
        merge_list_upto(c, i, cs, j - 1) + (if sum_at(c, cs[j - 1]) <= 6 {
            seq![merge_of(c, i, cs[j - 1])]
        } else {
            Seq::empty()
        })
    }
}

/// The candidate neighbour combinations of cell `i`: all subsets of four,
/// then of three, then of two mergeable neighbours.
pub open spec fn all_combs(nb: Seq<usize>) -> Seq<Seq<usize>> {
    combos(nb, 4) + combos(nb, 3) + combos(nb, 2)
}

/// The successors contributed by empty cell `i`: every legal merge into it,
/// or a single placed die of value 1 where no merge is possible.
pub open spec fn cell_succs(c: Seq<u32>, i: usize) -> Seq<Seq<u32>> {
    let cs = all_combs(nb_list(c, i));
    let ml = merge_list_upto(c, i, cs, cs.len() as int);
    if ml.len() > 0 {
        ml
    } else {
        seq![c.update(i as int, 1)]
    }
}

/// The successors contributed by the first `j` cells.
pub open spec fn succs_upto(c: Seq<u32>, j: int) -> Seq<Seq<u32>>
    decreases j,
{
    if j <= 0 {
        Seq::empty()
    } else {
        succs_upto(c, j - 1) + (if c[j - 1] == 0 {
            cell_succs(c, (j - 1) as usize)
        } else {
            Seq::empty()
        })
    }
}

/// Every successor of the board `c`, cells visited in row-major order.
pub open spec fn succs(c: Seq<u32>) -> Seq<Seq<u32>> {
    succs_upto(c, 9)
}

/// Each combination drawn from `s` has the requested length, draws only
/// items of `s`, and repeats none of its positions.
proof fn lemma_combos_props(s: Seq<usize>, k: nat)
    ensures
        forall|m: int| 0 <= m < combos(s, k).len() ==> (#[trigger] combos(s, k)[m]).len() == k,
        forall|m: int, x: usize|
            0 <= m < combos(s, k).len() && #[trigger] combos(s, k)[m].contains(x)
                ==> s.contains(x),
        s.no_duplicates() ==> forall|m: int|
            0 <= m < combos(s, k).len() ==> (#[trigger] combos(s, k)[m]).no_duplicates(),
    decreases s.len(),
{
    if k == 0 {
    } else if s.len() < k {
    } else {
        let rest = s.drop_first();
        lemma_combos_props(rest, (k - 1) as nat);
        lemma_combos_props(rest, k);
        assert(forall|x: usize| rest.contains(x) ==> s.contains(x)) by {
            assert forall|x: usize| rest.contains(x) implies s.contains(x) by {
                let j = choose|j: int| 0 <= j < rest.len() && rest[j] == x;
                assert(s[j + 1] == x);
            }
        }
        if s.no_duplicates() {
            assert(rest.no_duplicates());
            assert(!rest.contains(s[0])) by {
                if rest.contains(s[0]) {
                    let j = choose|j: int| 0 <= j < rest.len() && rest[j] == s[0];
                    assert(s[j + 1] == s[0]);
                }
            }
        }
        let first = combos(rest, (k - 1) as nat).map_values(|c: Seq<usize>| seq![s[0]] + c);
        assert forall|m: int| 0 <= m < combos(s, k).len() implies (#[trigger] combos(s, k)[m]).len()
            == k by {
            if m < first.len() {
                assert(combos(s, k)[m] == seq![s[0]] + combos(rest, (k - 1) as nat)[m]);
            } else {
                assert(combos(s, k)[m] == combos(rest, k)[m - first.len()]);
            }
        }
        assert forall|m: int, x: usize|
            0 <= m < combos(s, k).len() && #[trigger] combos(s, k)[m].contains(x) implies
            s.contains(x) by {
            if m < first.len() {
                let c = combos(rest, (k - 1) as nat)[m];
                assert(combos(s, k)[m] == seq![s[0]] + c);
                let j = choose|j: int| 0 <= j < combos(s, k)[m].len() && combos(s, k)[m][j] == x;
                if j == 0 {
                    assert(s[0] == x);
                } else {
                    assert(c[j - 1] == x);
                    assert(c.contains(x));
                }
            } else {
                assert(combos(s, k)[m] == combos(rest, k)[m - first.len()]);
            }
        }
        if s.no_duplicates() {
            assert forall|m: int| 0 <= m < combos(s, k).len() implies (#[trigger] combos(
                s,
                k,
            )[m]).no_duplicates() by {
                if m < first.len() {
                    let c = combos(rest, (k - 1) as nat)[m];
                    assert(combos(s, k)[m] == seq![s[0]] + c);
                    let w = seq![s[0]] + c;
                    assert forall|p: int, q: int| 0 <= p < q < w.len() implies w[p] != w[q] by {
                        if p == 0 {
                            assert(c.contains(w[q])) by {
                                assert(c[q - 1] == w[q]);
                            }
                        }
                    }
                } else {
                    assert(combos(s, k)[m] == combos(rest, k)[m - first.len()]);
                }
            }
        }
    }
}

/// The mergeable-neighbour list of a cell: at most four distinct cell
/// indices, none of them the cell itself, all in range and all mergeable.
#[verifier::rlimit(60)]
proof fn lemma_nb_list_props(c: Seq<u32>, i: usize)
    requires
        i < 9,
        c.len() == 9,
    ensures
        nb_list(c, i).no_duplicates(),
        nb_list(c, i).len() <= 4,
        forall|x: usize| #[trigger] nb_list(c, i).contains(x) ==> x < 9 && x != i && nb_ok(c, x as int),
{
}

/// Bundled facts about every candidate combination of a cell: lengths
/// between two and four, distinct in-range mergeable cells, none the target.
proof fn lemma_all_combs_props(c: Seq<u32>, i: usize)
    requires
        i < 9,
        c.len() == 9,
    ensures
        forall|m: int|
            0 <= m < all_combs(nb_list(c, i)).len() ==> 2 <= (#[trigger] all_combs(
                nb_list(c, i),
            )[m]).len() <= 4 && all_combs(nb_list(c, i))[m].no_duplicates(),
        forall|m: int, x: usize|
            0 <= m < all_combs(nb_list(c, i)).len() && #[trigger] all_combs(nb_list(c, i))[m].contains(
                x,
            ) ==> x < 9 && x != i && nb_ok(c, x as int),
{
    let nb = nb_list(c, i);
    lemma_nb_list_props(c, i);
    lemma_combos_props(nb, 4);
    lemma_combos_props(nb, 3);
    lemma_combos_props(nb, 2);
    assert forall|m: int| 0 <= m < all_combs(nb).len() implies 2 <= (#[trigger] all_combs(
        nb,
    )[m]).len() <= 4 && all_combs(nb)[m].no_duplicates() by {
        let c4 = combos(nb, 4);
        let c3 = combos(nb, 3);
        let c2 = combos(nb, 2);
        if m < c4.len() {
            assert(all_combs(nb)[m] == c4[m]);
        } else if m < c4.len() + c3.len() {
            assert(all_combs(nb)[m] == c3[m - c4.len()]);
        } else {
            assert(all_combs(nb)[m] == c2[m - c4.len() - c3.len()]);
        }
    }
    assert forall|m: int, x: usize|
        0 <= m < all_combs(nb).len() && #[trigger] all_combs(nb)[m].contains(x) implies x < 9 && x
        != i && nb_ok(c, x as int) by {
        let c4 = combos(nb, 4);
        let c3 = combos(nb, 3);
        let c2 = combos(nb, 2);
        if m < c4.len() {
            assert(all_combs(nb)[m] == c4[m]);
        } else if m < c4.len() + c3.len() {
            assert(all_combs(nb)[m] == c3[m - c4.len()]);
        } else {
            assert(all_combs(nb)[m] == c2[m - c4.len() - c3.len()]);
        }
        assert(nb.contains(x));
    }
}

/// Updating one cell changes the occupancy count by the difference of the
/// occupancy bits of the new and old values.
proof fn lemma_occ_update(d: Seq<u32>, i: int, v: u32)
    requires
        d.len() == 9,
        0 <= i < 9,
    ensures
        crate::grid::occ_count(d.update(i, v)) == crate::grid::occ_count(d) - crate::grid::occ_bit(
            d[i],
        ) + crate::grid::occ_bit(v),
{
}

/// Merging dice sums at least one pip per die consumed.
proof fn lemma_sum_at_lb(c: Seq<u32>, comb: Seq<usize>)
    requires
        forall|x: usize| #[trigger] comb.contains(x) ==> x < 9 && c[x as int] != 0,
    ensures
        sum_at(c, comb) >= comb.len(),
    decreases comb.len(),
{
    if comb.len() > 0 {
        assert(comb.contains(comb[0]));
        assert(forall|x: usize| #[trigger] comb.drop_first().contains(x) ==> comb.contains(x));
        lemma_sum_at_lb(c, comb.drop_first());
    }
}

/// Clearing a set of distinct occupied cells removes exactly that many dice
/// and leaves every other cell alone.
proof fn lemma_cleared_props(c: Seq<u32>, comb: Seq<usize>)
    requires
        c.len() == 9,
        comb.no_duplicates(),
        forall|x: usize| #[trigger] comb.contains(x) ==> x < 9 && c[x as int] != 0,
    ensures
        cleared(c, comb).len() == 9,
        crate::grid::occ_count(cleared(c, comb)) == crate::grid::occ_count(c) - comb.len(),
        forall|j: int| 0 <= j < 9 && !comb.contains(j as usize) ==> cleared(c, comb)[j] == c[j],
    decreases comb.len(),
{
    if comb.len() > 0 {
        let e = comb[0];
        assert(comb.contains(e));
        let c2 = c.update(e as int, 0);
        let rest = comb.drop_first();
        lemma_occ_update(c, e as int, 0);
        assert(forall|x: usize| #[trigger] rest.contains(x) ==> comb.contains(x));
        assert(!rest.contains(e));
        assert(forall|x: usize| #[trigger] rest.contains(x) ==> x < 9 && c2[x as int] != 0);
        lemma_cleared_props(c2, rest);
        assert forall|j: int| 0 <= j < 9 && !comb.contains(j as usize) implies cleared(c, comb)[j]
            == c[j] by {
            assert(!rest.contains(j as usize));
            assert(j != e);
        }
    }
}

/// Each kept merge successor of an empty cell strictly lowers the occupancy:
/// it consumes at least two dice and places one.
proof fn lemma_merge_list_occ(c: Seq<u32>, i: usize, cs: Seq<Seq<usize>>, j: int, n: int)
    requires
        c.len() == 9,
        i < 9,
        c[i as int] == 0,
        0 <= n < merge_list_upto(c, i, cs, j).len(),
        forall|m: int|
            0 <= m < cs.len() ==> 2 <= (#[trigger] cs[m]).len() <= 4 && cs[m].no_duplicates(),
        forall|m: int, x: usize|
            0 <= m < cs.len() && #[trigger] cs[m].contains(x) ==> x < 9 && x != i && nb_ok(
                c,
                x as int,
            ),
        j <= cs.len(),
    ensures
        crate::grid::occ_count(merge_list_upto(c, i, cs, j)[n]) < crate::grid::occ_count(c),
    decreases j,
{
    if j > 0 {
        let prev = merge_list_upto(c, i, cs, j - 1);
        if n < prev.len() {
            lemma_merge_list_occ(c, i, cs, j - 1, n);
        } else {
            let cq = cs[j - 1];
            assert(merge_list_upto(c, i, cs, j)[n] == merge_of(c, i, cq));
            assert(forall|x: usize| #[trigger] cq.contains(x) ==> x < 9 && c[x as int] != 0);
            lemma_cleared_props(c, cq);
            lemma_sum_at_lb(c, cq);
            let cl = cleared(c, cq);
            assert(!cq.contains(i));
            assert(cl[i as int] == 0);
            lemma_occ_update(cl, i as int, sum_at(c, cq) as u32);
            assert(crate::grid::occ_count(merge_of(c, i, cq)) == crate::grid::occ_count(c)
                - cq.len() + 1);
        }
    }
}

/// Monotonic occupancy: a successor either places one fresh die on an empty
/// cell, raising the occupancy by exactly one, or merges at least two dice
/// away, strictly lowering it. No successor ever gains more than one die.
pub proof fn lemma_successor_occupancy(c: Seq<u32>, n: int)
    requires
        c.len() == 9,
        0 <= n < succs(c).len(),
    ensures
        crate::grid::occ_count(succs(c)[n]) == crate::grid::occ_count(c) + 1 || crate::grid::occ_count(
            succs(c)[n],
        ) < crate::grid::occ_count(c),
{
    lemma_succs_upto_occ(c, 9, n);
}

proof fn lemma_succs_upto_occ(c: Seq<u32>, j: int, n: int)
    requires
        c.len() == 9,
        j <= 9,
        0 <= n < succs_upto(c, j).len(),
    ensures
        crate::grid::occ_count(succs_upto(c, j)[n]) == crate::grid::occ_count(c) + 1
            || crate::grid::occ_count(succs_upto(c, j)[n]) < crate::grid::occ_count(c),
    decreases j,
{
    if j > 0 {
        let prev = succs_upto(c, j - 1);
        if n < prev.len() {
            lemma_succs_upto_occ(c, j - 1, n);
        } else {
            let i = (j - 1) as usize;
            assert(c[j - 1] == 0);
            lemma_all_combs_props(c, i);
            let cs = all_combs(nb_list(c, i));
            let ml = merge_list_upto(c, i, cs, cs.len() as int);
            if ml.len() > 0 {
                assert(succs_upto(c, j)[n] == ml[n - prev.len()]);
                lemma_merge_list_occ(c, i, cs, cs.len() as int, n - prev.len());
            } else {
                assert(succs_upto(c, j)[n] == c.update(i as int, 1));
                lemma_occ_update(c, i as int, 1);
            }
        }
    }
}

impl Grid {
    /// Every board reachable from this one in a single move: for each empty
    /// cell, one successor per legal merge into it, or a single placed die
    /// where no merge is possible. A full board has no successor.
    pub fn possible_states(&self) -> (r: Vec<Grid>)
        requires
            self.wf(),
        ensures
            r@.len() == succs(self@).len(),
            forall|m: int| 0 <= m < r@.len() ==> (#[trigger] r@[m])@ == succs(self@)[m] && r@[m].wf(),
    {
        let ghost c = self@;
        let mut out: Vec<Grid> = Vec::new();
        let mut i: usize = 0;
        while i < 9
            invariant
                i <= 9,
                self.wf(),
                c == self@,
                out@.len() == succs_upto(c, i as int).len(),
                forall|m: int|
                    0 <= m < out@.len() ==> (#[trigger] out@[m])@ == succs_upto(c, i as int)[m]
                        && out@[m].wf(),
            decreases 9 - i,
        {
            let ghost out_base = out@;
            if self.cell_at(i) == 0 {
                let ghost nb = nb_list(c, i);
                let ghost csq = all_combs(nb);
                proof {
                    lemma_all_combs_props(c, i);
                }
                let mut nbs: Vec<usize> = Vec::new();
                if i >= 3 {
                    let v = self.cell_at(i - 3);
                    if v != 0 && v != 6 {
                        nbs.push(i - 3);
                    }
                }
                if i % 3 != 0 {
                    let v = self.cell_at(i - 1);
                    if v != 0 && v != 6 {
                        nbs.push(i - 1);
                    }
                }
                if i < 6 {
                    let v = self.cell_at(i + 3);
                    if v != 0 && v != 6 {
                        nbs.push(i + 3);
                    }
                }
                if i % 3 != 2 {
                    let v = self.cell_at(i + 1);
                    if v != 0 && v != 6 {
                        nbs.push(i + 1);
                    }
                }
                proof {
                    assert(nbs@ =~= nb);
                }
                let mut all = combinations_k(&nbs, 4);
                let mut c3 = combinations_k(&nbs, 3);
                let mut c2 = combinations_k(&nbs, 2);
                proof {
                    assert(forall|m: int|
                        0 <= m < all@.len() ==> (#[trigger] all@[m])@ == combos(nb, 4)[m]);
                }
                all.append(&mut c3);
                all.append(&mut c2);
                proof {
                    assert(all@.len() == csq.len());
                    assert(forall|m: int| 0 <= m < all@.len() ==> (#[trigger] all@[m])@ == csq[m]);
                }
                let mut valid = false;
                let mut j: usize = 0;
                while j < all.len()
                    invariant
                        j <= all.len(),
                        self.wf(),
                        c == self@,
                        i < 9,
                        c[i as int] == 0,
                        csq == all_combs(nb_list(c, i)),
                        all@.len() == csq.len(),
                        forall|m: int| 0 <= m < all@.len() ==> (#[trigger] all@[m])@ == csq[m],
                        forall|m: int|
                            0 <= m < csq.len() ==> 2 <= (#[trigger] csq[m]).len() <= 4
                                && csq[m].no_duplicates(),
                        forall|m: int, x: usize|
                            0 <= m < csq.len() && #[trigger] csq[m].contains(x) ==> x < 9 && x != i
                                && nb_ok(c, x as int),
                        valid <==> merge_list_upto(c, i, csq, j as int).len() > 0,
                        out@.len() == out_base.len() + merge_list_upto(c, i, csq, j as int).len(),
                        forall|m: int| 0 <= m < out_base.len() ==> out@[m] == out_base[m],
                        forall|m: int|
                            out_base.len() <= m < out@.len() ==> (#[trigger] out@[m])@
                                == merge_list_upto(c, i, csq, j as int)[m - out_base.len()]
                                && out@[m].wf(),
                    decreases all.len() - j,
                {
                    let comb = &all[j];
                    let ghost cq = csq[j as int];
                    proof {
                        assert(comb@ == cq);
                        assert(2 <= cq.len() <= 4 && cq.no_duplicates());
                        assert(forall|x: usize| #[trigger]
                            cq.contains(x) ==> x < 9 && x != i && nb_ok(c, x as int));
                        assert(cq.skip(0) =~= cq);
                    }
                    let mut sum: u32 = 0;
                    let mut m: usize = 0;
                    while m < comb.len()
                        invariant
                            m <= comb.len(),
                            self.wf(),
                            c == self@,
                            comb@ == cq,
                            cq.len() <= 4,
                            forall|x: usize| #[trigger] cq.contains(x) ==> x < 9 && nb_ok(c, x as int),
                            sum <= 6 * m,
                            sum + sum_at(c, cq.skip(m as int)) == sum_at(c, cq),
                        decreases comb.len() - m,
                    {
                        let e = comb[m];
                        proof {
                            assert(cq.contains(cq[m as int]));
                            assert(cq.skip(m as int).drop_first() =~= cq.skip(m as int + 1));
                            assert(cq.skip(m as int)[0] == cq[m as int]);
                        }
                        sum = sum + self.cell_at(e);
                        m = m + 1;
                    }
                    proof {
                        assert(cq.skip(cq.len() as int) =~= Seq::<usize>::empty());
                        assert(sum == sum_at(c, cq));
                    }
                    if sum <= 6 {
                        valid = true;
                        proof {
                            assert(cq.skip(0) =~= cq);
                        }
                        let mut ns = *self;
                        let mut m2: usize = 0;
                        while m2 < comb.len()
                            invariant
                                m2 <= comb.len(),
                                self.wf(),
                                c == self@,
                                comb@ == cq,
                                ns.wf(),
                                forall|x: usize| #[trigger]
                                    cq.contains(x) ==> x < 9 && nb_ok(c, x as int),
                                cleared(ns@, cq.skip(m2 as int)) == cleared(c, cq),
                            decreases comb.len() - m2,
                        {
                            let e = comb[m2];
                            proof {
                                assert(cq.contains(cq[m2 as int]));
                                assert(cq.skip(m2 as int).drop_first() =~= cq.skip(m2 as int + 1));
                                assert(cq.skip(m2 as int)[0] == cq[m2 as int]);
                            }
                            ns.set_cell(e, 0);
                            m2 = m2 + 1;
                        }
                        proof {
                            assert(cq.skip(cq.len() as int) =~= Seq::<usize>::empty());
                            assert(ns@ == cleared(c, cq));
                        }
                        ns.set_cell(i, sum);
                        proof {
                            assert(ns@ == merge_of(c, i, cq));
                        }
                        out.push(ns);
                    }
                    j = j + 1;
                }
                if !valid {
                    let mut ns = *self;
                    ns.set_cell(i, 1);
                    out.push(ns);
                    proof {
                        assert(ns@ == c.update(i as int, 1));
                    }
                }
                proof {
                    let ml = merge_list_upto(c, i, csq, csq.len() as int);
                    if valid {
                        assert(cell_succs(c, i) == ml);
                    } else {
                        assert(ml.len() == 0);
                        assert(cell_succs(c, i) == seq![c.update(i as int, 1)]);
                    }
                    assert(out@.len() == out_base.len() + cell_succs(c, i).len());
                    assert(succs_upto(c, i as int + 1) =~= succs_upto(c, i as int) + cell_succs(
                        c,
                        i,
                    ));
                    assert forall|m: int| 0 <= m < out@.len() implies (#[trigger] out@[m])@
                        == succs_upto(c, i as int + 1)[m] && out@[m].wf() by {
                        if m < out_base.len() {
                            assert(out@[m] == out_base[m]);
                            assert(succs_upto(c, i as int + 1)[m] == succs_upto(c, i as int)[m]);
                        } else {
                            assert(succs_upto(c, i as int + 1)[m] == cell_succs(c, i)[m
                                - out_base.len()]);
                        }
                    }
                }
            } else {
                proof {
                    assert(succs_upto(c, i as int + 1) =~= succs_upto(c, i as int));
                }
            }
            i = i + 1;
        }
        out
    }
}

} // verus!

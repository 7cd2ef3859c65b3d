use dice_merge::{compute_sum, Grid};

fn grid_from_array(a: [u32; 9]) -> Grid {
    let mut g = Grid::default();
    for (i, n) in a.into_iter().enumerate() {
        g.set(i % 3, i / 3, n);
    }
    g
}

fn hash_of(g: Grid) -> u64 {
    let mut h: u64 = 0;
    for y in 0..3 {
        for x in 0..3 {
            h = h * 10 + g.get(x, y) as u64;
        }
    }
    h
}

/// An independent successor generator: subsets of mergeable neighbours are
/// enumerated by bitmask rather than through the library's machinery.
fn successors(g: Grid) -> Vec<Grid> {
    let mut out = Vec::new();
    for y in 0..3 {
        for x in 0..3 {
            if g.get(x, y) != 0 {
                continue;
            }
            let mut nbs: Vec<(usize, usize)> = Vec::new();
            if y > 0 && g.get(x, y - 1) != 0 && g.get(x, y - 1) != 6 {
                nbs.push((x, y - 1));
            }
            if x > 0 && g.get(x - 1, y) != 0 && g.get(x - 1, y) != 6 {
                nbs.push((x - 1, y));
            }
            if y < 2 && g.get(x, y + 1) != 0 && g.get(x, y + 1) != 6 {
                nbs.push((x, y + 1));
            }
            if x < 2 && g.get(x + 1, y) != 0 && g.get(x + 1, y) != 6 {
                nbs.push((x + 1, y));
            }
            let mut any = false;
            for mask in 0u32..(1 << nbs.len()) {
                if mask.count_ones() < 2 {
                    continue;
                }
                let mut sum = 0;
                for (b, &(nx, ny)) in nbs.iter().enumerate() {
                    if mask & (1 << b) != 0 {
                        sum += g.get(nx, ny);
                    }
                }
                if sum > 6 {
                    continue;
                }
                any = true;
                let mut ns = g;
                for (b, &(nx, ny)) in nbs.iter().enumerate() {
                    if mask & (1 << b) != 0 {
                        ns.set(nx, ny, 0);
                    }
                }
                ns.set(x, y, sum);
                out.push(ns);
            }
            if !any {
                let mut ns = g;
                ns.set(x, y, 1);
                out.push(ns);
            }
        }
    }
    out
}

/// Naive enumeration of every move sequence, no deduplication and no
/// symmetry: a full board, or an exhausted budget, contributes its hash once.
fn brute(g: Grid, depth: u32) -> u64 {
    if g.dice_count() == 9 || depth == 0 {
        return hash_of(g);
    }
    let mut total: u64 = 0;
    for s in successors(g) {
        total += brute(s, depth - 1);
    }
    total
}

fn brute_checksum(g: Grid, depth: u32) -> u32 {
    (brute(g, depth) % (1 << 30)) as u32
}

#[test]
fn engine_matches_brute_force_depth_one() {
    let g = grid_from_array([5, 5, 5, 0, 0, 5, 5, 5, 5]);
    assert_eq!(compute_sum(g, 1), brute_checksum(g, 1));
    let g2 = grid_from_array([6, 1, 6, 1, 0, 1, 6, 1, 6]);
    assert_eq!(compute_sum(g2, 1), brute_checksum(g2, 1));
}

#[test]
fn engine_matches_brute_force_deeper() {
    let g = grid_from_array([0, 6, 0, 2, 2, 2, 1, 6, 1]);
    for d in 0..5 {
        assert_eq!(compute_sum(g, d as usize), brute_checksum(g, d));
    }
    let g2 = grid_from_array([5, 0, 6, 4, 5, 0, 0, 6, 4]);
    for d in 0..4 {
        assert_eq!(compute_sum(g2, d as usize), brute_checksum(g2, d));
    }
}

#[test]
fn engine_matches_brute_force_from_empty() {
    let g = grid_from_array([0, 0, 0, 0, 0, 0, 0, 0, 0]);
    for d in 0..4 {
        assert_eq!(compute_sum(g, d as usize), brute_checksum(g, d));
    }
    // Placing the first die anywhere gives nine hashes that sum to a row of
    // ones; these match the closed-form values used for the empty board.
    assert_eq!(compute_sum(g, 1), 111111111);
    assert_eq!(compute_sum(g, 2), 704035952);
    assert_eq!(compute_sum(g, 3), 840352818);
}

#[test]
fn successor_sets_match_independent_enumeration() {
    let grids = [
        [1, 0, 2, 0, 0, 0, 0, 0, 0],
        [0, 6, 0, 2, 2, 2, 1, 6, 1],
        [5, 0, 6, 4, 5, 0, 0, 6, 4],
        [3, 0, 0, 3, 6, 2, 1, 0, 2],
        [0, 0, 0, 0, 0, 0, 0, 0, 0],
    ];
    for cells in grids {
        let g = grid_from_array(cells);
        let mut lib: Vec<u32> = g.possible_states().iter().map(|s| s.bitset).collect();
        let mut naive: Vec<u32> = successors(g).iter().map(|s| s.bitset).collect();
        lib.sort();
        naive.sort();
        assert_eq!(lib, naive);
    }
}

#[test]
fn merges_really_merge() {
    // One empty cell between a 1 and a 2: the only merge clears both dice
    // and writes their sum of 3; every other empty cell gets a fresh die.
    let g = grid_from_array([1, 0, 2, 0, 0, 0, 0, 0, 0]);
    let states = g.possible_states();
    assert_eq!(states.len(), 7);
    let merged = grid_from_array([0, 3, 0, 0, 0, 0, 0, 0, 0]);
    assert!(states.contains(&merged));
}

#[test]
fn occupancy_changes_by_at_most_one() {
    let grids = [
        [0, 6, 0, 2, 2, 2, 1, 6, 1],
        [5, 0, 6, 4, 5, 0, 0, 6, 4],
        [1, 0, 2, 0, 0, 0, 0, 0, 0],
        [0, 0, 0, 0, 0, 0, 0, 0, 0],
    ];
    for cells in grids {
        let g = grid_from_array(cells);
        let occ = g.dice_count();
        for s in g.possible_states() {
            let so = s.dice_count();
            assert!(so == occ + 1 || so < occ);
        }
    }
}

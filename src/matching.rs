//! Maximum-weight monotone matching of query residues to backbone columns.
use crate::grid::{score_at, score_cells, score_set, score_table_zeros, step_at, step_cells, step_set, step_table_zeros};
use crate::fast_map::{entries_of, map_get, map_insert, map_new};
use vstd::prelude::*;

verus! {

/// One sparse weight: `(residue index, backbone column, weight)`.
pub type WeightEntry = (u32, u32, u64);

/// Weight of `(r, c)` in a list of entries. A later entry for the same pair
/// replaces an earlier one, as in a map; a pair with no entry weighs nothing.
pub open spec fn weight_at(e: Seq<WeightEntry>, r: int, c: int) -> u64
    decreases e.len(),
{
    if e.len() == 0 {
        0
    } else if e.last().0 == r && e.last().1 == c {
        e.last().2
    } else {
        weight_at(e.drop_last(), r, c)
    }
}

/// The residue (`second == false`) or the column (`second == true`) of an entry.
pub open spec fn coord(t: WeightEntry, second: bool) -> u32 {
    if second {
        t.1
    } else {
        t.0
    }
}

/// Whether some entry has `x` on the chosen axis.
pub open spec fn seen(e: Seq<WeightEntry>, x: int, second: bool) -> bool {
    exists|k: int| 0 <= k < e.len() && coord(#[trigger] e[k], second) == x
}

/// The values below `x` that occur on the chosen axis, in increasing order:
/// the compressed coordinates of that axis.
pub open spec fn seen_upto(e: Seq<WeightEntry>, x: nat, second: bool) -> Seq<u32>
    decreases x,
{
    if x == 0 {
        seq![]
    } else if seen(e, x - 1, second) {
        seen_upto(e, (x - 1) as nat, second).push((x - 1) as u32)
    } else {
        seen_upto(e, (x - 1) as nat, second)
    }
}

/// One step of the recurrence. The candidates are tried as diagonal, up,
/// left, and a later one replaces an earlier only when strictly larger: the
/// diagonal move, eligible only with positive evidence, keeps ties, and `up`
/// keeps a tie with `left`. Back pointers: 0 diagonal, 1 up, 2 left.
pub open spec fn best(diag: int, up: int, left: int, eligible: bool) -> (int, u8) {
    if eligible && diag >= up && diag >= left {
        (diag, 0)
    } else if left > up {
        (left, 2)
    } else {
        (up, 1)
    }
}

/// Score and back pointer of cell `(i, j)` of the table over the compressed
/// grid whose rows are `rows` and whose columns are `cols`.
pub open spec fn cell(e: Seq<WeightEntry>, rows: Seq<u32>, cols: Seq<u32>, i: nat, j: nat) -> (
    int,
    u8,
)
    decreases i + j,
{
    if i == 0 || j == 0 {
        (0, 1)
    } else {
        let w = weight_at(e, rows[i - 1] as int, cols[j - 1] as int) as int;
        best(
            cell(e, rows, cols, (i - 1) as nat, (j - 1) as nat).0 + w,
            cell(e, rows, cols, (i - 1) as nat, j).0,
            cell(e, rows, cols, i, (j - 1) as nat).0,
            w > 0,
        )
    }
}

/// Follows the back pointers from `(i, j)` to the border, recording each
/// diagonal step as a match of residue `rows[i-1]` to column `cols[j-1]`.
pub open spec fn trace(
    e: Seq<WeightEntry>,
    rows: Seq<u32>,
    cols: Seq<u32>,
    i: nat,
    j: nat,
    res: Seq<i32>,
) -> Seq<i32>
    decreases i + j,
{
    if i == 0 || j == 0 {
        res
    } else {
        let p = cell(e, rows, cols, i, j).1;
        if p == 0 {
            trace(
                e,
                rows,
                cols,
                (i - 1) as nat,
                (j - 1) as nat,
                res.update(rows[i - 1] as int, cols[j - 1] as i32),
            )
        } else if p == 1 {
            trace(e, rows, cols, (i - 1) as nat, j, res)
        } else {
            trace(e, rows, cols, i, (j - 1) as nat, res)
        }
    }
}

/// The matching of a query of `n` residues: for each residue the backbone
/// column it is matched to, or -1.
pub open spec fn matching(e: Seq<WeightEntry>, n: nat, m: nat) -> Seq<i32> {
    let rows = seen_upto(e, n, false);
    let cols = seen_upto(e, m, true);
    trace(e, rows, cols, rows.len(), cols.len(), Seq::new(n, |_i: int| -1i32))
}

/// Each value is larger than the one before.
pub open spec fn strictly_increasing(s: Seq<u32>) -> bool {
    forall|a: int, b: int| 0 <= a < b < s.len() ==> s[a] < s[b]
}

/// Key of compressed cell `(a, b)` in the weight grid.
pub open spec fn packed(a: int, b: int) -> int {
    a * 4294967296 + b
}

/// Weight of compressed cell `(a, b)` in the grid `g`, zero if absent.
pub open spec fn grid_weight(g: Map<u64, u64>, a: int, b: int) -> u64 {
    if g.contains_key(packed(a, b) as u64) {
        g[packed(a, b) as u64]
    } else {
        0
    }
}

proof fn lemma_cell_bounds(e: Seq<WeightEntry>, rows: Seq<u32>, cols: Seq<u32>, i: nat, j: nat)
    ensures
        0 <= cell(e, rows, cols, i, j).0 <= i * 18446744073709551615,
        cell(e, rows, cols, i, j).1 <= 2,
    decreases i + j,
{
    if i > 0 && j > 0 {
        lemma_cell_bounds(e, rows, cols, (i - 1) as nat, (j - 1) as nat);
        lemma_cell_bounds(e, rows, cols, (i - 1) as nat, j);
        lemma_cell_bounds(e, rows, cols, i, (j - 1) as nat);
    }
}

proof fn lemma_trace_done(
    e: Seq<WeightEntry>,
    rows: Seq<u32>,
    cols: Seq<u32>,
    i: nat,
    j: nat,
    res: Seq<i32>,
)
    requires
        i == 0 || j == 0,
    ensures
        trace(e, rows, cols, i, j, res) == res,
{
}

/// Compressed coordinates of one axis: the values that occur, in increasing
/// order, and for each value below `bound` its index among them.
fn compress_axis(e: &Vec<WeightEntry>, bound: usize, second: bool) -> (r: (Vec<u32>, Vec<usize>))
    requires
        forall|k: int| 0 <= k < e.len() ==> (coord(#[trigger] e[k], second) as int) < bound,
    ensures
        r.0@ == seen_upto(e@, bound as nat, second),
        strictly_increasing(r.0@),
        r.0.len() <= bound,
        forall|a: int| 0 <= a < r.0.len() ==> r.0[a] < bound,
        r.1.len() == bound,
        forall|x: int|
            0 <= x < bound && #[trigger] seen(e@, x, second) ==> r.1[x] < r.0.len() && r.0[r.1[x]
                as int] == x,
{
    let mut flags: Vec<bool> = vec![false; bound];
    let mut k: usize = 0;
    while k < e.len()
        invariant
            k <= e.len(),
            flags.len() == bound,
            forall|k2: int| 0 <= k2 < e.len() ==> (coord(#[trigger] e[k2], second) as int) < bound,
            forall|x: int|
                0 <= x < bound ==> flags[x] == exists|k2: int|
                    0 <= k2 < k && coord(#[trigger] e@[k2], second) == x,
        decreases e.len() - k,
    {
        let t = e[k];
        let x = if second {
            t.1
        } else {
            t.0
        };
        assert(coord(e@[k as int], second) == x);
        flags.set(x as usize, true);
        k += 1;
        assert forall|y: int| 0 <= y < bound implies flags[y] == exists|k2: int|
            0 <= k2 < k && coord(#[trigger] e@[k2], second) == y by {
            if y == x {
                assert(coord(e@[k - 1], second) == y);
            }
        }
    }
    assert forall|y: int| 0 <= y < bound implies flags[y] == #[trigger] seen(e@, y, second) by {}
    let mut vals: Vec<u32> = Vec::new();
    let mut index: Vec<usize> = vec![0; bound];
    let mut x: usize = 0;
    while x < bound
        invariant
            x <= bound,
            flags.len() == bound,
            index.len() == bound,
            vals.len() <= x,
            forall|y: int| 0 <= y < bound ==> flags[y] == #[trigger] seen(e@, y, second),
            vals@ == seen_upto(e@, x as nat, second),
            strictly_increasing(vals@),
            forall|a: int| 0 <= a < vals.len() ==> vals[a] < x,
            forall|y: int|
                0 <= y < x && #[trigger] seen(e@, y, second) ==> index[y] < vals.len()
                    && vals[index[y] as int] == y,
        decreases bound - x,
    {
        assert(flags[x as int] == seen(e@, x as int, second));
        if flags[x] {
            let ghost k2 = choose|k2: int| 0 <= k2 < e.len() && coord(e@[k2], second) == x;
            assert(coord(e@[k2], second) == x);
            index.set(x, vals.len());
            vals.push(x as u32);
        }
        x += 1;
    }
    (vals, index)
}

/// Solves the matching problem for one query of `shape.0` residues against
/// `shape.1` backbone columns. Only residues and columns that carry a weight
/// take part; the table is built over those compressed coordinates.
pub fn solve_matching_problem(shape: (usize, usize), weights: Vec<WeightEntry>) -> (res: Vec<i32>)
    requires
        shape.1 <= 2147483647,
        (seen_upto(weights@, shape.0 as nat, false).len() + 1) * (seen_upto(
            weights@,
            shape.1 as nat,
            true,
        ).len() + 1) <= isize::MAX,
        forall|k: int|
            0 <= k < weights.len() ==> (#[trigger] weights[k]).0 < shape.0 && weights[k].1
                < shape.1,
    ensures
        res@ == matching(weights@, shape.0 as nat, shape.1 as nat),
        forall|a: int, b: int|
            0 <= a < b < res.len() && res[a] != -1 && res[b] != -1 ==> res[a] < res[b],
{
    let (n, m) = shape;
    assert forall|k: int| 0 <= k < weights.len() implies (coord(#[trigger] weights[k], false) as int)
        < n by {}
    assert forall|k: int| 0 <= k < weights.len() implies (coord(#[trigger] weights[k], true) as int)
        < m by {}
    let (rows, to_row) = compress_axis(&weights, n, false);
    let (cols, to_col) = compress_axis(&weights, m, true);
    let ghost e = weights@;
    let nr = rows.len();
    let nc = cols.len();
    proof {
        if nr > 4294967296 {
            lemma_increasing_at_least_index(rows@, 4294967296);
        }
        if nc > 4294967296 {
            lemma_increasing_at_least_index(cols@, 4294967296);
        }
    }
    // compressed weight grid, keyed by `packed(a, b)`
    let mut grid = map_new();
    let mut k: usize = 0;
    while k < weights.len()
        invariant
            k <= weights.len(),
            e == weights@,
            rows@ == seen_upto(e, n as nat, false),
            cols@ == seen_upto(e, m as nat, true),
            strictly_increasing(rows@),
            strictly_increasing(cols@),
            nr == rows.len(),
            nc == cols.len(),
            nr <= 4294967296,
            nc <= 4294967296,
            to_row.len() == n,
            to_col.len() == m,
            forall|x: int|
                0 <= x < n && #[trigger] seen(e, x, false) ==> to_row[x] < nr && rows[to_row[x]
                    as int] == x,
            forall|x: int|
                0 <= x < m && #[trigger] seen(e, x, true) ==> to_col[x] < nc && cols[to_col[x]
                    as int] == x,
            forall|k2: int|
                0 <= k2 < weights.len() ==> (#[trigger] weights[k2]).0 < n && weights[k2].1 < m,
            forall|a: int, b: int|
                0 <= a < nr && 0 <= b < nc ==> #[trigger] grid_weight(entries_of(grid), a, b) == weight_at(
                    e.take(k as int),
                    rows[a] as int,
                    cols[b] as int,
                ),
        decreases weights.len() - k,
    {
        let t = weights[k];
        assert(coord(e[k as int], false) == t.0);
        assert(coord(e[k as int], true) == t.1);
        assert(seen(e, t.0 as int, false));
        assert(seen(e, t.1 as int, true));
        let a = to_row[t.0 as usize];
        let b = to_col[t.1 as usize];
        let key: u64 = (a as u64) * 4294967296 + (b as u64);
        let ghost old_grid = entries_of(grid);
        map_insert(&mut grid, key, t.2);
        k += 1;
        assert forall|a2: int, b2: int| 0 <= a2 < nr && 0 <= b2 < nc implies #[trigger] grid_weight(
            entries_of(grid),
            a2,
            b2,
        ) == weight_at(e.take(k as int), rows[a2] as int, cols[b2] as int) by {
            assert(e.take(k as int).drop_last() =~= e.take(k - 1));
            assert(e.take(k as int).last() == t);
            assert(key == packed(a as int, b as int));
            if a2 == a && b2 == b {
            } else {
                assert(packed(a2, b2) != packed(a as int, b as int));
                assert(0 <= packed(a2, b2) < 18446744073709551616);
                assert(packed(a2, b2) as u64 != key);
                if rows[a2] == t.0 && cols[b2] == t.1 {
                    assert(a2 == a) by {
                        if a2 < a {
                            assert(rows[a2] < rows[a as int]);
                        } else if a2 > a {
                            assert(rows[a2] > rows[a as int]);
                        }
                    }
                    assert(b2 == b) by {
                        if b2 < b {
                            assert(cols[b2] < cols[b as int]);
                        } else if b2 > b {
                            assert(cols[b2] > cols[b as int]);
                        }
                    }
                }
                assert(grid_weight(entries_of(grid), a2, b2) == grid_weight(old_grid, a2, b2));
            }
        }
    }
    assert(e.take(weights.len() as int) =~= e);
    // score and back-pointer tables; row 0 and column 0 are the border
    proof {
        assert(nr + 1 <= (nr + 1) * (nc + 1) && nc + 1 <= (nr + 1) * (nc + 1)) by (nonlinear_arith)
            requires
                nr >= 0,
                nc >= 0,
        ;
    }
    let mut score = score_table_zeros(nr + 1, nc + 1);
    let mut back = step_table_zeros(nr + 1, nc + 1);
    let mut i: usize = 0;
    while i < nr
        invariant
            i <= nr,
            nr <= 4294967296,
            nc <= 4294967296,
            nr == rows.len(),
            nc == cols.len(),
            score_cells(score).len() == nr + 1,
            step_cells(back).len() == nr + 1,
            forall|ii: int| 0 <= ii <= nr ==> (#[trigger] score_cells(score)[ii]).len() == nc + 1,
            forall|ii: int| 0 <= ii <= nr ==> (#[trigger] step_cells(back)[ii]).len() == nc + 1,
            forall|a: int, b: int|
                0 <= a < nr && 0 <= b < nc ==> #[trigger] grid_weight(entries_of(grid), a, b) == weight_at(
                    e,
                    rows[a] as int,
                    cols[b] as int,
                ),
            forall|ii: int, jj: int|
                0 <= ii <= i && 0 <= jj <= nc ==> score_cells(score)[ii][jj] == cell(
                    e,
                    rows@,
                    cols@,
                    ii as nat,
                    jj as nat,
                ).0,
            forall|ii: int, jj: int|
                1 <= ii <= i && 1 <= jj <= nc ==> step_cells(back)[ii][jj] == cell(
                    e,
                    rows@,
                    cols@,
                    ii as nat,
                    jj as nat,
                ).1,
            forall|ii: int, jj: int|
                i < ii <= nr && 0 <= jj <= nc ==> score_cells(score)[ii][jj] == 0,
        decreases nr - i,
    {
        // this pass fills row i + 1
        let mut j: usize = 0;
        while j < nc
            invariant
                j <= nc,
                i < nr,
                nr <= 4294967296,
                nc <= 4294967296,
                nr == rows.len(),
                nc == cols.len(),
                score_cells(score).len() == nr + 1,
                step_cells(back).len() == nr + 1,
                forall|ii: int| 0 <= ii <= nr ==> (#[trigger] score_cells(score)[ii]).len() == nc + 1,
                forall|ii: int| 0 <= ii <= nr ==> (#[trigger] step_cells(back)[ii]).len() == nc + 1,
                forall|a: int, b: int|
                    0 <= a < nr && 0 <= b < nc ==> #[trigger] grid_weight(entries_of(grid), a, b)
                        == weight_at(e, rows[a] as int, cols[b] as int),
                forall|ii: int, jj: int|
                    0 <= ii <= i && 0 <= jj <= nc ==> score_cells(score)[ii][jj] == cell(
                        e,
                        rows@,
                        cols@,
                        ii as nat,
                        jj as nat,
                    ).0,
                forall|ii: int, jj: int|
                    1 <= ii <= i && 1 <= jj <= nc ==> step_cells(back)[ii][jj] == cell(
                        e,
                        rows@,
                        cols@,
                        ii as nat,
                        jj as nat,
                    ).1,
                forall|jj: int|
                    0 <= jj <= j ==> #[trigger] score_cells(score)[i + 1][jj] == cell(
                        e,
                        rows@,
                        cols@,
                        (i + 1) as nat,
                        jj as nat,
                    ).0,
                forall|jj: int|
                    1 <= jj <= j ==> #[trigger] step_cells(back)[i + 1][jj] == cell(
                        e,
                        rows@,
                        cols@,
                        (i + 1) as nat,
                        jj as nat,
                    ).1,
                forall|ii: int, jj: int|
                    i + 1 < ii <= nr && 0 <= jj <= nc ==> score_cells(score)[ii][jj] == 0,
            decreases nc - j,
        {
            // cell (i + 1, j + 1), whose weight sits at compressed (i, j)
            let key: u64 = (i as u64) * 4294967296 + (j as u64);
            let w: u64 = match map_get(&grid, key) {
                Some(x) => x,
                None => 0,
            };
            assert(w == grid_weight(entries_of(grid), i as int, j as int));
            proof {
                lemma_cell_bounds(e, rows@, cols@, i as nat, j as nat);
                assert(i * 18446744073709551615 <= 4294967296 * 18446744073709551615)
                    by (nonlinear_arith)
                    requires
                        i <= 4294967296,
                ;
            }
            let diag: u128 = score_at(&score, i, j) + w as u128;
            let up: u128 = score_at(&score, i, j + 1);
            let left: u128 = score_at(&score, i + 1, j);
            let (v, p): (u128, u8) = if w > 0 && diag >= up && diag >= left {
                (diag, 0)
            } else if left > up {
                (left, 2)
            } else {
                (up, 1)
            };
            score_set(&mut score, i + 1, j + 1, v);
            step_set(&mut back, i + 1, j + 1, p);
            j += 1;
        }
        i += 1;
    }
    // trace back from the far corner
    let mut res: Vec<i32> = vec![-1i32; n];
    let ghost init = res@;
    assert(init =~= Seq::new(n as nat, |_i: int| -1i32));
    let mut i: usize = nr;
    let mut j: usize = nc;
    while i > 0 && j > 0
        invariant
            i <= nr,
            j <= nc,
            nr == rows.len(),
            nc == cols.len(),
            step_cells(back).len() == nr + 1,
            forall|ii: int| 0 <= ii <= nr ==> (#[trigger] step_cells(back)[ii]).len() == nc + 1,
            forall|ii: int, jj: int|
                1 <= ii <= nr && 1 <= jj <= nc ==> step_cells(back)[ii][jj] == cell(
                    e,
                    rows@,
                    cols@,
                    ii as nat,
                    jj as nat,
                ).1,
            rows@ == seen_upto(e, n as nat, false),
            cols@ == seen_upto(e, m as nat, true),
            strictly_increasing(rows@),
            strictly_increasing(cols@),
            forall|a: int| 0 <= a < nr ==> rows[a] < n,
            forall|a: int| 0 <= a < nc ==> cols[a] < m,
            m <= 2147483647,
            res.len() == n,
            trace(e, rows@, cols@, i as nat, j as nat, res@) == trace(
                e,
                rows@,
                cols@,
                nr as nat,
                nc as nat,
                init,
            ),
            forall|r: int|
                0 <= r < n && res[r] != -1 ==> res[r] >= 0 && (i == 0 || r > rows[i - 1]) && (j
                    == 0 || res[r] > cols[j - 1]),
            forall|a: int, b: int|
                0 <= a < b < res.len() && res[a] != -1 && res[b] != -1 ==> res[a] < res[b],
        decreases i + j,
    {
        let p = step_at(&back, i, j);
        if p == 0 {
            i -= 1;
            j -= 1;
            let r = rows[i] as usize;
            let c = cols[j] as i32;
            proof {
                assert forall|r2: int|
                    0 <= r2 < n && res[r2] != -1 implies r2 > r && res[r2] > c by {}
            }
            res.set(r, c);
        } else if p == 1 {
            i -= 1;
        } else {
            j -= 1;
        }
    }
    proof {
        lemma_trace_done(e, rows@, cols@, i as nat, j as nat, res@);
    }
    res
}

proof fn lemma_increasing_at_least_index(s: Seq<u32>, a: int)
    requires
        strictly_increasing(s),
        0 <= a < s.len(),
    ensures
        s[a] >= a,
    decreases a,
{
    if a > 0 {
        lemma_increasing_at_least_index(s, a - 1);
    }
}

} // verus!

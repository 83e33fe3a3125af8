//! From per-query traces to positions in the printed alignment.
use crate::bitset::{bits_of, ExFixedBitSet};
use fixedbitset::FixedBitSet;
use vstd::prelude::*;

verus! {

/// Per-query positional homologies: for each residue of each row, the
/// backbone column it is homologous to, or a negative value.
pub struct LettersWithColors {
    /// number of homology classes (backbone columns)
    pub num_colors: usize,
    /// each row and the column of each of its residues (-1 if none)
    pub letter_colors: Vec<Vec<i32>>,
}

/// Where every letter of every row goes in the printed alignment.
pub struct FormattedHomologies {
    /// number of columns of the printed alignment
    pub num_visual_columns: u64,
    /// per row, which letters are unmatched (printed in lower case)
    pub singleton_letters: Vec<FixedBitSet>,
    /// per row, the printed column of each letter
    pub letter_positions: Vec<Vec<u64>>,
    /// per backbone column, the inserted columns right before it; the last
    /// entry counts those after the last backbone column
    pub front_paddings: Vec<u64>,
    /// printed column of each backbone column
    pub shifted_columns: Vec<u64>,
}

/// Number of unmatched letters right before index `j`.
pub open spec fn run(r: Seq<i32>, j: int) -> nat
    decreases j,
{
    if j <= 0 {
        0
    } else if r[j - 1] >= 0 {
        0
    } else {
        run(r, j - 1) + 1
    }
}

/// No letter before index `j` is matched.
pub open spec fn no_hit_before(r: Seq<i32>, j: int) -> bool {
    forall|i: int| 0 <= i < j ==> r[i] < 0
}

/// The padding bucket a matched letter at `j` speaks for: the letters before
/// the first match of a row count for the front of the alignment.
pub open spec fn bucket(r: Seq<i32>, j: int) -> int {
    if no_hit_before(r, j) {
        0
    } else {
        r[j] as int
    }
}

/// `fp` is the front padding of `rows` over `k` columns: each bucket is the
/// longest run of unmatched letters that it speaks for, over all rows.
pub open spec fn is_front_padding(rows: Seq<Seq<i32>>, k: int, fp: Seq<u64>) -> bool {
    &&& fp.len() == k + 1
    &&& covers(rows, k, fp, rows.len() as int)
    &&& witnessed(rows, k, fp)
}

/// Sum of the first `c` entries.
pub open spec fn prefix(fp: Seq<u64>, c: int) -> int
    decreases c,
{
    if c <= 0 {
        0
    } else {
        prefix(fp, c - 1) + fp[c - 1]
    }
}

/// Printed column of each backbone column, for the front padding `fp`.
pub open spec fn shifted_of(fp: Seq<u64>, k: int) -> Seq<u64> {
    Seq::new(k as nat, |c: int| (prefix(fp, c + 1) + c) as u64)
}

/// Width of the printed alignment, for the front padding `fp`.
pub open spec fn width_of(fp: Seq<u64>, k: int) -> int {
    k + prefix(fp, k + 1)
}

/// Index of the first matched letter at or after `j`, or the row length.
pub open spec fn next_hit(r: Seq<i32>, j: int) -> int
    decreases r.len() - j,
{
    if j >= r.len() || j < 0 {
        r.len() as int
    } else if r[j] >= 0 {
        j
    } else {
        next_hit(r, j + 1)
    }
}

/// Printed column of letter `j` of row `r`: a matched letter goes to its
/// shifted column; an unmatched letter before any match goes to the very
/// front; one after the last match goes to the tail; any other is packed
/// right before the next match.
pub open spec fn position(r: Seq<i32>, sh: Seq<u64>, expanded: int, j: int) -> int {
    if r[j] >= 0 {
        sh[r[j] as int] as int
    } else if no_hit_before(r, j) {
        j
    } else if next_hit(r, j) >= r.len() {
        expanded - (r.len() - j)
    } else {
        sh[r[next_hit(r, j)] as int] - (next_hit(r, j) - j)
    }
}

/// The rows of a table of columns, as sequences.
pub open spec fn rows_of(v: Vec<Vec<i32>>) -> Seq<Seq<i32>> {
    v@.map_values(|r: Vec<i32>| r@)
}

/// Every column named in `rows` is below `k`.
pub open spec fn rows_in_range(rows: Seq<Seq<i32>>, k: int) -> bool {
    forall|ri: int, j: int|
        0 <= ri < rows.len() && 0 <= j < rows[ri].len() ==> (#[trigger] rows[ri][j]) < k
}

/// Every matched letter of the first `upto` rows finds its bucket at least
/// as long as the run before it, and the tail bucket covers every trailing run.
pub open spec fn covers(rows: Seq<Seq<i32>>, k: int, fp: Seq<u64>, upto: int) -> bool {
    &&& forall|ri: int, j: int|
        0 <= ri < upto && 0 <= j < rows[ri].len() && rows[ri][j] >= 0 ==> fp[bucket(rows[ri], j)]
            >= #[trigger] run(rows[ri], j)
    &&& forall|ri: int| 0 <= ri < upto ==> fp[k] >= #[trigger] run(rows[ri], rows[ri].len() as int)
}

/// Every non-zero bucket is the length of some run that it speaks for.
pub open spec fn witnessed(rows: Seq<Seq<i32>>, k: int, fp: Seq<u64>) -> bool {
    &&& forall|c: int|
        0 <= c < k && fp[c] > 0 ==> exists|ri: int, j: int|
            0 <= ri < rows.len() && 0 <= j < rows[ri].len() && rows[ri][j] >= 0 && bucket(
                rows[ri],
                j,
            ) == c && #[trigger] run(rows[ri], j) == fp[c]
    &&& fp[k] > 0 ==> exists|ri: int|
        0 <= ri < rows.len() && #[trigger] run(rows[ri], rows[ri].len() as int) == fp[k]
}

proof fn lemma_run_le(r: Seq<i32>, j: int)
    requires
        0 <= j <= r.len(),
    ensures
        run(r, j) <= j,
    decreases j,
{
    if j > 0 {
        lemma_run_le(r, j - 1);
    }
}

proof fn lemma_run_ge(r: Seq<i32>, j: int, q: int)
    requires
        0 <= j <= q <= r.len(),
        forall|i: int| j <= i < q ==> r[i] < 0,
    ensures
        run(r, q) >= q - j,
    decreases q - j,
{
    if q > j {
        lemma_run_ge(r, j, q - 1);
    }
}

proof fn lemma_next_hit(r: Seq<i32>, j: int)
    requires
        0 <= j <= r.len(),
    ensures
        j <= next_hit(r, j) <= r.len(),
        next_hit(r, j) < r.len() ==> r[next_hit(r, j)] >= 0,
        forall|i: int| j <= i < next_hit(r, j) ==> r[i] < 0,
    decreases r.len() - j,
{
    if j < r.len() && r[j] < 0 {
        lemma_next_hit(r, j + 1);
    }
}

proof fn lemma_prefix_mono(fp: Seq<u64>, a: int, b: int)
    requires
        0 <= a <= b <= fp.len(),
    ensures
        prefix(fp, a) <= prefix(fp, b),
        a < b ==> prefix(fp, a) + fp[a] <= prefix(fp, b),
    decreases b - a,
{
    if a < b {
        lemma_prefix_mono(fp, a, b - 1);
    }
}

proof fn lemma_prefix_bound(fp: Seq<u64>, c: int)
    requires
        0 <= c <= fp.len(),
        forall|i: int| 0 <= i < fp.len() ==> fp[i] <= 4294967295,
    ensures
        0 <= prefix(fp, c) <= c * 4294967295,
    decreases c,
{
    if c > 0 {
        lemma_prefix_bound(fp, c - 1);
    }
}

impl LettersWithColors {
    pub fn new(num_columns: usize, homology_hits: Vec<Vec<i32>>) -> (r: Self)
        ensures
            r.num_colors == num_columns,
            r.letter_colors@ == homology_hits@,
    {
        LettersWithColors { num_colors: num_columns, letter_colors: homology_hits }
    }

    /// Appends the row of the backbone itself: column `i` for letter `i`.
    pub fn append_backbone_column_colors(&mut self)
        requires
            old(self).num_colors <= 2147483647,
        ensures
            final(self).num_colors == old(self).num_colors,
            rows_of(final(self).letter_colors) == rows_of(old(self).letter_colors).push(
                Seq::new(old(self).num_colors as nat, |i: int| i as i32),
            ),
    {
        let mut new_positions: Vec<i32> = Vec::new();
        let mut c: usize = 0;
        while c < self.num_colors
            invariant
                c <= self.num_colors <= 2147483647,
                new_positions@ == Seq::new(c as nat, |i: int| i as i32),
            decreases self.num_colors - c,
        {
            new_positions.push(c as i32);
            c += 1;
            assert(new_positions@ =~= Seq::new(c as nat, |i: int| i as i32));
        }
        let ghost before = self.letter_colors;
        self.letter_colors.push(new_positions);
        assert(rows_of(self.letter_colors) =~= rows_of(before).push(
            Seq::new(self.num_colors as nat, |i: int| i as i32),
        ));
    }

    /// Turns the positional homologies into printed positions: pads each
    /// backbone column with the longest run of unmatched letters before it,
    /// and places every letter of every row.
    pub fn transl(self) -> (r: FormattedHomologies)
        requires
            self.num_colors < 4294967295,
            rows_in_range(rows_of(self.letter_colors), self.num_colors as int),
            forall|ri: int|
                0 <= ri < self.letter_colors.len() ==> (#[trigger] self.letter_colors[ri]).len()
                    <= 4294967295,
        ensures
            ({
                let rows = rows_of(self.letter_colors);
                let k = self.num_colors as int;
                &&& is_front_padding(rows, k, r.front_paddings@)
                &&& r.shifted_columns.len() == k
                &&& k > 0 ==> r.shifted_columns[0] == r.front_paddings[0]
                &&& forall|c: int|
                    0 < c < k ==> #[trigger] r.shifted_columns[c] == r.shifted_columns[c - 1]
                        + r.front_paddings[c] + 1
                &&& r.num_visual_columns == k + prefix(r.front_paddings@, k + 1)
                &&& r.shifted_columns@ == shifted_of(r.front_paddings@, k)
                &&& forall|a: int, b: int|
                    0 <= a < b < k ==> r.shifted_columns[a] < r.shifted_columns[b]
                &&& forall|c: int| 0 <= c < k ==> #[trigger] r.shifted_columns[c] < r.num_visual_columns
                &&& forall|ri: int, j: int|
                    0 <= ri < r.letter_positions.len() && 0 <= j < r.letter_positions[ri].len()
                        ==> #[trigger] r.letter_positions[ri][j] < r.num_visual_columns
                &&& r.letter_positions.len() == rows.len()
                &&& r.singleton_letters.len() == rows.len()
                &&& forall|ri: int|
                    0 <= ri < rows.len() ==> (#[trigger] r.letter_positions[ri])@ == Seq::new(
                        rows[ri].len(),
                        |j: int|
                            position(
                                rows[ri],
                                r.shifted_columns@,
                                r.num_visual_columns as int,
                                j,
                            ) as u64,
                    ) && bits_of(r.singleton_letters[ri]) == Seq::new(
                        rows[ri].len(),
                        |j: int| rows[ri][j] < 0,
                    )
            }),
    {
        let ghost rows = rows_of(self.letter_colors);
        let k = self.num_colors;
        let mut fp: Vec<u64> = vec![0u64; k + 1];
        assert(fp@ =~= Seq::new((k + 1) as nat, |_c: int| 0u64));
        let mut singles: Vec<FixedBitSet> = Vec::new();
        let n = self.letter_colors.len();
        let mut ri: usize = 0;
        while ri < n
            invariant
                0 <= ri <= n,
                n == rows.len(),
                k == self.num_colors,
                k < 4294967295,
                fp.len() == k + 1,
                rows == rows_of(self.letter_colors),
                rows_in_range(rows, k as int),
                forall|r2: int| 0 <= r2 < n ==> (#[trigger] rows[r2]).len() <= 4294967295,
                forall|c: int| 0 <= c <= k ==> fp[c] <= 4294967295,
                covers(rows, k as int, fp@, ri as int),
                witnessed(rows, k as int, fp@),
                singles.len() == ri,
                forall|r2: int|
                    0 <= r2 < ri ==> bits_of(#[trigger] singles[r2]) == Seq::new(
                        rows[r2].len(),
                        |j: int| rows[r2][j] < 0,
                    ),
            decreases n - ri,
        {
            assert(rows[ri as int].len() <= 4294967295);
            let bits = pad_row(&self.letter_colors, ri, k, &mut fp);
            singles.push(bits);
            ri += 1;
        }
        let (shifted, expanded) = shift_columns(&fp, k);
        let ghost sh = shifted@;
        let mut positions: Vec<Vec<u64>> = Vec::new();
        let mut ri: usize = 0;
        while ri < n
            invariant
                0 <= ri <= n,
                n == rows.len(),
                k == self.num_colors,
                fp.len() == k + 1,
                sh.len() == k,
                sh == shifted@,
                rows == rows_of(self.letter_colors),
                rows_in_range(rows, k as int),
                is_front_padding(rows, k as int, fp@),
                forall|c2: int, b: int| 0 <= b <= c2 < k ==> sh[c2] >= fp[b],
                forall|c2: int| 0 <= c2 < k ==> #[trigger] sh[c2] < expanded,
                expanded >= fp[k as int],
                positions.len() == ri,
                forall|r2: int, j: int|
                    0 <= r2 < ri && 0 <= j < positions[r2].len() ==> #[trigger] positions[r2][j]
                        < expanded,
                forall|r2: int|
                    0 <= r2 < ri ==> (#[trigger] positions[r2])@ == Seq::new(
                        rows[r2].len(),
                        |j: int| position(rows[r2], sh, expanded as int, j) as u64,
                    ),
            decreases n - ri,
        {
            let hits = &self.letter_colors[ri];
            let ghost r = rows[ri as int];
            assert(r == hits@);
            assert forall|q: int| 0 <= q < r.len() && r[q] >= 0 implies r[q] < sh.len() && sh[r[q] as int]
                >= #[trigger] run(r, q) by {
                assert(rows[ri as int][q] < k);
                assert(fp[bucket(rows[ri as int], q)] >= run(rows[ri as int], q));
            }
            assert(expanded >= run(rows[ri as int], rows[ri as int].len() as int));
            let local = place_row(hits, &shifted, expanded);
            positions.push(local);
            ri += 1;
        }
        assert(k > 0 ==> shifted[0] == fp[0]) by {
            if k > 0 {
                assert(prefix(fp@, 1) == prefix(fp@, 0) + fp[0]);
            }
        }
        assert forall|c: int| 0 < c < k implies #[trigger] shifted[c] == shifted[c - 1] + fp[c]
            + 1 by {
            assert(prefix(fp@, c + 1) == prefix(fp@, c) + fp[c]);
        }
        assert(shifted@ =~= shifted_of(fp@, k as int));
        FormattedHomologies {
            num_visual_columns: expanded,
            singleton_letters: singles,
            letter_positions: positions,
            front_paddings: fp,
            shifted_columns: shifted,
        }
    }
}

/// Scans row `ri`: widens the buckets its runs speak for, and returns which
/// of its letters are unmatched.
fn pad_row(rows_v: &Vec<Vec<i32>>, ri: usize, k: usize, fp: &mut Vec<u64>) -> (bits: FixedBitSet)
    requires
        ri < rows_v.len(),
        k < 4294967295,
        old(fp).len() == k + 1,
        rows_in_range(rows_of(*rows_v), k as int),
        rows_v[ri as int].len() <= 4294967295,
        forall|c: int| 0 <= c <= k ==> old(fp)[c] <= 4294967295,
        covers(rows_of(*rows_v), k as int, old(fp)@, ri as int),
        witnessed(rows_of(*rows_v), k as int, old(fp)@),
    ensures
        final(fp).len() == k + 1,
        forall|c: int| 0 <= c <= k ==> final(fp)[c] <= 4294967295,
        covers(rows_of(*rows_v), k as int, final(fp)@, ri + 1),
        witnessed(rows_of(*rows_v), k as int, final(fp)@),
        bits_of(bits) == Seq::new(rows_v[ri as int].len() as nat, |j: int| rows_v[ri as int][j] < 0),
{
    let ghost rows = rows_of(*rows_v);
    let hits = &rows_v[ri];
    let ghost r = rows[ri as int];
    assert(r == hits@);
    let len = hits.len();
    let mut bits = FixedBitSet::with_capacity(len);
    let mut count: u64 = 0;
    let mut first_hit = true;
    let mut j: usize = 0;
    while j < len
        invariant
            0 <= j <= len,
            len == r.len(),
            r == hits@,
            r == rows[ri as int],
            ri < rows.len(),
            k < 4294967295,
            len <= 4294967295,
            fp.len() == k + 1,
            rows_in_range(rows, k as int),
            forall|c: int| 0 <= c <= k ==> fp[c] <= 4294967295,
            count == run(r, j as int),
            first_hit == no_hit_before(r, j as int),
            bits_of(bits).len() == len,
            forall|j2: int| 0 <= j2 < j ==> bits_of(bits)[j2] == (r[j2] < 0),
            forall|j2: int| j <= j2 < len ==> !bits_of(bits)[j2],
            covers(rows, k as int, fp@, ri as int),
            forall|j2: int| 0 <= j2 < j && r[j2] >= 0 ==> fp[bucket(r, j2)] >= #[trigger] run(r, j2),
            witnessed(rows, k as int, fp@),
        decreases len - j,
    {
        proof {
            lemma_run_le(r, j as int);
        }
        let h = hits[j];
        if h < 0 {
            count += 1;
            bits.set(j, true);
        } else {
            let b: usize = if first_hit {
                0
            } else {
                h as usize
            };
            assert(b == bucket(r, j as int));
            assert(rows[ri as int][j as int] < k);
            if count > fp[b] {
                fp.set(b, count);
                assert(run(rows[ri as int], j as int) == fp[b as int]);
            }
            first_hit = false;
            count = 0;
        }
        j += 1;
    }
    proof {
        lemma_run_le(r, len as int);
    }
    if count > 0 && count > fp[k] {
        fp.set(k, count);
        assert(run(rows[ri as int], rows[ri as int].len() as int) == fp[k as int]);
    }
    assert forall|r2: int, j2: int|
        0 <= r2 < ri + 1 && 0 <= j2 < rows[r2].len() && rows[r2][j2] >= 0 implies fp[bucket(
        rows[r2],
        j2,
    )] >= #[trigger] run(rows[r2], j2) by {
        if r2 == ri {
            assert(r[j2] >= 0);
            assert(fp[bucket(r, j2)] >= run(r, j2));
        }
    }
    assert forall|r2: int| 0 <= r2 < ri + 1 implies fp[k as int] >= #[trigger] run(
        rows[r2],
        rows[r2].len() as int,
    ) by {}
    assert(bits_of(bits) =~= Seq::new(len as nat, |j2: int| r[j2] < 0));
    bits
}

/// Printed column of each backbone column, and the width of the alignment.
fn shift_columns(fp: &Vec<u64>, k: usize) -> (r: (Vec<u64>, u64))
    requires
        k < 4294967295,
        fp.len() == k + 1,
        forall|c: int| 0 <= c <= k ==> fp[c] <= 4294967295,
    ensures
        r.0.len() == k,
        forall|c: int| 0 <= c < k ==> #[trigger] r.0[c] == prefix(fp@, c + 1) + c,
        r.1 == k + prefix(fp@, k + 1),
        forall|c: int, b: int| 0 <= b <= c < k ==> r.0[c] >= fp[b],
        r.1 >= fp[k as int],
        forall|a: int, b: int| 0 <= a < b < k ==> r.0[a] < r.0[b],
        forall|c: int| 0 <= c < k ==> #[trigger] r.0[c] < r.1,
{
    let mut shifted: Vec<u64> = Vec::new();
    let mut total: u64 = 0;
    let mut c: usize = 0;
    while c < k
        invariant
            c <= k,
            k < 4294967295,
            fp.len() == k + 1,
            forall|c2: int| 0 <= c2 <= k ==> fp[c2] <= 4294967295,
            total == prefix(fp@, c as int),
            shifted.len() == c,
            forall|c2: int| 0 <= c2 < c ==> #[trigger] shifted[c2] == prefix(fp@, c2 + 1) + c2,
        decreases k - c,
    {
        proof {
            lemma_prefix_bound(fp@, c as int + 1);
            assert((c + 1) * 4294967295 + c <= 4294967295 * 4294967295 + 4294967295)
                by (nonlinear_arith)
                requires
                    c < 4294967295,
            ;
        }
        total = total + fp[c];
        shifted.push(total + c as u64);
        c += 1;
    }
    proof {
        lemma_prefix_bound(fp@, k as int + 1);
        assert((k + 1) * 4294967295 + k <= 4294967295 * 4294967295 + 4294967295)
            by (nonlinear_arith)
            requires
                k < 4294967295,
        ;
    }
    let expanded: u64 = total + fp[k] + k as u64;
    assert forall|c2: int, b: int| 0 <= b <= c2 < k implies shifted[c2] >= fp[b] by {
        lemma_prefix_mono(fp@, b, c2 + 1);
        lemma_prefix_bound(fp@, b);
    }
    assert(expanded >= fp[k as int]) by {
        lemma_prefix_mono(fp@, k as int, k + 1);
    }
    assert forall|a: int, b: int| 0 <= a < b < k implies shifted[a] < shifted[b] by {
        lemma_prefix_mono(fp@, a + 1, b + 1);
    }
    assert forall|c: int| 0 <= c < k implies #[trigger] shifted[c] < expanded by {
        lemma_prefix_mono(fp@, c + 1, k + 1);
    }
    (shifted, expanded)
}

/// Each matched letter of `r` has a column in `sh` that leaves room for the
/// run of unmatched letters before it.
pub open spec fn room_before_hits(r: Seq<i32>, sh: Seq<u64>) -> bool {
    forall|q: int|
        0 <= q < r.len() && r[q] >= 0 ==> r[q] < sh.len() && sh[r[q] as int] >= #[trigger] run(r, q)
}

/// Printed columns of the letters of one row.
fn place_row(hits: &Vec<i32>, sh: &Vec<u64>, expanded: u64) -> (local: Vec<u64>)
    requires
        room_before_hits(hits@, sh@),
        expanded >= run(hits@, hits.len() as int),
        forall|c: int| 0 <= c < sh.len() ==> #[trigger] sh[c] < expanded,
    ensures
        local@ == Seq::new(hits.len() as nat, |j: int| position(hits@, sh@, expanded as int, j) as u64),
        forall|j: int| 0 <= j < local.len() ==> #[trigger] local[j] < expanded,
{
    let ghost r = hits@;
    let len = hits.len();
    let mut local: Vec<u64> = vec![0u64; len];
    let mut has_next = false;
    let mut next_pos: u64 = 0;
    let mut cursor: usize = len;
    while cursor > 0
        invariant
            cursor <= len,
            len == r.len(),
            r == hits@,
            local.len() == len,
            len == hits.len(),
            room_before_hits(r, sh@),
            expanded >= run(r, len as int),
            forall|c: int| 0 <= c < sh.len() ==> #[trigger] sh[c] < expanded,
            has_next ==> next_pos < expanded,
            forall|j: int| cursor <= j < len ==> #[trigger] local[j] < expanded,
            has_next == (next_hit(r, cursor as int) < len),
            has_next ==> next_pos == sh[r[next_hit(r, cursor as int)] as int] - (next_hit(
                r,
                cursor as int,
            ) - cursor),
            forall|j: int|
                cursor <= j < len ==> local[j] == if next_hit(r, j) < len {
                    sh[r[next_hit(r, j)] as int] - (next_hit(r, j) - j)
                } else {
                    expanded - (len - j)
                },
        decreases cursor,
    {
        cursor -= 1;
        let h = hits[cursor];
        proof {
            lemma_next_hit(r, cursor as int);
            lemma_next_hit(r, cursor + 1);
        }
        if h >= 0 {
            assert(sh[r[cursor as int] as int] >= run(r, cursor as int));
            assert(sh[h as int] < expanded);
            next_pos = sh[h as usize];
            has_next = true;
            local.set(cursor, next_pos);
        } else if has_next {
            let ghost q = next_hit(r, cursor as int);
            proof {
                lemma_run_ge(r, cursor as int, q);
            }
            next_pos = next_pos - 1;
            local.set(cursor, next_pos);
        } else {
            proof {
                lemma_run_ge(r, cursor as int, len as int);
            }
            local.set(cursor, expanded - (len - cursor) as u64);
        }
    }
    // unmatched letters before the first match go to the very front
    let mut j: usize = 0;
    while j < len && hits[j] < 0
        invariant
            j <= len,
            len == r.len(),
            r == hits@,
            local.len() == len,
            room_before_hits(r, sh@),
            expanded >= run(r, len as int),
            forall|c: int| 0 <= c < sh.len() ==> #[trigger] sh[c] < expanded,
            forall|j2: int| 0 <= j2 < len ==> #[trigger] local[j2] < expanded,
            no_hit_before(r, j as int),
            forall|j2: int| 0 <= j2 < j ==> local[j2] == j2,
            forall|j2: int|
                j <= j2 < len ==> local[j2] == if next_hit(r, j2) < len {
                    sh[r[next_hit(r, j2)] as int] - (next_hit(r, j2) - j2)
                } else {
                    expanded - (len - j2)
                },
        decreases len - j,
    {
        proof {
            lemma_next_hit(r, j as int);
            let q = next_hit(r, j as int);
            if q < len {
                lemma_run_ge(r, 0, q);
                assert(sh[r[q] as int] >= run(r, q));
                assert(sh[r[q] as int] < expanded);
            } else {
                lemma_run_ge(r, 0, len as int);
            }
        }
        local.set(j, j as u64);
        j += 1;
    }
    assert forall|j2: int| 0 <= j2 < len implies local[j2] == position(
        r,
        sh@,
        expanded as int,
        j2,
    ) as u64 by {
        if j2 >= j {
            if j2 > j {
                assert(r[j as int] >= 0);
                assert(!no_hit_before(r, j2));
            }
            if r[j2] >= 0 {
                assert(next_hit(r, j2) == j2);
            }
        }
    }
    assert(local@ =~= Seq::new(len as nat, |j2: int| position(r, sh@, expanded as int, j2) as u64));
    local
}


/// The gap byte of the printed alignment.
pub const GAP: u8 = 45;

/// A letter as printed: lower case if unmatched, upper case otherwise.
pub open spec fn cased(c: u8, single: bool) -> u8 {
    if single {
        if 65 <= c <= 90 {
            (c + 32) as u8
        } else {
            c
        }
    } else {
        if 97 <= c <= 122 {
            (c - 32) as u8
        } else {
            c
        }
    }
}

/// A row of `width` gaps with the first `j` letters of `seq` written at
/// their positions, in order.
pub open spec fn painted(seq: Seq<u8>, pos: Seq<u64>, singles: Seq<bool>, width: nat, j: int) -> Seq<
    u8,
>
    decreases j,
{
    if j <= 0 {
        Seq::new(width, |_x: int| GAP)
    } else {
        painted(seq, pos, singles, width, j - 1).update(
            pos[j - 1] as int,
            cased(seq[j - 1], singles[j - 1]),
        )
    }
}

fn cased_letter(c: u8, single: bool) -> (r: u8)
    ensures
        r == cased(c, single),
{
    if single {
        if 65 <= c && c <= 90 {
            c + 32
        } else {
            c
        }
    } else {
        if 97 <= c && c <= 122 {
            c - 32
        } else {
            c
        }
    }
}

/// The printed row of a query: each letter at its position, unmatched ones
/// in lower case and matched ones in upper case, gaps elsewhere.
pub fn render_query_row(seq: &Vec<u8>, positions: &Vec<u64>, singles: &FixedBitSet, width: u64) -> (out:
    Vec<u8>)
    requires
        positions.len() == seq.len(),
        bits_of(*singles).len() == seq.len(),
        width <= usize::MAX,
        forall|j: int| 0 <= j < positions.len() ==> #[trigger] positions[j] < width,
    ensures
        out@ == painted(seq@, positions@, bits_of(*singles), width as nat, seq.len() as int),
{
    let mut out: Vec<u8> = vec![GAP; width as usize];
    assert(out@ =~= painted(seq@, positions@, bits_of(*singles), width as nat, 0));
    let mut j: usize = 0;
    while j < seq.len()
        invariant
            j <= seq.len(),
            positions.len() == seq.len(),
            bits_of(*singles).len() == seq.len(),
            forall|j2: int| 0 <= j2 < positions.len() ==> #[trigger] positions[j2] < width,
            out@ == painted(seq@, positions@, bits_of(*singles), width as nat, j as int),
            out.len() == width,
        decreases seq.len() - j,
    {
        let c = cased_letter(seq[j], singles.contains(j));
        assert(positions[j as int] < width);
        out.set(positions[j] as usize, c);
        j += 1;
    }
    out
}

/// The printed row of a backbone sequence: its byte of column `c` at the
/// printed column `shifted[c]`, gaps elsewhere.
pub fn render_backbone_row(seq: &Vec<u8>, shifted: &Vec<u64>, width: u64) -> (out: Vec<u8>)
    requires
        seq.len() <= shifted.len(),
        width <= usize::MAX,
        forall|c: int| 0 <= c < shifted.len() ==> #[trigger] shifted[c] < width,
        forall|a: int, b: int| 0 <= a < b < shifted.len() ==> shifted[a] < shifted[b],
    ensures
        out.len() == width,
        forall|c: int| 0 <= c < seq.len() ==> out[#[trigger] shifted[c] as int] == seq[c],
        forall|x: int|
            0 <= x < width && (forall|c: int| 0 <= c < seq.len() ==> #[trigger] shifted[c] != x)
                ==> out[x] == GAP,
{
    let mut out: Vec<u8> = vec![GAP; width as usize];
    let mut c: usize = 0;
    while c < seq.len()
        invariant
            c <= seq.len() <= shifted.len(),
            out.len() == width,
            forall|c2: int| 0 <= c2 < shifted.len() ==> #[trigger] shifted[c2] < width,
            forall|a: int, b: int| 0 <= a < b < shifted.len() ==> shifted[a] < shifted[b],
            forall|c2: int| 0 <= c2 < c ==> out[#[trigger] shifted[c2] as int] == seq[c2],
            forall|x: int|
                0 <= x < width && (forall|c2: int| 0 <= c2 < c ==> #[trigger] shifted[c2] != x)
                    ==> out[x] == GAP,
        decreases seq.len() - c,
    {
        assert(shifted[c as int] < width);
        out.set(shifted[c] as usize, seq[c]);
        c += 1;
    }
    out
}


/// The matched letters of `r` go to increasing columns.
pub open spec fn hits_increase(r: Seq<i32>) -> bool {
    forall|a: int, b: int| 0 <= a < b < r.len() && r[a] >= 0 && r[b] >= 0 ==> r[a] < r[b]
}

/// An ASCII letter.
pub open spec fn is_letter(c: u8) -> bool {
    (65 <= c <= 90) || (97 <= c <= 122)
}

/// An ASCII upper-case letter.
pub open spec fn is_upper_case(c: u8) -> bool {
    65 <= c <= 90
}

/// The printed row of a query with trace `r` and residues `seq`, under the
/// front padding `fp` of `k` columns.
pub open spec fn printed_query_row(r: Seq<i32>, seq: Seq<u8>, fp: Seq<u64>, k: int) -> Seq<u8> {
    painted(
        seq,
        Seq::new(r.len(), |j: int| position(r, shifted_of(fp, k), width_of(fp, k), j) as u64),
        Seq::new(r.len(), |j: int| r[j] < 0),
        width_of(fp, k) as nat,
        r.len() as int,
    )
}

proof fn lemma_painted(seq: Seq<u8>, pos: Seq<u64>, singles: Seq<bool>, w: nat, jj: int)
    requires
        0 <= jj <= seq.len(),
        jj <= pos.len(),
        jj <= singles.len(),
        forall|j: int| 0 <= j < jj ==> pos[j] < w,
    ensures
        painted(seq, pos, singles, w, jj).len() == w,
        forall|j: int|
            0 <= j < jj && (forall|j2: int| j < j2 < jj ==> pos[j2] != pos[j]) ==> painted(
                seq,
                pos,
                singles,
                w,
                jj,
            )[pos[j] as int] == cased(seq[j], singles[j]),
        forall|x: int|
            0 <= x < w ==> #[trigger] painted(seq, pos, singles, w, jj)[x] == GAP || exists|j: int|
                0 <= j < jj && pos[j] == x && painted(seq, pos, singles, w, jj)[x] == cased(
                    seq[j],
                    singles[j],
                ),
    decreases jj,
{
    if jj > 0 {
        lemma_painted(seq, pos, singles, w, jj - 1);
        let prev = painted(seq, pos, singles, w, jj - 1);
        let cur = painted(seq, pos, singles, w, jj);
        assert(cur == prev.update(pos[jj - 1] as int, cased(seq[jj - 1], singles[jj - 1])));
        assert forall|x: int| 0 <= x < w implies #[trigger] cur[x] == GAP || exists|j: int|
            0 <= j < jj && pos[j] == x && cur[x] == cased(seq[j], singles[j]) by {
            if x == pos[jj - 1] {
                assert(pos[jj - 1] == x && cur[x] == cased(seq[jj - 1], singles[jj - 1]));
            } else {
                assert(cur[x] == prev[x]);
                if prev[x] != GAP {
                    let j = choose|j: int|
                        0 <= j < jj - 1 && pos[j] == x && prev[x] == cased(seq[j], singles[j]);
                    assert(0 <= j < jj && pos[j] == x && cur[x] == cased(seq[j], singles[j]));
                }
            }
        }
    } else {
        assert forall|x: int| 0 <= x < w implies #[trigger] painted(seq, pos, singles, w, jj)[x]
            == GAP by {}
    }
}

proof fn lemma_shifted_facts(fp: Seq<u64>, k: int)
    requires
        0 <= k,
        fp.len() == k + 1,
        width_of(fp, k) <= 18446744073709551615,
    ensures
        forall|c: int| 0 <= c < k ==> #[trigger] shifted_of(fp, k)[c] == prefix(fp, c + 1) + c,
        forall|c1: int, c2: int|
            0 <= c1 < c2 < k ==> shifted_of(fp, k)[c1] < shifted_of(fp, k)[c2],
        forall|c: int| 0 <= c < k ==> shifted_of(fp, k)[c] < width_of(fp, k),
        forall|c: int, b: int| 0 <= b <= c < k ==> shifted_of(fp, k)[c] >= fp[b],
        forall|c: int| 1 <= c < k ==> shifted_of(fp, k)[c] - fp[c] == shifted_of(fp, k)[c - 1] + 1,
        k >= 1 ==> width_of(fp, k) - fp[k] == shifted_of(fp, k)[k - 1] + 1,
        width_of(fp, k) >= fp[k],
{
    assert forall|c: int| 0 <= c < k implies #[trigger] shifted_of(fp, k)[c] == prefix(fp, c + 1)
        + c by {
        lemma_prefix_mono(fp, c + 1, k + 1);
        lemma_prefix_mono(fp, 0, c + 1);
    }
    assert forall|c1: int, c2: int| 0 <= c1 < c2 < k implies shifted_of(fp, k)[c1] < shifted_of(
        fp,
        k,
    )[c2] by {
        lemma_prefix_mono(fp, c1 + 1, c2 + 1);
    }
    assert forall|c: int| 0 <= c < k implies shifted_of(fp, k)[c] < width_of(fp, k) by {
        lemma_prefix_mono(fp, c + 1, k + 1);
    }
    assert forall|c: int, b: int| 0 <= b <= c < k implies shifted_of(fp, k)[c] >= fp[b] by {
        lemma_prefix_mono(fp, b, c + 1);
        lemma_prefix_mono(fp, 0, b);
    }
    lemma_prefix_mono(fp, 0, k);
    lemma_prefix_mono(fp, k, k + 1);
}

proof fn lemma_singleton_position(rows: Seq<Seq<i32>>, k: int, fp: Seq<u64>, ri: int, j: int)
    requires
        0 <= k,
        is_front_padding(rows, k, fp),
        rows_in_range(rows, k),
        0 <= ri < rows.len(),
        hits_increase(rows[ri]),
        0 <= j < rows[ri].len(),
        rows[ri][j] < 0,
        width_of(fp, k) <= 18446744073709551615,
    ensures
        ({
            let r = rows[ri];
            let p = position(r, shifted_of(fp, k), width_of(fp, k), j);
            &&& 0 <= p < width_of(fp, k)
            &&& forall|m: int|
                0 <= m < r.len() && r[m] >= 0 ==> p != #[trigger] shifted_of(fp, k)[r[m] as int]
        }),
{
    let r = rows[ri];
    let len = r.len() as int;
    let sh = shifted_of(fp, k);
    let e = width_of(fp, k);
    lemma_shifted_facts(fp, k);
    lemma_next_hit(r, j);
    let q = next_hit(r, j);
    assert(fp[k] >= run(rows[ri], len));
    if no_hit_before(r, j) {
        if q >= len {
            lemma_run_ge(r, 0, len);
        } else {
            lemma_run_ge(r, 0, q);
            assert(no_hit_before(r, q));
            assert(bucket(r, q) == 0);
            assert(fp[bucket(rows[ri], q)] >= run(rows[ri], q));
            assert(rows[ri][q] < k);
            assert forall|m: int| 0 <= m < len && r[m] >= 0 implies j != #[trigger] sh[r[m] as int] by {
                assert(m >= q);
                assert(rows[ri][m] < k);
                assert(sh[r[m] as int] >= fp[0]);
            }
        }
    } else {
        let pb = choose|pb: int| 0 <= pb < j && r[pb] >= 0;
        if q >= len {
            lemma_run_ge(r, j, len);
            if k == 0 {
                assert(rows[ri][pb] < k);
            }
            assert forall|m: int| 0 <= m < len && r[m] >= 0 implies e - (len - j) != #[trigger] sh[r[m]
                as int] by {
                assert(rows[ri][m] < k);
                if r[m] < k - 1 {
                    assert(sh[r[m] as int] < sh[k - 1]);
                }
            }
        } else {
            lemma_run_ge(r, j, q);
            assert(!no_hit_before(r, q));
            assert(bucket(r, q) == r[q]);
            assert(fp[bucket(rows[ri], q)] >= run(rows[ri], q));
            assert(r[pb] < r[q]);
            assert(rows[ri][q] < k);
            assert(sh[r[q] as int] - fp[r[q] as int] == sh[r[q] - 1] + 1);
            assert forall|m: int| 0 <= m < len && r[m] >= 0 implies sh[r[q] as int] - (q - j)
                != #[trigger] sh[r[m] as int] by {
                assert(rows[ri][m] < k);
                if m < j {
                    assert(r[m] < r[q]);
                    if r[m] < r[q] - 1 {
                        assert(sh[r[m] as int] < sh[r[q] - 1]);
                    }
                } else {
                    assert(m >= q);
                    if m > q {
                        assert(r[m] > r[q]);
                        assert(sh[r[m] as int] > sh[r[q] as int]);
                    }
                }
            }
        }
    }
}

/// In the printed row of a query, the upper-case letters, read from left to
/// right, are its matched residues in order: each matched residue stands in
/// upper case at its column, those columns increase along the query, and no
/// other column holds an upper-case letter.
pub proof fn lemma_query_row_upper_case(
    rows: Seq<Seq<i32>>,
    k: int,
    fp: Seq<u64>,
    ri: int,
    seq: Seq<u8>,
)
    requires
        0 <= k,
        is_front_padding(rows, k, fp),
        rows_in_range(rows, k),
        0 <= ri < rows.len(),
        hits_increase(rows[ri]),
        seq.len() == rows[ri].len(),
        forall|j: int| 0 <= j < seq.len() ==> is_letter(#[trigger] seq[j]),
        width_of(fp, k) <= 18446744073709551615,
    ensures
        ({
            let r = rows[ri];
            let pos = |j: int| position(r, shifted_of(fp, k), width_of(fp, k), j);
            let out = printed_query_row(r, seq, fp, k);
            &&& out.len() == width_of(fp, k)
            &&& forall|j: int|
                0 <= j < r.len() && r[j] >= 0 ==> out[pos(j)] == cased(seq[j], false)
            &&& forall|a: int, b: int|
                0 <= a < b < r.len() && r[a] >= 0 && r[b] >= 0 ==> pos(a) < pos(b)
            &&& forall|x: int|
                0 <= x < out.len() && is_upper_case(#[trigger] out[x]) ==> exists|j: int|
                    0 <= j < r.len() && r[j] >= 0 && pos(j) == x
        }),
{
    let r = rows[ri];
    let len = r.len() as int;
    let sh = shifted_of(fp, k);
    let e = width_of(fp, k);
    let posf = |j: int| position(r, sh, e, j);
    let pos = Seq::new(r.len(), |j: int| position(r, sh, e, j) as u64);
    let singles = Seq::new(r.len(), |j: int| r[j] < 0);
    lemma_shifted_facts(fp, k);
    assert forall|j: int| 0 <= j < len implies 0 <= posf(j) < e && pos[j] == posf(j) by {
        if r[j] >= 0 {
            assert(rows[ri][j] < k);
        } else {
            lemma_singleton_position(rows, k, fp, ri, j);
        }
    }
    lemma_painted(seq, pos, singles, e as nat, len);
    let out = printed_query_row(r, seq, fp, k);
    assert forall|a: int, b: int| 0 <= a < b < len && r[a] >= 0 && r[b] >= 0 implies posf(a) < posf(
        b,
    ) by {
        assert(rows[ri][b] < k);
    }
    assert forall|j: int| 0 <= j < len && r[j] >= 0 implies out[posf(j)] == cased(seq[j], false) by {
        assert forall|j2: int| j < j2 < len implies pos[j2] != pos[j] by {
            if r[j2] >= 0 {
                assert(posf(j) < posf(j2));
            } else {
                lemma_singleton_position(rows, k, fp, ri, j2);
            }
        }
        assert(singles[j] == false);
    }
    assert forall|x: int| 0 <= x < out.len() && is_upper_case(#[trigger] out[x]) implies exists|j: int|
        0 <= j < len && r[j] >= 0 && posf(j) == x by {
        assert(out[x] != GAP);
        let j = choose|j: int| 0 <= j < len && pos[j] == x && out[x] == cased(seq[j], singles[j]);
        if r[j] < 0 {
            assert(is_letter(seq[j]));
            assert(!is_upper_case(cased(seq[j], true)));
        }
        assert(posf(j) == x);
    }
}

} // verus!

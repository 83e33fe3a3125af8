//! The data that the stages hand to each other.
use vstd::prelude::*;

verus! {

/// Fixed-point scale of an adjusted score: a score of one is this value.
pub const SCORE_ONE: u64 = 4294967296;

/// Keeps track of singleton columns; it carries no data.
pub struct CompactHomologies {}

/// What one HMM of the ensemble covers.
pub struct HmmMeta {
    /// the half-open range of the reordered taxa that built it
    pub sequence_range: (usize, usize),
    /// per consensus column, the number of letters of the subset in it
    pub chars_cnt: Vec<u32>,
    /// per consensus column, the backbone column it stands for
    pub column_poitions: Vec<usize>,
}

impl HmmMeta {
    pub fn new(sequence_range: (usize, usize), chars_cnt: Vec<u32>, column_poitions: Vec<usize>) -> (r:
        Self)
        ensures
            r.sequence_range == sequence_range,
            r.chars_cnt@ == chars_cnt@,
            r.column_poitions@ == column_poitions@,
    {
        HmmMeta { sequence_range, chars_cnt, column_poitions }
    }

    /// One count per consensus column; the backbone columns increase and
    /// each fits a signed 32-bit column index.
    pub open spec fn wf(&self) -> bool {
        &&& self.sequence_range.0 <= self.sequence_range.1
        &&& self.chars_cnt.len() == self.column_poitions.len()
        &&& forall|a: int, b: int|
            0 <= a < b < self.column_poitions.len() ==> self.column_poitions[a]
                < self.column_poitions[b]
        &&& forall|a: int|
            0 <= a < self.column_poitions.len() ==> self.column_poitions[a] < 2147483647
    }

    /// Number of sequences in the subset.
    pub fn num_seqs(&self) -> (r: usize)
        requires
            self.sequence_range.0 <= self.sequence_range.1,
        ensures
            r == self.sequence_range.1 - self.sequence_range.0,
    {
        self.sequence_range.1 - self.sequence_range.0
    }
}

/// The decomposition of the taxa.
pub struct TaxaHierarchy {
    /// a permutation of the taxa in which each subset is contiguous
    pub reordered_taxa: Vec<usize>,
    /// the inverse permutation: the place of each taxon
    pub taxa_positions: Vec<usize>,
    /// the subsets, as half-open ranges of `reordered_taxa`
    pub decomposition_ranges: Vec<(usize, usize)>,
}

/// The ensemble of HMMs; HMM 0 is built on the whole backbone.
pub struct CrucibleCtxt {
    pub version: u32,
    pub metadata: Vec<HmmMeta>,
}

impl CrucibleCtxt {
    pub fn new(metadata: Vec<HmmMeta>) -> (r: Self)
        ensures
            r.version == 0,
            r.metadata@ == metadata@,
    {
        CrucibleCtxt { version: 0, metadata }
    }

    pub fn num_hmms(&self) -> (r: usize)
        ensures
            r == self.metadata.len(),
    {
        self.metadata.len()
    }

    /// Number of backbone columns: the consensus columns of the root HMM.
    pub fn num_consensus_columns(&self) -> (r: usize)
        requires
            self.metadata.len() > 0,
        ensures
            r == self.metadata[0].column_poitions.len(),
    {
        self.metadata[0].column_poitions.len()
    }
}

/// Per query, its best HMMs with their adjusted scores, in fixed point
/// (`SCORE_ONE` stands for one).
pub struct AdderPayload {
    pub sequence_tophits: Vec<Vec<(u32, u64)>>,
}

/// The lists of pairs, as sequences.
pub open spec fn lists_of(v: Vec<Vec<(u32, u64)>>) -> Seq<Seq<(u32, u64)>> {
    v@.map_values(|l: Vec<(u32, u64)>| l@)
}

/// Entries of `rows[0..i]` whose id is `h`, each as `(row, score)`, in row
/// order and, within a row, in list order.
pub open spec fn column_upto(rows: Seq<Seq<(u32, u64)>>, h: int, i: int) -> Seq<(u32, u64)>
    decreases i,
{
    if i <= 0 {
        seq![]
    } else {
        column_upto(rows, h, i - 1) + row_part(rows[i - 1], h, i - 1, rows[i - 1].len() as int)
    }
}

/// Entries of `row[0..j]` whose id is `h`, each as `(i, score)`.
pub open spec fn row_part(row: Seq<(u32, u64)>, h: int, i: int, j: int) -> Seq<(u32, u64)>
    decreases j,
{
    if j <= 0 {
        seq![]
    } else if row[j - 1].0 == h {
        row_part(row, h, i, j - 1).push((i as u32, row[j - 1].1))
    } else {
        row_part(row, h, i, j - 1)
    }
}

/// The transposition of `rows` onto `n` ids: list `h` holds, for each row
/// `i` in order, the pairs `(i, s)` for the entries `(h, s)` of row `i`.
pub open spec fn transposed(rows: Seq<Seq<(u32, u64)>>, n: int) -> Seq<Seq<(u32, u64)>> {
    Seq::new(n as nat, |h: int| column_upto(rows, h, rows.len() as int))
}

/// Every id in `rows` is below `n`.
pub open spec fn ids_below(rows: Seq<Seq<(u32, u64)>>, n: int) -> bool {
    forall|i: int, j: int| 0 <= i < rows.len() && 0 <= j < rows[i].len() ==> (#[trigger] rows[i][j]).0 < n
}

/// How often `p` occurs in `s`.
pub open spec fn occurrences(s: Seq<(u32, u64)>, p: (u32, u64)) -> nat
    decreases s.len(),
{
    if s.len() == 0 {
        0
    } else {
        occurrences(s.drop_last(), p) + if s.last() == p {
            1nat
        } else {
            0
        }
    }
}

proof fn lemma_occurrences_concat(a: Seq<(u32, u64)>, b: Seq<(u32, u64)>, p: (u32, u64))
    ensures
        occurrences(a + b, p) == occurrences(a, p) + occurrences(b, p),
    decreases b.len(),
{
    if b.len() > 0 {
        assert((a + b).drop_last() =~= a + b.drop_last());
        lemma_occurrences_concat(a, b.drop_last(), p);
    } else {
        assert(a + b =~= a);
    }
}

proof fn lemma_row_part(row: Seq<(u32, u64)>, h: int, i: int, j: int, p: (u32, u64))
    requires
        0 <= h < 4294967296,
        0 <= i < 4294967296,
        0 <= j <= row.len(),
    ensures
        occurrences(row_part(row, h, i, j), p) == if p.0 == i {
            occurrences(row.take(j), (h as u32, p.1))
        } else {
            0
        },
    decreases j,
{
    if j > 0 {
        lemma_row_part(row, h, i, j - 1, p);
        assert(row.take(j).drop_last() =~= row.take(j - 1));
        assert(row.take(j).last() == row[j - 1]);
        assert((i as u32) as int == i);
        assert((h as u32) as int == h);
        let x = row[j - 1];
        let prev = row_part(row, h, i, j - 1);
        if x.0 == h {
            assert(prev.push((i as u32, x.1)).drop_last() =~= prev);
        }
    }
}

proof fn lemma_column_upto(rows: Seq<Seq<(u32, u64)>>, h: int, i: int, p: (u32, u64))
    requires
        0 <= h < 4294967296,
        0 <= i <= rows.len() <= 4294967296,
    ensures
        occurrences(column_upto(rows, h, i), p) == if (p.0 as int) < i {
            occurrences(rows[p.0 as int], (h as u32, p.1))
        } else {
            0
        },
    decreases i,
{
    if i > 0 {
        lemma_column_upto(rows, h, i - 1, p);
        let last = rows[i - 1];
        lemma_occurrences_concat(column_upto(rows, h, i - 1), row_part(last, h, i - 1, last.len() as int), p);
        lemma_row_part(last, h, i - 1, last.len() as int, p);
        assert(last.take(last.len() as int) =~= last);
    }
}

proof fn lemma_absent_id(row: Seq<(u32, u64)>, n: int, p: (u32, u64))
    requires
        forall|j: int| 0 <= j < row.len() ==> (#[trigger] row[j]).0 < n,
        p.0 >= n,
    ensures
        occurrences(row, p) == 0,
    decreases row.len(),
{
    if row.len() > 0 {
        assert(row.last() == row[row.len() - 1]);
        lemma_absent_id(row.drop_last(), n, p);
    }
}

/// Transposing twice gives back every list with the same pairs, each as
/// often as before; only their order may change (to increasing id).
pub proof fn lemma_transpose_twice(rows: Seq<Seq<(u32, u64)>>, n: int)
    requires
        ids_below(rows, n),
        rows.len() <= 4294967296,
        0 <= n <= 4294967296,
    ensures
        transposed(transposed(rows, n), rows.len() as int).len() == rows.len(),
        forall|i: int, p: (u32, u64)|
            0 <= i < rows.len() ==> #[trigger] occurrences(
                transposed(transposed(rows, n), rows.len() as int)[i],
                p,
            ) == occurrences(rows[i], p),
{
    let t = transposed(rows, n);
    let m = rows.len() as int;
    assert forall|i: int, p: (u32, u64)| 0 <= i < m implies #[trigger] occurrences(
        transposed(t, m)[i],
        p,
    ) == occurrences(rows[i], p) by {
        assert(transposed(t, m)[i] == column_upto(t, i, n));
        lemma_column_upto(t, i, n, p);
        if (p.0 as int) < n {
            assert(t[p.0 as int] == column_upto(rows, p.0 as int, m));
            lemma_column_upto(rows, p.0 as int, m, (i as u32, p.1));
            assert((p.0 as int) as u32 == p.0);
        } else {
            assert forall|j: int| 0 <= j < rows[i].len() implies (#[trigger] rows[i][j]).0 < n by {}
            lemma_absent_id(rows[i], n, p);
        }
    }
}

/// Total length of the first `upto` lists.
pub open spec fn total_len(rows: Seq<Seq<(u32, u64)>>, upto: int) -> int
    decreases upto,
{
    if upto <= 0 {
        0
    } else {
        total_len(rows, upto - 1) + rows[upto - 1].len()
    }
}

/// Total length over the ids `h < n` of the entries of `row[0..j]` with id `h`.
spec fn parts_len(row: Seq<(u32, u64)>, i: int, n: int, j: int) -> int
    decreases n,
{
    if n <= 0 {
        0
    } else {
        parts_len(row, i, n - 1, j) + row_part(row, n - 1, i, j).len()
    }
}

/// Total length over the ids `h < n` of `column_upto(rows, h, i)`.
spec fn columns_len(rows: Seq<Seq<(u32, u64)>>, n: int, i: int) -> int
    decreases n,
{
    if n <= 0 {
        0
    } else {
        columns_len(rows, n - 1, i) + column_upto(rows, n - 1, i).len()
    }
}

proof fn lemma_parts_step(row: Seq<(u32, u64)>, i: int, n: int, j: int)
    requires
        0 < j <= row.len(),
        0 <= n,
    ensures
        parts_len(row, i, n, j) == parts_len(row, i, n, j - 1) + if 0 <= row[j - 1].0 < n {
            1int
        } else {
            0
        },
    decreases n,
{
    if n > 0 {
        lemma_parts_step(row, i, n - 1, j);
    }
}

proof fn lemma_parts_len(row: Seq<(u32, u64)>, i: int, n: int, j: int)
    requires
        0 <= j <= row.len(),
        0 <= n,
        forall|t: int| 0 <= t < row.len() ==> (#[trigger] row[t]).0 < n,
    ensures
        parts_len(row, i, n, j) == j,
    decreases j,
{
    if j > 0 {
        lemma_parts_len(row, i, n, j - 1);
        lemma_parts_step(row, i, n, j);
    } else {
        lemma_parts_zero(row, i, n);
    }
}

proof fn lemma_parts_zero(row: Seq<(u32, u64)>, i: int, n: int)
    requires
        0 <= n,
    ensures
        parts_len(row, i, n, 0) == 0,
    decreases n,
{
    if n > 0 {
        lemma_parts_zero(row, i, n - 1);
    }
}

proof fn lemma_columns_step(rows: Seq<Seq<(u32, u64)>>, n: int, i: int)
    requires
        0 < i <= rows.len(),
        0 <= n,
    ensures
        columns_len(rows, n, i) == columns_len(rows, n, i - 1) + parts_len(
            rows[i - 1],
            i - 1,
            n,
            rows[i - 1].len() as int,
        ),
    decreases n,
{
    if n > 0 {
        lemma_columns_step(rows, n - 1, i);
    }
}

proof fn lemma_columns_zero(rows: Seq<Seq<(u32, u64)>>, n: int)
    requires
        0 <= n,
    ensures
        columns_len(rows, n, 0) == 0,
    decreases n,
{
    if n > 0 {
        lemma_columns_zero(rows, n - 1);
    }
}

proof fn lemma_columns_len(rows: Seq<Seq<(u32, u64)>>, n: int, i: int)
    requires
        0 <= i <= rows.len(),
        0 <= n,
        ids_below(rows, n),
    ensures
        columns_len(rows, n, i) == total_len(rows, i),
    decreases i,
{
    if i > 0 {
        lemma_columns_len(rows, n, i - 1);
        lemma_columns_step(rows, n, i);
        let row = rows[i - 1];
        assert forall|t: int| 0 <= t < row.len() implies (#[trigger] row[t]).0 < n by {
            assert(rows[i - 1][t] == row[t]);
        }
        lemma_parts_len(row, i - 1, n, row.len() as int);
    } else {
        lemma_columns_zero(rows, n);
    }
}

proof fn lemma_transposed_total(rows: Seq<Seq<(u32, u64)>>, n: int, h: int)
    requires
        0 <= h <= n,
    ensures
        total_len(transposed(rows, n), h) == columns_len(rows, h, rows.len() as int),
    decreases h,
{
    if h > 0 {
        lemma_transposed_total(rows, n, h - 1);
    }
}

/// Transposing keeps the number of pairs: the per-id lists hold as many as
/// the per-row lists.
pub proof fn lemma_transpose_keeps_count(rows: Seq<Seq<(u32, u64)>>, n: int)
    requires
        ids_below(rows, n),
        0 <= n,
    ensures
        total_len(transposed(rows, n), n) == total_len(rows, rows.len() as int),
{
    lemma_transposed_total(rows, n, n);
    lemma_columns_len(rows, n, rows.len() as int);
}

/// Transposes lists of `(id, score)` pairs: from per-row lists to per-id
/// lists of `(row, score)`.
pub fn transpose_lists(rows: &Vec<Vec<(u32, u64)>>, n: usize) -> (res: Vec<Vec<(u32, u64)>>)
    requires
        ids_below(lists_of(*rows), n as int),
        rows.len() <= 4294967296,
    ensures
        lists_of(res) == transposed(lists_of(*rows), n as int),
{
    let ghost rs = lists_of(*rows);
    let mut res: Vec<Vec<(u32, u64)>> = Vec::new();
    let mut h: usize = 0;
    while h < n
        invariant
            h <= n,
            res.len() == h,
            forall|h2: int| 0 <= h2 < h ==> (#[trigger] res[h2])@ == Seq::<(u32, u64)>::empty(),
        decreases n - h,
    {
        res.push(Vec::new());
        h += 1;
    }
    let mut i: usize = 0;
    while i < rows.len()
        invariant
            i <= rows.len(),
            rows.len() <= 4294967296,
            rs == lists_of(*rows),
            ids_below(rs, n as int),
            res.len() == n,
            forall|h2: int| 0 <= h2 < n ==> (#[trigger] res[h2])@ == column_upto(rs, h2, i as int),
        decreases rows.len() - i,
    {
        let row = &rows[i];
        assert(row@ == rs[i as int]);
        let mut j: usize = 0;
        while j < row.len()
            invariant
                j <= row.len(),
                i < rows.len(),
                rows.len() <= 4294967296,
                row@ == rs[i as int],
                rs == lists_of(*rows),
                ids_below(rs, n as int),
                res.len() == n,
                forall|h2: int|
                    0 <= h2 < n ==> (#[trigger] res[h2])@ == column_upto(rs, h2, i as int) + row_part(
                        rs[i as int],
                        h2,
                        i as int,
                        j as int,
                    ),
            decreases row.len() - j,
        {
            let (hid, s) = row[j];
            assert(rs[i as int][j as int].0 < n);
            let ghost before = res@;
            let mut list = Vec::new();
            std::mem::swap(&mut list, &mut res[hid as usize]);
            list.push((i as u32, s));
            res.set(hid as usize, list);
            j += 1;
            assert forall|h2: int| 0 <= h2 < n implies (#[trigger] res[h2])@ == column_upto(
                rs,
                h2,
                i as int,
            ) + row_part(rs[i as int], h2, i as int, j as int) by {
                if h2 == hid {
                    assert((column_upto(rs, h2, i as int) + row_part(
                        rs[i as int],
                        h2,
                        i as int,
                        j - 1,
                    )).push((i as u32, s)) =~= column_upto(rs, h2, i as int) + row_part(
                        rs[i as int],
                        h2,
                        i as int,
                        j as int,
                    ));
                } else {
                    assert(res@[h2]@ == before[h2]@);
                }
            }
        }
        i += 1;
    }
    assert(lists_of(res) =~= transposed(rs, n as int));
    res
}

impl AdderPayload {
    /// Per HMM, the queries that chose it, with their scores.
    pub fn transpose(self, ctxt: &CrucibleCtxt) -> (res: Vec<Vec<(u32, u64)>>)
        requires
            ids_below(lists_of(self.sequence_tophits), ctxt.metadata.len() as int),
            self.sequence_tophits.len() <= 4294967296,
        ensures
            lists_of(res) == transposed(lists_of(self.sequence_tophits), ctxt.metadata.len() as int),
    {
        transpose_lists(&self.sequence_tophits, ctxt.num_hmms())
    }
}

} // verus!

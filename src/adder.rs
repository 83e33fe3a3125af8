//! Accumulating positional weights from profile alignments.
use crate::matching::{weight_at, WeightEntry};
use crate::structures::HmmMeta;
use crate::fast_map::{entries_of, map_get, map_insert, map_new, U64Map};
use vstd::prelude::*;

verus! {

/// Key of `(residue, column)` in the index of a weight table.
pub open spec fn pair_key(r: int, c: int) -> int {
    r * 4294967296 + c
}

/// No two entries share a `(residue, column)` pair.
pub open spec fn distinct_pairs(e: Seq<WeightEntry>) -> bool {
    forall|a: int, b: int|
        0 <= a < e.len() && 0 <= b < e.len() && a != b ==> (e[a].0 != e[b].0 || e[a].1 != e[b].1)
}

/// `x`, held at the largest `u64`.
pub open spec fn sat(x: int) -> u64 {
    if x > 18446744073709551615 {
        18446744073709551615
    } else {
        x as u64
    }
}

/// The sparse weights of one query, in order of first insertion.
pub struct QueryWeights {
    index: U64Map,
    entries: Vec<WeightEntry>,
}

impl QueryWeights {
    /// The entries, in order of first insertion.
    pub closed spec fn entries_view(&self) -> Seq<WeightEntry> {
        self.entries@
    }

    /// Weight of `(r, c)`.
    pub open spec fn weight(&self, r: int, c: int) -> u64 {
        weight_at(self.entries_view(), r, c)
    }

    /// Each pair has one entry, and the index finds each entry by its key.
    pub closed spec fn wf(&self) -> bool {
        &&& distinct_pairs(self.entries@)
        &&& forall|t: int|
            0 <= t < self.entries.len() ==> entries_of(self.index).contains_key(
                pair_key(#[trigger] self.entries[t].0 as int, self.entries[t].1 as int) as u64,
            ) && entries_of(self.index)[pair_key(self.entries[t].0 as int, self.entries[t].1 as int) as u64]
                == t
        &&& forall|k: u64|
            #[trigger] entries_of(self.index).contains_key(k) ==> entries_of(self.index)[k] < self.entries.len()
                && pair_key(
                self.entries[entries_of(self.index)[k] as int].0 as int,
                self.entries[entries_of(self.index)[k] as int].1 as int,
            ) == k
    }

    pub fn new() -> (r: Self)
        ensures
            r.wf(),
            r.entries_view().len() == 0,
            forall|a: int, b: int| r.weight(a, b) == 0,
    {
        QueryWeights { index: map_new(), entries: Vec::new() }
    }

    /// Adds `w` to the weight of `(r, c)`, saturating at the largest value.
    pub fn add(&mut self, r: u32, c: u32, w: u64)
        requires
            old(self).wf(),
        ensures
            final(self).wf(),
            forall|a: int, b: int|
                #[trigger] final(self).weight(a, b) == if a == r && b == c {
                    sat(old(self).weight(a, b) + w)
                } else {
                    old(self).weight(a, b)
                },
    {
        let key: u64 = (r as u64) * 4294967296 + (c as u64);
        assert(key == pair_key(r as int, c as int));
        let ghost e0 = self.entries@;
        proof {
            assert forall|t: int| 0 <= t < e0.len() && e0[t].0 == r && e0[t].1 == c implies entries_of(self.index).contains_key(key) by {
                assert(pair_key(self.entries[t].0 as int, self.entries[t].1 as int) as u64 == key);
            }
        }
        match map_get(&self.index, key) {
            Some(t) => {
                let t = t as usize;
                let old_entry = self.entries[t];
                proof {
                    lemma_key_injective(old_entry.0 as int, old_entry.1 as int, r as int, c as int);
                    lemma_weight_at_present(e0, t as int);
                }
                self.entries.set(t, (r, c, old_entry.2.saturating_add(w)));
                proof {
                    let e1 = self.entries@;
                    lemma_weight_at_present(e1, t as int);
                    assert forall|a: int, b: int|
                        !(a == r && b == c) implies weight_at(e1, a, b) == weight_at(e0, a, b) by {
                        if exists|t2: int| 0 <= t2 < e0.len() && e0[t2].0 == a && e0[t2].1 == b {
                            let t2 = choose|t2: int| 0 <= t2 < e0.len() && e0[t2].0 == a && e0[t2].1 == b;
                            lemma_weight_at_present(e0, t2);
                            lemma_weight_at_present(e1, t2);
                        } else {
                            lemma_weight_at_absent(e0, a, b);
                            lemma_weight_at_absent(e1, a, b);
                        }
                    }
                    assert forall|k: u64| #[trigger] entries_of(self.index).contains_key(k) implies entries_of(self.index)[k]
                        < self.entries.len() && pair_key(
                        self.entries[entries_of(self.index)[k] as int].0 as int,
                        self.entries[entries_of(self.index)[k] as int].1 as int,
                    ) == k by {
                        let t2 = entries_of(self.index)[k];
                        assert(pair_key(e0[t2 as int].0 as int, e0[t2 as int].1 as int) == k);
                    }
                }
            },
            None => {
                proof {
                    lemma_weight_at_absent(e0, r as int, c as int);
                }
                let len = self.entries.len();
                self.entries.push((r, c, w));
                map_insert(&mut self.index, key, len as u64);
                proof {
                    let e1 = self.entries@;
                    assert(e1.drop_last() =~= e0);
                    assert forall|a: int, b: int|
                        0 <= a < e1.len() && 0 <= b < e1.len() && a != b implies (e1[a].0 != e1[b].0
                            || e1[a].1 != e1[b].1) by {
                        if a == len || b == len {
                            let o = if a == len { b } else { a };
                            assert(pair_key(e0[o].0 as int, e0[o].1 as int) as u64 != key);
                        }
                    }
                    assert forall|t: int| 0 <= t < e1.len() implies entries_of(self.index).contains_key(
                        pair_key(#[trigger] self.entries[t].0 as int, self.entries[t].1 as int) as u64,
                    ) && entries_of(self.index)[pair_key(self.entries[t].0 as int, self.entries[t].1 as int) as u64]
                        == t by {
                        if t < len {
                            assert(pair_key(e0[t].0 as int, e0[t].1 as int) as u64 != key);
                        }
                    }
                }
            },
        }
    }

    /// The entries, each `(residue, column, weight)` once.
    pub fn to_entries(&self) -> (r: Vec<WeightEntry>)
        requires
            self.wf(),
        ensures
            r@ == self.entries_view(),
            distinct_pairs(r@),
    {
        let mut out: Vec<WeightEntry> = Vec::new();
        let mut t: usize = 0;
        while t < self.entries.len()
            invariant
                t <= self.entries.len(),
                out@ == self.entries@.take(t as int),
            decreases self.entries.len() - t,
        {
            out.push(self.entries[t]);
            t += 1;
            assert(out@ =~= self.entries@.take(t as int));
        }
        assert(self.entries@.take(t as int) =~= self.entries@);
        out
    }
}


/// Why an aligned record could not be read.
#[derive(Debug, Clone, Copy, PartialEq, Eq, Structural)]
pub enum AlignError {
    /// a byte that is neither a letter, `-` nor `.`
    UnexpectedCharacter(u8),
    /// the record does not span the consensus columns of the HMM
    ColumnCountMismatch,
    /// more aligned records than queries sent
    RecordCountMismatch,
}

/// An ASCII upper-case letter.
pub open spec fn is_upper(b: u8) -> bool {
    65 <= b <= 90
}

/// An ASCII lower-case letter.
pub open spec fn is_lower(b: u8) -> bool {
    97 <= b <= 122
}

/// Reading the first `i` bytes of an aligned record: the residues and the
/// consensus columns passed, and each residue matched to a column as
/// `(residue, column)`; or the first byte that is not allowed.
pub open spec fn scan_prefix(s: Seq<u8>, i: int) -> Result<(int, int, Seq<(u32, u32)>), u8>
    decreases i,
{
    if i <= 0 {
        Ok((0, 0, seq![]))
    } else {
        match scan_prefix(s, i - 1) {
            Err(b) => Err(b),
            Ok((r, c, h)) => {
                let b = s[i - 1];
                if b == 46 {
                    Ok((r, c, h))
                } else if b == 45 {
                    Ok((r, c + 1, h))
                } else if is_upper(b) {
                    Ok((r + 1, c + 1, h.push((r as u32, c as u32))))
                } else if is_lower(b) {
                    Ok((r + 1, c, h))
                } else {
                    Err(b)
                }
            },
        }
    }
}

proof fn lemma_scan_bounds(s: Seq<u8>, i: int)
    requires
        0 <= i <= s.len(),
    ensures
        scan_prefix(s, i) is Ok ==> ({
            let (r, c, h) = scan_prefix(s, i)->Ok_0;
            &&& 0 <= r <= i
            &&& 0 <= c <= i
            &&& forall|t: int| 0 <= t < h.len() ==> (#[trigger] h[t]).1 < c && h[t].0 < r
        }),
    decreases i,
{
    if i > 0 {
        lemma_scan_bounds(s, i - 1);
    }
}

/// Reads an aligned record: `.` is skipped, `-` passes a consensus column,
/// an upper-case letter is a residue matched to the current column, a
/// lower-case letter a residue in an insertion.
pub fn scan_aligned(s: &Vec<u8>) -> (r: Result<(Vec<(u32, u32)>, usize), u8>)
    requires
        s.len() <= 4294967295,
    ensures
        match scan_prefix(s@, s.len() as int) {
            Ok((_, c, h)) => r is Ok && r->Ok_0.0@ == h && r->Ok_0.1 == c,
            Err(b) => r == Err::<(Vec<(u32, u32)>, usize), u8>(b),
        },
{
    let mut hits: Vec<(u32, u32)> = Vec::new();
    let mut residue: u32 = 0;
    let mut column: u32 = 0;
    let mut i: usize = 0;
    while i < s.len()
        invariant
            i <= s.len() <= 4294967295,
            scan_prefix(s@, i as int) == Ok::<(int, int, Seq<(u32, u32)>), u8>(
                (residue as int, column as int, hits@),
            ),
            residue <= i,
            column <= i,
        decreases s.len() - i,
    {
        let b = s[i];
        if b == 46 {
        } else if b == 45 {
            column += 1;
        } else if 65 <= b && b <= 90 {
            hits.push((residue, column));
            residue += 1;
            column += 1;
        } else if 97 <= b && b <= 122 {
            residue += 1;
        } else {
            proof {
                lemma_scan_err_stays(s@, i + 1, s.len() as int);
            }
            return Err(b);
        }
        i += 1;
    }
    Ok((hits, column as usize))
}

proof fn lemma_scan_err_stays(s: Seq<u8>, i: int, j: int)
    requires
        0 <= i <= j,
        scan_prefix(s, i) is Err,
    ensures
        scan_prefix(s, j) == scan_prefix(s, i),
    decreases j - i,
{
    if j > i {
        lemma_scan_err_stays(s, i, j - 1);
    }
}

proof fn lemma_gain_nonneg(h: Seq<(u32, u32)>, score: u64, meta: HmmMeta, a: int, b: int)
    ensures
        record_gain(h, score, meta, a, b) >= 0,
    decreases h.len(),
{
    if h.len() > 0 {
        lemma_gain_nonneg(h.drop_last(), score, meta, a, b);
    }
}

/// The weight one match adds: the score times the letter count, held at
/// the largest `u64`.
pub open spec fn gain_of(score: u64, cnt: u32) -> int {
    sat(score * cnt) as int
}

/// What the matches `h` of one record add to `(a, b)`: for each match at a
/// consensus column of the HMM whose backbone column is `b`, the score times
/// the letter count of that column.
pub open spec fn record_gain(h: Seq<(u32, u32)>, score: u64, meta: HmmMeta, a: int, b: int) -> int
    decreases h.len(),
{
    if h.len() == 0 {
        0
    } else {
        let t = h.last();
        record_gain(h.drop_last(), score, meta, a, b) + if t.0 == a
            && meta.column_poitions[t.1 as int] == b {
            gain_of(score, meta.chars_cnt[t.1 as int])
        } else {
            0
        }
    }
}

/// What reading `s` against `meta` comes to.
pub open spec fn record_outcome(s: Seq<u8>, meta: HmmMeta) -> Result<Seq<(u32, u32)>, AlignError> {
    match scan_prefix(s, s.len() as int) {
        Err(b) => Err(AlignError::UnexpectedCharacter(b)),
        Ok((_, c, h)) => if c == meta.column_poitions.len() {
            Ok(h)
        } else {
            Err(AlignError::ColumnCountMismatch)
        },
    }
}

pub proof fn lemma_sat_assoc(x: int, y: int, z: int)
    requires
        0 <= x,
        0 <= y,
        0 <= z,
    ensures
        sat(sat(x + y) + z) == sat(x + y + z),
{
}

/// Adds to `w` the weights of one aligned record of a query whose adjusted
/// score for this HMM is `score`.
pub fn accumulate_record(s: &Vec<u8>, score: u64, meta: &HmmMeta, w: &mut QueryWeights) -> (r: Result<
    (),
    AlignError,
>)
    requires
        s.len() <= 4294967295,
        meta.wf(),
        old(w).wf(),
    ensures
        final(w).wf(),
        match record_outcome(s@, *meta) {
            Err(e) => r == Err::<(), AlignError>(e) && *final(w) == *old(w),
            Ok(h) => r is Ok && forall|a: int, b: int|
                #[trigger] final(w).weight(a, b) == sat(old(w).weight(a, b) + record_gain(h, score, *meta, a, b)),
        },
{
    let scanned = scan_aligned(s);
    let (hits, columns) = match scanned {
        Err(b) => {
            return Err(AlignError::UnexpectedCharacter(b));
        },
        Ok(x) => x,
    };
    if columns != meta.column_poitions.len() {
        return Err(AlignError::ColumnCountMismatch);
    }
    proof {
        lemma_scan_bounds(s@, s.len() as int);
    }
    let ghost w0 = *w;
    let mut t: usize = 0;
    while t < hits.len()
        invariant
            t <= hits.len(),
            meta.wf(),
            columns == meta.column_poitions.len(),
            forall|t2: int| 0 <= t2 < hits.len() ==> (#[trigger] hits[t2]).1 < columns,
            w.wf(),
            forall|a: int, b: int|
                #[trigger] w.weight(a, b) == sat(w0.weight(a, b) + record_gain(hits@.take(t as int), score, *meta, a, b)),
        decreases hits.len() - t,
    {
        let (res, col) = hits[t];
        assert(hits[t as int].1 < columns);
        let delta: u64 = match score.checked_mul(meta.chars_cnt[col as usize] as u64) {
            Some(x) => x,
            None => 18446744073709551615,
        };
        let ghost before = *w;
        w.add(res, meta.column_poitions[col as usize] as u32, delta);
        t += 1;
        proof {
            assert(hits@.take(t as int).drop_last() =~= hits@.take(t - 1));
            assert forall|a: int, b: int| #[trigger] w.weight(a, b) == sat(w0.weight(a, b) + record_gain(hits@.take(t as int), score, *meta, a, b)) by {
                let g0 = record_gain(hits@.take(t - 1), score, *meta, a, b);
                if a == res && b == meta.column_poitions[col as int] {
                    lemma_gain_nonneg(hits@.take(t - 1), score, *meta, a, b);
                    lemma_sat_assoc(w0.weight(a, b) as int, g0, delta as int);
                }
            }
        }
    }
    assert(hits@.take(t as int) =~= hits@);
    Ok(())
}


/// The sequences of a list of records.
pub open spec fn seqs_of(v: Vec<Vec<u8>>) -> Seq<Seq<u8>> {
    v@.map_values(|r: Vec<u8>| r@)
}

/// What the first `upto` aligned records add to `(a, b)` of query `q`; record
/// `i` belongs to the query and score `hits[i]`.
pub open spec fn hmm_gain(
    meta: HmmMeta,
    hits: Seq<(u32, u64)>,
    records: Seq<Seq<u8>>,
    upto: int,
    q: int,
    a: int,
    b: int,
) -> int
    decreases upto,
{
    if upto <= 0 {
        0
    } else {
        hmm_gain(meta, hits, records, upto - 1, q, a, b) + if hits[upto - 1].0 == q {
            match record_outcome(records[upto - 1], meta) {
                Ok(h) => record_gain(h, hits[upto - 1].1, meta, a, b),
                Err(_) => 0,
            }
        } else {
            0
        }
    }
}

proof fn lemma_hmm_gain_nonneg(
    meta: HmmMeta,
    hits: Seq<(u32, u64)>,
    records: Seq<Seq<u8>>,
    upto: int,
    q: int,
    a: int,
    b: int,
)
    ensures
        hmm_gain(meta, hits, records, upto, q, a, b) >= 0,
    decreases upto,
{
    if upto > 0 {
        lemma_hmm_gain_nonneg(meta, hits, records, upto - 1, q, a, b);
        match record_outcome(records[upto - 1], meta) {
            Ok(h) => lemma_gain_nonneg(h, hits[upto - 1].1, meta, a, b),
            Err(_) => {},
        }
    }
}

/// Per query, its sparse weights.
pub struct BatchedWeightMatrix {
    pub weights: Vec<QueryWeights>,
}

impl BatchedWeightMatrix {
    /// Every query's weights are well formed.
    pub open spec fn wf(&self) -> bool {
        forall|q: int| 0 <= q < self.weights.len() ==> (#[trigger] self.weights[q]).wf()
    }

    /// Empty weights for `n` queries.
    pub fn new(n: usize) -> (r: Self)
        ensures
            r.wf(),
            r.weights.len() == n,
            forall|q: int, a: int, b: int| 0 <= q < n ==> #[trigger] r.weights[q].weight(a, b) == 0,
    {
        let mut weights: Vec<QueryWeights> = Vec::new();
        let mut q: usize = 0;
        while q < n
            invariant
                q <= n,
                weights.len() == q,
                forall|q2: int| 0 <= q2 < q ==> (#[trigger] weights[q2]).wf(),
                forall|q2: int, a: int, b: int| 0 <= q2 < q ==> #[trigger] weights[q2].weight(a, b) == 0,
            decreases n - q,
        {
            weights.push(QueryWeights::new());
            q += 1;
        }
        BatchedWeightMatrix { weights }
    }

    /// Adds the weights of `rhs`, query by query.
    pub fn merge_in(&mut self, rhs: BatchedWeightMatrix)
        requires
            old(self).wf(),
            rhs.wf(),
            rhs.weights.len() == old(self).weights.len(),
        ensures
            final(self).wf(),
            final(self).weights.len() == old(self).weights.len(),
            forall|q: int, a: int, b: int|
                0 <= q < old(self).weights.len() ==> #[trigger] final(self).weights[q].weight(a, b)
                    == sat(old(self).weights[q].weight(a, b) + rhs.weights[q].weight(a, b)),
    {
        let ghost s0 = *self;
        let n = self.weights.len();
        let mut q: usize = 0;
        while q < n
            invariant
                q <= n,
                n == self.weights.len(),
                n == s0.weights.len(),
                n == rhs.weights.len(),
                self.wf(),
                rhs.wf(),
                forall|q2: int, a: int, b: int|
                    0 <= q2 < q ==> #[trigger] self.weights[q2].weight(a, b) == sat(
                        s0.weights[q2].weight(a, b) + rhs.weights[q2].weight(a, b),
                    ),
                forall|q2: int| q <= q2 < n ==> #[trigger] self.weights[q2] == s0.weights[q2],
            decreases n - q,
        {
            let mut qw = QueryWeights::new();
            std::mem::swap(&mut qw, &mut self.weights[q]);
            let ghost w0 = qw;
            assert(rhs.weights[q as int].wf());
            let entries = rhs.weights[q].to_entries();
            let mut t: usize = 0;
            while t < entries.len()
                invariant
                    t <= entries.len(),
                    qw.wf(),
                    distinct_pairs(entries@),
                    forall|a: int, b: int|
                        #[trigger] qw.weight(a, b) == sat(w0.weight(a, b) + weight_at(entries@.take(t as int), a, b)),
                decreases entries.len() - t,
            {
                let (r, c, v) = entries[t];
                proof {
                    assert forall|t2: int| 0 <= t2 < t implies !(entries@.take(t as int)[t2].0 == r
                        && entries@.take(t as int)[t2].1 == c) by {
                        assert(entries@.take(t as int)[t2] == entries[t2]);
                    }
                    lemma_weight_at_absent(entries@.take(t as int), r as int, c as int);
                }
                qw.add(r, c, v);
                t += 1;
                assert(entries@.take(t as int).drop_last() =~= entries@.take(t - 1));
            }
            assert(entries@.take(t as int) =~= entries@);
            self.weights.set(q, qw);
            q += 1;
        }
    }
}

/// Adds the weights of the aligned records of one HMM. Record `i` is the
/// alignment of query `hits[i].0`, whose adjusted score for the HMM is
/// `hits[i].1`.
pub fn add_alignment_weights(
    meta: &HmmMeta,
    hits: &Vec<(u32, u64)>,
    records: &Vec<Vec<u8>>,
    sub: &mut BatchedWeightMatrix,
) -> (r: Result<(), AlignError>)
    requires
        meta.wf(),
        old(sub).wf(),
        forall|i: int| 0 <= i < hits.len() ==> (#[trigger] hits[i]).0 < old(sub).weights.len(),
        forall|i: int| 0 <= i < records.len() ==> (#[trigger] records[i]).len() <= 4294967295,
    ensures
        final(sub).wf(),
        final(sub).weights.len() == old(sub).weights.len(),
        r is Ok <==> records.len() <= hits.len() && forall|i: int|
            0 <= i < records.len() ==> record_outcome(#[trigger] records[i]@, *meta) is Ok,
        r is Ok ==> forall|q: int, a: int, b: int|
            0 <= q < old(sub).weights.len() ==> #[trigger] final(sub).weights[q].weight(a, b) == sat(
                old(sub).weights[q].weight(a, b) + hmm_gain(
                    *meta,
                    hits@,
                    seqs_of(*records),
                    records.len() as int,
                    q,
                    a,
                    b,
                ),
            ),
{
    let ghost s0 = *sub;
    let ghost recs = seqs_of(*records);
    let n = sub.weights.len();
    let mut i: usize = 0;
    while i < records.len()
        invariant
            i <= records.len(),
            n == sub.weights.len(),
            n == s0.weights.len(),
            n == old(sub).weights.len(),
            meta.wf(),
            sub.wf(),
            recs == seqs_of(*records),
            forall|i2: int| 0 <= i2 < hits.len() ==> (#[trigger] hits[i2]).0 < n,
            forall|i2: int| 0 <= i2 < records.len() ==> (#[trigger] records[i2]).len() <= 4294967295,
            i <= hits.len(),
            forall|i2: int| 0 <= i2 < i ==> record_outcome(#[trigger] records[i2]@, *meta) is Ok,
            forall|q: int, a: int, b: int|
                0 <= q < n ==> #[trigger] sub.weights[q].weight(a, b) == sat(
                    s0.weights[q].weight(a, b) + hmm_gain(*meta, hits@, recs, i as int, q, a, b),
                ),
        decreases records.len() - i,
    {
        if i >= hits.len() {
            return Err(AlignError::RecordCountMismatch);
        }
        let (q, score) = hits[i];
        let mut qw = QueryWeights::new();
        std::mem::swap(&mut qw, &mut sub.weights[q as usize]);
        let ghost w0 = qw;
        assert(s0.weights.len() == n);
        let res = accumulate_record(&records[i], score, meta, &mut qw);
        sub.weights.set(q as usize, qw);
        match res {
            Err(e) => {
                return Err(e);
            },
            Ok(()) => {},
        }
        proof {
            assert(recs[i as int] == records[i as int]@);
            assert forall|q2: int, a: int, b: int| 0 <= q2 < n implies #[trigger] sub.weights[q2].weight(a, b)
                == sat(s0.weights[q2].weight(a, b) + hmm_gain(*meta, hits@, recs, i + 1, q2, a, b)) by {
                lemma_hmm_gain_nonneg(*meta, hits@, recs, i as int, q2, a, b);
                if q2 == q {
                    let h = record_outcome(records[i as int]@, *meta)->Ok_0;
                    lemma_gain_nonneg(h, score, *meta, a, b);
                    lemma_sat_assoc(
                        s0.weights[q2].weight(a, b) as int,
                        hmm_gain(*meta, hits@, recs, i as int, q2, a, b),
                        record_gain(h, score, *meta, a, b),
                    );
                }
            }
        }
        i += 1;
    }
    Ok(())
}

proof fn lemma_key_injective(a: int, b: int, c: int, d: int)
    requires
        0 <= a < 4294967296,
        0 <= b < 4294967296,
        0 <= c < 4294967296,
        0 <= d < 4294967296,
        pair_key(a, b) == pair_key(c, d) || pair_key(a, b) as u64 == pair_key(c, d) as u64,
    ensures
        a == c && b == d,
{
}

pub proof fn lemma_weight_at_present(e: Seq<WeightEntry>, t: int)
    requires
        distinct_pairs(e),
        0 <= t < e.len(),
    ensures
        weight_at(e, e[t].0 as int, e[t].1 as int) == e[t].2,
    decreases e.len(),
{
    if t < e.len() - 1 {
        let d = e.drop_last();
        assert forall|a: int, b: int|
            0 <= a < d.len() && 0 <= b < d.len() && a != b implies (d[a].0 != d[b].0 || d[a].1
                != d[b].1) by {
            assert(d[a] == e[a] && d[b] == e[b]);
        }
        assert(d[t] == e[t]);
        assert(e.last() == e[e.len() - 1]);
        lemma_weight_at_present(d, t);
    }
}

pub proof fn lemma_weight_at_absent(e: Seq<WeightEntry>, r: int, c: int)
    requires
        forall|t: int| 0 <= t < e.len() ==> !(e[t].0 == r && e[t].1 == c),
    ensures
        weight_at(e, r, c) == 0,
    decreases e.len(),
{
    if e.len() > 0 {
        let d = e.drop_last();
        assert forall|t: int| 0 <= t < d.len() implies !(d[t].0 == r && d[t].1 == c) by {
            assert(d[t] == e[t]);
        }
        assert(e.last() == e[e.len() - 1]);
        lemma_weight_at_absent(d, r, c);
    }
}

} // verus!

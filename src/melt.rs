//! Splitting the backbone into nested subsets, and what each subset's HMM
//! covers.
use crate::bitset::{bits_of, ExFixedBitSet};
use crate::grid::{count_at, count_cells, count_set, count_table_zeros, CountTable};
use crate::structures::{CrucibleCtxt, HmmMeta, TaxaHierarchy};
use fixedbitset::FixedBitSet;
use vstd::prelude::*;

verus! {

broadcast use vstd::seq_lib::group_to_multiset_ensures;

/// The gap byte of an aligned sequence.
pub const GAP: u8 = 45;

/// Number of sequences among `seqs[0..i]` with a letter in column `j`.
pub open spec fn letters_in(seqs: Seq<Seq<u8>>, i: int, j: int) -> int
    decreases i,
{
    if i <= 0 {
        0
    } else {
        letters_in(seqs, i - 1, j) + if seqs[i - 1][j] != GAP {
            1int
        } else {
            0
        }
    }
}

/// The sequences of a list of records.
pub open spec fn seqs_view(v: Vec<Vec<u8>>) -> Seq<Seq<u8>> {
    v@.map_values(|r: Vec<u8>| r@)
}

proof fn lemma_letters_mono(seqs: Seq<Seq<u8>>, a: int, b: int, j: int)
    requires
        0 <= a <= b,
    ensures
        0 <= letters_in(seqs, a, j) <= letters_in(seqs, b, j),
        letters_in(seqs, b, j) - letters_in(seqs, a, j) <= b - a,
    decreases b - a,
{
    if a < b {
        lemma_letters_mono(seqs, a, b - 1, j);
    } else {
        lemma_letters_nonneg(seqs, a, j);
    }
}

proof fn lemma_letters_nonneg(seqs: Seq<Seq<u8>>, a: int, j: int)
    ensures
        0 <= letters_in(seqs, a, j) <= if a < 0 {
            0
        } else {
            a
        },
    decreases a,
{
    if a > 0 {
        lemma_letters_nonneg(seqs, a - 1, j);
    }
}

/// Prefix counts of letters: row `i`, column `j` counts the sequences among
/// the first `i` that have a letter in column `j`.
pub fn letter_prefix_counts(seqs: &Vec<Vec<u8>>, k: usize) -> (p: CountTable)
    requires
        seqs.len() < 4294967295,
        seqs.len() < isize::MAX,
        k <= isize::MAX,
        (seqs.len() + 1) * k <= isize::MAX,
        forall|i: int| 0 <= i < seqs.len() ==> (#[trigger] seqs[i]).len() == k,
    ensures
        count_cells(p).len() == seqs.len() + 1,
        forall|i: int| 0 <= i < count_cells(p).len() ==> (#[trigger] count_cells(p)[i]).len() == k,
        forall|i: int, j: int|
            0 <= i < count_cells(p).len() && 0 <= j < k ==> count_cells(p)[i][j] == letters_in(
                seqs_view(*seqs),
                i,
                j,
            ),
{
    let ghost sv = seqs_view(*seqs);
    let n = seqs.len();
    let mut p = count_table_zeros(n + 1, k);
    let mut i: usize = 0;
    while i < n
        invariant
            i <= n < 4294967295,
            n == seqs.len(),
            sv == seqs_view(*seqs),
            forall|i2: int| 0 <= i2 < n ==> (#[trigger] seqs[i2]).len() == k,
            count_cells(p).len() == n + 1,
            forall|i2: int| 0 <= i2 <= n ==> (#[trigger] count_cells(p)[i2]).len() == k,
            forall|i2: int, j2: int|
                0 <= i2 <= i && 0 <= j2 < k ==> count_cells(p)[i2][j2] == letters_in(sv, i2, j2),
        decreases n - i,
    {
        let s = &seqs[i];
        assert(s@ == sv[i as int]);
        let mut j: usize = 0;
        while j < k
            invariant
                j <= k,
                i < n < 4294967295,
                n == seqs.len(),
                s.len() == k,
                s@ == sv[i as int],
                count_cells(p).len() == n + 1,
                forall|i2: int| 0 <= i2 <= n ==> (#[trigger] count_cells(p)[i2]).len() == k,
                forall|i2: int, j2: int|
                    0 <= i2 <= i && 0 <= j2 < k ==> count_cells(p)[i2][j2] == letters_in(sv, i2, j2),
                forall|j2: int| 0 <= j2 < j ==> #[trigger] count_cells(p)[i + 1][j2] == letters_in(sv, i + 1, j2),
            decreases k - j,
        {
            proof {
                lemma_letters_nonneg(sv, i as int, j as int);
            }
            let prev = count_at(&p, i, j);
            let v: u32 = if s[j] != GAP {
                prev + 1
            } else {
                prev
            };
            count_set(&mut p, i + 1, j, v);
            j += 1;
        }
        i += 1;
    }
    p
}

impl CrucibleCtxt {
    /// Letters per column within the sequences `sequence_range` of the prefix
    /// counts, written into `buf`.
    pub fn retrieve_nchars_noalloc(
        nchars_partial_sum: &CountTable,
        sequence_range: (usize, usize),
        buf: &mut Vec<u32>,
    )
        requires
            sequence_range.0 <= sequence_range.1 < count_cells(*nchars_partial_sum).len(),
            count_cells(*nchars_partial_sum)[sequence_range.0 as int].len() == old(buf).len(),
            count_cells(*nchars_partial_sum)[sequence_range.1 as int].len() == old(buf).len(),
            forall|j: int|
                0 <= j < old(buf).len() ==> count_cells(*nchars_partial_sum)[sequence_range.0 as int][j]
                    <= count_cells(*nchars_partial_sum)[sequence_range.1 as int][j],
        ensures
            final(buf).len() == old(buf).len(),
            forall|j: int|
                0 <= j < final(buf).len() ==> #[trigger] final(buf)[j] == count_cells(
                    *nchars_partial_sum,
                )[sequence_range.1 as int][j] - count_cells(*nchars_partial_sum)[sequence_range.0 as int][j],
    {
        let ghost cells = count_cells(*nchars_partial_sum);
        let (start, end) = sequence_range;
        let k = buf.len();
        let mut i: usize = 0;
        while i < k
            invariant
                i <= k,
                k == buf.len(),
                cells == count_cells(*nchars_partial_sum),
                start <= end < cells.len(),
                cells[start as int].len() == k,
                cells[end as int].len() == k,
                forall|j: int| 0 <= j < k ==> cells[start as int][j] <= cells[end as int][j],
                forall|j: int|
                    0 <= j < i ==> #[trigger] buf[j] == cells[end as int][j] - cells[start as int][j],
            decreases k - i,
        {
            let hi = count_at(nchars_partial_sum, end, i);
            let lo = count_at(nchars_partial_sum, start, i);
            buf.set(i, hi - lo);
            i += 1;
        }
    }
}

/// The columns below `j` with a positive count, in increasing order.
pub open spec fn occupied_upto(counts: Seq<u32>, j: int) -> Seq<usize>
    decreases j,
{
    if j <= 0 {
        seq![]
    } else if counts[j - 1] > 0 {
        occupied_upto(counts, j - 1).push((j - 1) as usize)
    } else {
        occupied_upto(counts, j - 1)
    }
}

/// The HMM of a subset whose letter count per backbone column is `counts`:
/// the occupied columns in order, with their counts.
pub open spec fn meta_of(counts: Seq<u32>) -> (Seq<u32>, Seq<usize>) {
    let cols = occupied_upto(counts, counts.len() as int);
    (Seq::new(cols.len(), |t: int| counts[cols[t] as int]), cols)
}

/// Metadata of the subset `range` of the backbone, from the prefix counts.
pub fn subset_meta(prefix: &CountTable, range: (usize, usize), k: usize) -> (m: HmmMeta)
    requires
        range.0 <= range.1 < count_cells(*prefix).len(),
        k < 2147483647,
        count_cells(*prefix)[range.0 as int].len() == k,
        count_cells(*prefix)[range.1 as int].len() == k,
        forall|j: int|
            0 <= j < k ==> count_cells(*prefix)[range.0 as int][j] <= count_cells(
                *prefix,
            )[range.1 as int][j],
    ensures
        m.wf(),
        m.sequence_range == range,
        (m.chars_cnt@, m.column_poitions@) == meta_of(
            Seq::new(
                k as nat,
                |j: int|
                    (count_cells(*prefix)[range.1 as int][j] - count_cells(
                        *prefix,
                    )[range.0 as int][j]) as u32,
            ),
        ),
{
    let ghost cells = count_cells(*prefix);
    let ghost counts = Seq::new(
        k as nat,
        |j: int| (cells[range.1 as int][j] - cells[range.0 as int][j]) as u32,
    );
    let mut buf: Vec<u32> = vec![0u32; k];
    CrucibleCtxt::retrieve_nchars_noalloc(prefix, range, &mut buf);
    assert(buf@ =~= counts);
    let mut nonzero_counts: Vec<u32> = Vec::new();
    let mut column_positions: Vec<usize> = Vec::new();
    let mut j: usize = 0;
    while j < k
        invariant
            j <= k < 2147483647,
            buf@ == counts,
            buf.len() == k,
            column_positions@ == occupied_upto(counts, j as int),
            nonzero_counts.len() == column_positions.len(),
            forall|t: int|
                0 <= t < column_positions.len() ==> #[trigger] nonzero_counts[t]
                    == counts[column_positions[t] as int],
            forall|t: int| 0 <= t < column_positions.len() ==> column_positions[t] < j,
            forall|a: int, b: int|
                0 <= a < b < column_positions.len() ==> column_positions[a] < column_positions[b],
        decreases k - j,
    {
        if buf[j] > 0 {
            nonzero_counts.push(buf[j]);
            column_positions.push(j);
        }
        j += 1;
    }
    assert(nonzero_counts@ =~= Seq::new(
        column_positions@.len(),
        |t: int| counts[column_positions@[t] as int],
    ));
    HmmMeta::new(range, nonzero_counts, column_positions)
}

/// The metadata of every subset of the decomposition, in order.
pub fn build_metadata(seqs: &Vec<Vec<u8>>, k: usize, ranges: &Vec<(usize, usize)>) -> (c:
    CrucibleCtxt)
    requires
        seqs.len() < 4294967295,
        k < 2147483647,
        seqs.len() < isize::MAX,
        (seqs.len() + 1) * k <= isize::MAX,
        forall|i: int| 0 <= i < seqs.len() ==> (#[trigger] seqs[i]).len() == k,
        forall|i: int|
            0 <= i < ranges.len() ==> (#[trigger] ranges[i]).0 <= ranges[i].1 <= seqs.len(),
    ensures
        c.version == 0,
        c.metadata.len() == ranges.len(),
        forall|i: int|
            0 <= i < ranges.len() ==> (#[trigger] c.metadata[i]).wf() && c.metadata[i].sequence_range
                == ranges[i] && (c.metadata[i].chars_cnt@, c.metadata[i].column_poitions@)
                == meta_of(
                Seq::new(
                    k as nat,
                    |j: int|
                        (letters_in(seqs_view(*seqs), ranges[i].1 as int, j) - letters_in(
                            seqs_view(*seqs),
                            ranges[i].0 as int,
                            j,
                        )) as u32,
                ),
            ),
{
    let prefix = letter_prefix_counts(seqs, k);
    let ghost sv = seqs_view(*seqs);
    let mut metadata: Vec<HmmMeta> = Vec::new();
    let mut i: usize = 0;
    while i < ranges.len()
        invariant
            i <= ranges.len(),
            count_cells(prefix).len() == seqs.len() + 1,
            forall|i2: int| 0 <= i2 < count_cells(prefix).len() ==> (#[trigger] count_cells(prefix)[i2]).len() == k,
            forall|i2: int, j: int|
                0 <= i2 < count_cells(prefix).len() && 0 <= j < k ==> count_cells(prefix)[i2][j] == letters_in(sv, i2, j),
            forall|i2: int|
                0 <= i2 < ranges.len() ==> (#[trigger] ranges[i2]).0 <= ranges[i2].1 <= seqs.len(),
            sv == seqs_view(*seqs),
            k < 2147483647,
            metadata.len() == i,
            forall|i2: int|
                0 <= i2 < i ==> (#[trigger] metadata[i2]).wf() && metadata[i2].sequence_range
                    == ranges[i2] && (metadata[i2].chars_cnt@, metadata[i2].column_poitions@)
                    == meta_of(
                    Seq::new(
                        k as nat,
                        |j: int|
                            (letters_in(sv, ranges[i2].1 as int, j) - letters_in(
                                sv,
                                ranges[i2].0 as int,
                                j,
                            )) as u32,
                    ),
                ),
        decreases ranges.len() - i,
    {
        let range = ranges[i];
        assert forall|j: int| 0 <= j < k implies count_cells(prefix)[range.0 as int][j] <= count_cells(prefix)[range.1 as int][j] by {
            lemma_letters_mono(sv, range.0 as int, range.1 as int, j);
        }
        let m = subset_meta(&prefix, range, k);
        assert(Seq::new(
            k as nat,
            |j: int| (count_cells(prefix)[range.1 as int][j] - count_cells(prefix)[range.0 as int][j]) as u32,
        ) =~= Seq::new(
            k as nat,
            |j: int| (letters_in(sv, range.1 as int, j) - letters_in(sv, range.0 as int, j)) as u32,
        ));
        metadata.push(m);
        i += 1;
    }
    CrucibleCtxt::new(metadata)
}


/// A rooted tree; node 0 is the root.
pub struct Tree {
    /// per node, the taxon of a leaf, or a negative value for an inner node
    pub taxa: Vec<i32>,
    /// per node, its parent, or a negative value for the root
    pub parents: Vec<i32>,
    /// the nodes in postorder: every node after its children
    pub postorder: Vec<usize>,
    /// number of taxa
    pub ntaxa: usize,
}

/// The identity permutation of `n` taxa.
pub open spec fn identity(n: nat) -> Seq<usize> {
    Seq::new(n, |i: int| i as usize)
}

/// `v` holds each of the taxa `0..n` once.
pub open spec fn is_permutation(v: Seq<usize>, n: nat) -> bool {
    v.len() == n && v.to_multiset() == identity(n).to_multiset()
}

/// What the decomposition of `n` taxa returns: the taxa reordered, the
/// inverse of that order, the whole set as the first subset, and subsets of
/// at least two taxa after it.
pub open spec fn is_hierarchy(h: TaxaHierarchy, n: nat) -> bool {
    &&& is_permutation(h.reordered_taxa@, n)
    &&& h.taxa_positions.len() == n
    &&& forall|t: int| 0 <= t < n ==> h.reordered_taxa[#[trigger] h.taxa_positions[t] as int] == t
    &&& forall|p: int| 0 <= p < n ==> h.taxa_positions[#[trigger] h.reordered_taxa[p] as int] == p
    &&& h.decomposition_ranges.len() >= 1
    &&& h.decomposition_ranges[0] == (0usize, n as usize)
    &&& forall|i: int|
        1 <= i < h.decomposition_ranges.len() ==> (#[trigger] h.decomposition_ranges[i]).0 + 2
            <= h.decomposition_ranges[i].1 <= n
}

/// A pending subset: `(size, lower bound, upper bound, subtree root)`.
pub type Pending = (usize, usize, usize, usize);

/// Each pending subset is a range of the `n` taxa of its stated size.
pub open spec fn pending_ok(q: Seq<Pending>, n: int) -> bool {
    forall|i: int|
        0 <= i < q.len() ==> (#[trigger] q[i]).1 <= q[i].2 <= n && q[i].0 == q[i].2 - q[i].1
}

/// `a` is strictly larger than `b`: by size, then bounds, then root.
pub open spec fn pending_above(a: Pending, b: Pending) -> bool {
    a.0 > b.0 || (a.0 == b.0 && (a.1 > b.1 || (a.1 == b.1 && (a.2 > b.2 || (a.2 == b.2 && a.3
        > b.3)))))
}

/// Index of the largest of `q[0..t]`, the first one on ties.
pub open spec fn pick_upto(q: Seq<Pending>, t: int) -> int
    decreases t,
{
    if t <= 1 {
        0
    } else {
        let b = pick_upto(q, t - 1);
        if pending_above(q[t - 1], q[b]) {
            t - 1
        } else {
            b
        }
    }
}

proof fn lemma_pick_in_range(q: Seq<Pending>, t: int)
    requires
        1 <= t,
    ensures
        0 <= pick_upto(q, t) < t,
    decreases t,
{
    if t > 1 {
        lemma_pick_in_range(q, t - 1);
    }
}

/// Takes the largest pending subset out of the queue.
fn pop_largest(q: &mut Vec<Pending>) -> (r: Pending)
    requires
        old(q).len() > 0,
    ensures
        0 <= pick_upto(old(q)@, old(q).len() as int) < old(q).len(),
        r == old(q)[pick_upto(old(q)@, old(q).len() as int)],
        final(q)@ == old(q)@.remove(pick_upto(old(q)@, old(q).len() as int)),
{
    let mut best: usize = 0;
    let mut t: usize = 1;
    while t < q.len()
        invariant
            1 <= t <= q.len(),
            best == pick_upto(q@, t as int),
            0 <= best < t,
        decreases q.len() - t,
    {
        let a = q[t];
        let b = q[best];
        if a.0 > b.0 || (a.0 == b.0 && (a.1 > b.1 || (a.1 == b.1 && (a.2 > b.2 || (a.2 == b.2
            && a.3 > b.3))))) {
            best = t;
        }
        t += 1;
    }
    q.remove(best)
}

/// A node that carries a taxon.
pub open spec fn is_leaf(tree: Tree, v: int) -> bool {
    tree.taxa[v] >= 0
}

/// `a + b`, held at the largest `u64`.
pub open spec fn sat_add(a: u64, b: u64) -> u64 {
    if a + b > 18446744073709551615 {
        18446744073709551615
    } else {
        (a + b) as u64
    }
}

/// One step of counting leaves: node `v` adds its count to its parent when
/// both lie in the same part.
pub open spec fn sizes_step(tree: Tree, region: Seq<usize>, ts: Seq<u64>, v: int) -> Seq<u64> {
    if v < tree.taxa.len() && v < tree.parents.len() && tree.parents[v] >= 0 {
        let p = tree.parents[v] as int;
        if p < tree.taxa.len() && p != v && region[p] == region[v] {
            ts.update(p, sat_add(ts[p], ts[v]))
        } else {
            ts
        }
    } else {
        ts
    }
}

/// Leaf counts after the first `t` nodes of the postorder.
pub open spec fn sizes_upto(tree: Tree, region: Seq<usize>, t: int) -> Seq<u64>
    decreases t,
{
    if t <= 0 {
        Seq::new(tree.taxa.len() as nat, |v: int| if tree.taxa[v] >= 0 { 1u64 } else { 0u64 })
    } else {
        sizes_step(tree, region, sizes_upto(tree, region, t - 1), tree.postorder[t - 1] as int)
    }
}

/// Number of leaves under each node that lie in the node's own part.
pub open spec fn part_sizes_of(tree: Tree, region: Seq<usize>) -> Seq<u64> {
    sizes_upto(tree, region, tree.postorder.len() as int)
}

proof fn lemma_sizes_len(tree: Tree, region: Seq<usize>, t: int)
    ensures
        sizes_upto(tree, region, t).len() == tree.taxa.len(),
    decreases t,
{
    if t > 0 {
        lemma_sizes_len(tree, region, t - 1);
    }
}

/// Leaf counts per node, within the parts given by `region`: the nearest
/// cut at or above a node.
fn part_sizes(tree: &Tree, region: &Vec<usize>) -> (ts: Vec<u64>)
    requires
        region.len() == tree.taxa.len(),
    ensures
        ts@ == part_sizes_of(*tree, region@),
        ts.len() == tree.taxa.len(),
{
    let nn = tree.taxa.len();
    let mut ts: Vec<u64> = Vec::new();
    let mut v: usize = 0;
    while v < nn
        invariant
            v <= nn,
            nn == tree.taxa.len(),
            ts@ == Seq::new(v as nat, |u: int| if tree.taxa[u] >= 0 { 1u64 } else { 0u64 }),
        decreases nn - v,
    {
        ts.push(if tree.taxa[v] >= 0 {
            1
        } else {
            0
        });
        v += 1;
        assert(ts@ =~= Seq::new(v as nat, |u: int| if tree.taxa[u] >= 0 { 1u64 } else { 0u64 }));
    }
    let mut t: usize = 0;
    while t < tree.postorder.len()
        invariant
            t <= tree.postorder.len(),
            nn == tree.taxa.len(),
            region.len() == nn,
            ts@ == sizes_upto(*tree, region@, t as int),
        decreases tree.postorder.len() - t,
    {
        proof {
            lemma_sizes_len(*tree, region@, t as int);
        }
        let v = tree.postorder[t];
        if v < nn && v < tree.parents.len() && tree.parents[v] >= 0 {
            let p = tree.parents[v] as usize;
            if p < nn && p != v && region[p] == region[v] {
                ts.set(p, ts[p].saturating_add(ts[v]));
            }
        }
        t += 1;
    }
    proof {
        lemma_sizes_len(*tree, region@, t as int);
    }
    ts
}

/// `|size - 2 * count|`.
pub open spec fn imbalance(size: int, count: u64) -> int {
    if size >= 2 * count {
        size - 2 * count
    } else {
        2 * count - size
    }
}

/// A candidate cut of the part rooted at `root`: an inner node of that part
/// other than its root.
pub open spec fn candidate(tree: Tree, region: Seq<usize>, root: int, v: int) -> bool {
    v < tree.taxa.len() && v != root && region[v] == root && tree.taxa[v] < 0
}

/// The best candidate among the first `t` nodes of the postorder, with its
/// imbalance: the first one of least imbalance.
pub open spec fn cut_scan(
    tree: Tree,
    region: Seq<usize>,
    ts: Seq<u64>,
    root: int,
    size: int,
    t: int,
) -> Option<(usize, int)>
    decreases t,
{
    if t <= 0 {
        None
    } else {
        let prev = cut_scan(tree, region, ts, root, size, t - 1);
        let v = tree.postorder[t - 1];
        if candidate(tree, region, root, v as int) {
            let imb = imbalance(size, ts[v as int]);
            match prev {
                None => Some((v, imb)),
                Some((b, bi)) => if imb < bi {
                    Some((v, imb))
                } else {
                    prev
                },
            }
        } else {
            prev
        }
    }
}

/// The most balanced cut of the part rooted at `root`, if it has a
/// candidate.
pub open spec fn best_cut_of(tree: Tree, region: Seq<usize>, ts: Seq<u64>, root: int, size: int) -> Option<
    usize,
> {
    match cut_scan(tree, region, ts, root, size, tree.postorder.len() as int) {
        None => None,
        Some((v, _)) => Some(v),
    }
}

proof fn lemma_cut_scan(tree: Tree, region: Seq<usize>, ts: Seq<u64>, root: int, size: int, t: int)
    requires
        0 <= t <= tree.postorder.len(),
    ensures
        cut_scan(tree, region, ts, root, size, t) matches Some((v, _)) ==> candidate(
            tree,
            region,
            root,
            v as int,
        ),
    decreases t,
{
    if t > 0 {
        lemma_cut_scan(tree, region, ts, root, size, t - 1);
    }
}

/// The most balanced cut of the part rooted at `root`, of `size` taxa: the
/// first inner node in postorder, other than `root`, that minimizes
/// `|size - 2 * leaves under it|`.
fn best_cut(tree: &Tree, region: &Vec<usize>, ts: &Vec<u64>, root: usize, size: usize) -> (r:
    Option<usize>)
    requires
        region.len() == tree.taxa.len(),
        ts.len() == tree.taxa.len(),
    ensures
        r == best_cut_of(*tree, region@, ts@, root as int, size as int),
        r matches Some(v) ==> candidate(*tree, region@, root as int, v as int),
{
    let nn = tree.taxa.len();
    let mut best: Option<usize> = None;
    let mut best_imbalance: u128 = 0;
    let mut t: usize = 0;
    while t < tree.postorder.len()
        invariant
            t <= tree.postorder.len(),
            nn == tree.taxa.len(),
            region.len() == nn,
            ts.len() == nn,
            match cut_scan(*tree, region@, ts@, root as int, size as int, t as int) {
                None => best is None,
                Some((v, bi)) => best == Some(v) && best_imbalance == bi,
            },
        decreases tree.postorder.len() - t,
    {
        let v = tree.postorder[t];
        if v < nn && v != root && region[v] == root && tree.taxa[v] < 0 {
            let a = size as u128;
            let b = 2 * (ts[v] as u128);
            let imb = if a > b {
                a - b
            } else {
                b - a
            };
            assert(imb == imbalance(size as int, ts[v as int]));
            let better = match best {
                None => true,
                Some(_) => imb < best_imbalance,
            };
            if better {
                best = Some(v);
                best_imbalance = imb;
            }
        }
        t += 1;
    }
    proof {
        lemma_cut_scan(*tree, region@, ts@, root as int, size as int, t as int);
    }
    best
}

/// Whether node `v` moves from the part of `root` into the part of `cut`:
/// it lies in the part of `root` and its parent already lies in `cut`'s.
pub open spec fn moves_to_cut(tree: Tree, region: Seq<usize>, cut: int, root: int, v: int) -> bool {
    &&& v < tree.taxa.len()
    &&& v != cut
    &&& v != root
    &&& v < tree.parents.len()
    &&& region[v] == root
    &&& tree.parents[v] >= 0
    &&& tree.parents[v] < tree.taxa.len()
    &&& region[tree.parents[v] as int] == cut
}

/// The parts after visiting the nodes `postorder[0..t]` from the last one
/// down, so that parents come before children.
pub open spec fn split_from(tree: Tree, region: Seq<usize>, cut: int, root: int, t: int) -> Seq<
    usize,
>
    decreases t,
{
    if t <= 0 {
        region
    } else {
        let v = tree.postorder[t - 1] as int;
        let r2 = if moves_to_cut(tree, region, cut, root, v) {
            region.update(v, cut as usize)
        } else {
            region
        };
        split_from(tree, r2, cut, root, t - 1)
    }
}

/// The parts after cutting the part of `root` at `cut`.
pub open spec fn split_of(tree: Tree, region: Seq<usize>, cut: int, root: int) -> Seq<usize> {
    split_from(tree, region.update(cut, cut as usize), cut, root, tree.postorder.len() as int)
}

/// Number of nodes below `k` that are not the root of their own part.
pub open spec fn nonself(region: Seq<usize>, k: int) -> nat
    decreases k,
{
    if k <= 0 {
        0
    } else {
        nonself(region, k - 1) + if region[k - 1] != k - 1 {
            1nat
        } else {
            0
        }
    }
}

proof fn lemma_nonself_update(region: Seq<usize>, k: int, v: int, x: usize)
    requires
        0 <= v < region.len(),
        0 <= k <= region.len(),
    ensures
        nonself(region.update(v, x), k) == if v < k {
            nonself(region, k) - (if region[v] != v {
                1int
            } else {
                0
            }) + (if x != v {
                1int
            } else {
                0
            })
        } else {
            nonself(region, k) as int
        },
    decreases k,
{
    if k > 0 {
        lemma_nonself_update(region, k - 1, v, x);
    }
}

proof fn lemma_nonself_bound(region: Seq<usize>, k: int)
    requires
        0 <= k,
    ensures
        nonself(region, k) <= k,
    decreases k,
{
    if k > 0 {
        lemma_nonself_bound(region, k - 1);
    }
}

/// Moves the nodes of the part of `root` that lie under `cut` into a part of
/// their own. Parents come before children in reverse postorder.
fn split_region(tree: &Tree, region: &mut Vec<usize>, cut: usize, root: usize)
    requires
        old(region).len() == tree.taxa.len(),
        cut < tree.taxa.len(),
        cut != root,
        old(region)[cut as int] == root,
    ensures
        final(region).len() == old(region).len(),
        final(region)@ == split_of(*tree, old(region)@, cut as int, root as int),
        nonself(final(region)@, tree.taxa.len() as int) + 1 == nonself(
            old(region)@,
            tree.taxa.len() as int,
        ),
{
    let nn = tree.taxa.len();
    let ghost r0 = region@;
    proof {
        lemma_nonself_update(r0, nn as int, cut as int, cut);
    }
    region.set(cut, cut);
    let mut t: usize = tree.postorder.len();
    while t > 0
        invariant
            t <= tree.postorder.len(),
            nn == tree.taxa.len(),
            region.len() == nn,
            split_from(*tree, region@, cut as int, root as int, t as int) == split_of(
                *tree,
                r0,
                cut as int,
                root as int,
            ),
            nonself(region@, nn as int) + 1 == nonself(r0, nn as int),
        decreases t,
    {
        t -= 1;
        let v = tree.postorder[t];
        if v < nn && v != cut && v != root && v < tree.parents.len() && region[v] == root
            && tree.parents[v] >= 0 {
            let p = tree.parents[v] as usize;
            if p < nn && region[p] == cut {
                proof {
                    lemma_nonself_update(region@, nn as int, v as int, cut);
                }
                region.set(v, cut);
            }
        }
    }
}

/// Taxon `x` is carried by a leaf of the part `cut`.
pub open spec fn labeled(tree: Tree, region: Seq<usize>, cut: int, x: int) -> bool {
    exists|v: int|
        0 <= v < tree.taxa.len() && region[v] == cut && tree.taxa[v] >= 0 && tree.taxa[v]
            < tree.ntaxa && #[trigger] tree.taxa[v] == x
}

/// Marks of the taxa `0..n` carried by leaves of the part `cut`.
pub open spec fn label_seq(tree: Tree, region: Seq<usize>, cut: int) -> Seq<bool> {
    Seq::new(tree.ntaxa as nat, |x: int| labeled(tree, region, cut, x))
}

/// Marks the taxa of the leaves in the part `cut`.
fn label_taxa(tree: &Tree, region: &Vec<usize>, cut: usize, labels: &mut FixedBitSet)
    requires
        region.len() == tree.taxa.len(),
        bits_of(*old(labels)).len() == tree.ntaxa,
    ensures
        bits_of(*final(labels)) == label_seq(*tree, region@, cut as int),
{
    labels.clear();
    let mut v: usize = 0;
    while v < tree.taxa.len()
        invariant
            v <= tree.taxa.len(),
            region.len() == tree.taxa.len(),
            bits_of(*labels).len() == tree.ntaxa,
            forall|x: int|
                0 <= x < tree.ntaxa ==> bits_of(*labels)[x] == exists|u: int|
                    0 <= u < v && region[u] == cut && tree.taxa[u] >= 0 && tree.taxa[u] < tree.ntaxa
                        && #[trigger] tree.taxa[u] == x,
        decreases tree.taxa.len() - v,
    {
        let tid = tree.taxa[v];
        if region[v] == cut && tid >= 0 && (tid as usize) < tree.ntaxa {
            labels.set(tid as usize, true);
        }
        v += 1;
        assert forall|x: int| 0 <= x < tree.ntaxa implies bits_of(*labels)[x] == exists|u: int|
            0 <= u < v && region[u] == cut && tree.taxa[u] >= 0 && tree.taxa[u] < tree.ntaxa
                && #[trigger] tree.taxa[u] == x by {
            if tree.taxa[v - 1] == x && region[v - 1] == cut && tree.taxa[v - 1] >= 0 {
                assert(tree.taxa[v - 1] == x);
            }
        }
    }
    assert(bits_of(*labels) =~= label_seq(*tree, region@, cut as int));
}

/// The taxa of `s` whose mark in `lab` is `want`, in order.
pub open spec fn keep(s: Seq<usize>, lab: Seq<bool>, want: bool) -> Seq<usize>
    decreases s.len(),
{
    if s.len() == 0 {
        seq![]
    } else if lab[s.last() as int] == want {
        keep(s.drop_last(), lab, want).push(s.last())
    } else {
        keep(s.drop_last(), lab, want)
    }
}

/// `v` with its range `[lb, ub)` stably partitioned: the marked taxa first.
pub open spec fn partitioned(v: Seq<usize>, lb: int, ub: int, lab: Seq<bool>) -> Seq<usize> {
    v.subrange(0, lb) + keep(v.subrange(lb, ub), lab, true) + keep(v.subrange(lb, ub), lab, false)
        + v.subrange(ub, v.len() as int)
}

/// The state of the decomposition: the order of the taxa, the part of each
/// node, the leaf count of each node within its part, the subsets so far,
/// and the pending subsets.
pub type Decomp = (Seq<usize>, Seq<usize>, Seq<u64>, Seq<(usize, usize)>, Seq<Pending>);

/// The subsets recorded for the two halves of a cut of `[lb, ub)` after
/// `split` taxa: each half of at least two taxa.
pub open spec fn halves(lb: int, ub: int, split: int) -> Seq<(usize, usize)> {
    (if split >= 2 {
        seq![(lb as usize, (lb + split) as usize)]
    } else {
        seq![]
    }) + (if ub - lb - split >= 2 {
        seq![((lb + split) as usize, ub as usize)]
    } else {
        seq![]
    })
}

/// At most `fuel` rounds of the decomposition from `st`: take the largest
/// pending subset; stop if it is small enough; skip it if its part has no
/// candidate cut; else cut it at the best candidate, move the cut taxa to
/// the front of its range, record each half of at least two taxa and queue
/// both halves.
pub open spec fn decomp_loop(tree: Tree, max_size: int, st: Decomp, fuel: nat) -> Decomp
    decreases fuel,
{
    if fuel == 0 || st.4.len() == 0 {
        st
    } else {
        let i = pick_upto(st.4, st.4.len() as int);
        let (size, lb, ub, root) = st.4[i];
        let q = st.4.remove(i);
        if size <= max_size {
            (st.0, st.1, st.2, st.3, q)
        } else {
            match best_cut_of(tree, st.1, st.2, root as int, size as int) {
                None => decomp_loop(tree, max_size, (st.0, st.1, st.2, st.3, q), (fuel - 1) as nat),
                Some(cut) => {
                    let region = split_of(tree, st.1, cut as int, root as int);
                    let lab = label_seq(tree, region, cut as int);
                    let split = keep(st.0.subrange(lb as int, ub as int), lab, true).len() as int;
                    decomp_loop(
                        tree,
                        max_size,
                        (
                            partitioned(st.0, lb as int, ub as int, lab),
                            region,
                            part_sizes_of(tree, region),
                            st.3 + halves(lb as int, ub as int, split),
                            q.push((split as usize, lb, (lb + split) as usize, cut)).push(
                                ((size - split) as usize, (lb + split) as usize, ub, root),
                            ),
                        ),
                        (fuel - 1) as nat,
                    )
                },
            }
        }
    }
}

/// The starting state: taxa in order, one part, the whole set recorded and
/// pending.
pub open spec fn decomp_start(tree: Tree) -> Decomp {
    let n = tree.ntaxa;
    let region = Seq::new(tree.taxa.len() as nat, |_v: int| 0usize);
    (
        identity(n as nat),
        region,
        part_sizes_of(tree, region),
        seq![(0usize, n)],
        seq![(n, 0usize, n, 0usize)],
    )
}

/// The decomposition of `tree`. Each round either drops a pending subset or
/// makes one more node the root of its own part, so `3 * nodes + 1` rounds
/// always reach the end.
pub open spec fn decomposition(tree: Tree, max_size: int) -> Decomp {
    decomp_loop(tree, max_size, decomp_start(tree), (3 * tree.taxa.len() + 1) as nat)
}

fn stable_partition(v: &mut Vec<usize>, lb: usize, ub: usize, labels: &FixedBitSet) -> (split: usize)
    requires
        lb <= ub <= old(v).len(),
        forall|i: int| 0 <= i < old(v).len() ==> (#[trigger] old(v)[i]) < bits_of(*labels).len(),
    ensures
        final(v).len() == old(v).len(),
        final(v)@.to_multiset() == old(v)@.to_multiset(),
        final(v)@ == partitioned(old(v)@, lb as int, ub as int, bits_of(*labels)),
        split == keep(old(v)@.subrange(lb as int, ub as int), bits_of(*labels), true).len(),
        split <= ub - lb,
        forall|i: int| 0 <= i < lb || ub <= i < final(v).len() ==> final(v)[i] == old(v)[i],
{
    let ghost v0 = v@;
    let mut left: Vec<usize> = Vec::new();
    let mut right: Vec<usize> = Vec::new();
    let mut i: usize = lb;
    while i < ub
        invariant
            lb <= i <= ub <= v.len(),
            v@ == v0,
            forall|j: int| 0 <= j < v.len() ==> (#[trigger] v[j]) < bits_of(*labels).len(),
            left@.to_multiset().add(right@.to_multiset()) == v0.subrange(lb as int, i as int).to_multiset(),
            left.len() + right.len() == i - lb,
            left@ == keep(v0.subrange(lb as int, i as int), bits_of(*labels), true),
            right@ == keep(v0.subrange(lb as int, i as int), bits_of(*labels), false),
        decreases ub - i,
    {
        let x = v[i];
        assert(v0.subrange(lb as int, i + 1) =~= v0.subrange(lb as int, i as int).push(x));
        assert(v0.subrange(lb as int, i + 1).drop_last() =~= v0.subrange(lb as int, i as int));
        if labels.contains(x) {
            left.push(x);
        } else {
            right.push(x);
        }
        i += 1;
    }
    let split = left.len();
    let mut out: Vec<usize> = Vec::new();
    let mut j: usize = 0;
    while j < lb
        invariant
            j <= lb <= ub <= v.len(),
            out@ == v0.subrange(0, j as int),
            v@ == v0,
        decreases lb - j,
    {
        out.push(v[j]);
        j += 1;
        assert(out@ =~= v0.subrange(0, j as int));
    }
    let mut j: usize = 0;
    while j < left.len()
        invariant
            j <= left.len(),
            out@ == v0.subrange(0, lb as int) + left@.subrange(0, j as int),
        decreases left.len() - j,
    {
        out.push(left[j]);
        j += 1;
        assert(out@ =~= v0.subrange(0, lb as int) + left@.subrange(0, j as int));
    }
    let mut j: usize = 0;
    while j < right.len()
        invariant
            j <= right.len(),
            out@ == v0.subrange(0, lb as int) + left@ + right@.subrange(0, j as int),
        decreases right.len() - j,
    {
        out.push(right[j]);
        j += 1;
        assert(out@ =~= v0.subrange(0, lb as int) + left@ + right@.subrange(0, j as int));
    }
    assert(left@.subrange(0, left.len() as int) =~= left@);
    assert(right@.subrange(0, right.len() as int) =~= right@);
    let mut j: usize = ub;
    while j < v.len()
        invariant
            ub <= j <= v.len(),
            v@ == v0,
            out@ == v0.subrange(0, lb as int) + left@ + right@ + v0.subrange(ub as int, j as int),
        decreases v.len() - j,
    {
        out.push(v[j]);
        j += 1;
        assert(out@ =~= v0.subrange(0, lb as int) + left@ + right@ + v0.subrange(ub as int, j as int));
    }
    proof {
        let a = v0.subrange(0, lb as int);
        let m = v0.subrange(lb as int, ub as int);
        let c = v0.subrange(ub as int, v0.len() as int);
        assert(v0 =~= a + m + c);
        vstd::seq_lib::lemma_multiset_commutative(a + m, c);
        vstd::seq_lib::lemma_multiset_commutative(a, m);
        vstd::seq_lib::lemma_multiset_commutative(a + left@ + right@, c);
        vstd::seq_lib::lemma_multiset_commutative(a + left@, right@);
        vstd::seq_lib::lemma_multiset_commutative(a, left@);
        assert(out@.to_multiset() =~= v0.to_multiset());
        assert forall|i: int| 0 <= i < lb || ub <= i < out.len() implies out[i] == v0[i] by {
            if i >= ub {
                assert(out@[i] == v0.subrange(ub as int, v0.len() as int)[i - ub]);
            }
        }
    }
    assert(out@ =~= partitioned(v0, lb as int, ub as int, bits_of(*labels)));
    *v = out;
    split
}

proof fn lemma_permutation_facts(v: Seq<usize>, n: nat)
    requires
        is_permutation(v, n),
        n <= usize::MAX,
    ensures
        v.no_duplicates(),
        forall|p: int| 0 <= p < n ==> v[p] < n,
        forall|t: int| 0 <= t < n ==> #[trigger] v.contains(t as usize),
{
    let id = identity(n);
    assert forall|i: int| 0 <= i < n implies #[trigger] id[i] == i by {}
    assert(id.no_duplicates());
    id.lemma_multiset_has_no_duplicates();
    v.lemma_multiset_has_no_duplicates_conv();
    assert forall|p: int| 0 <= p < n implies v[p] < n by {
        assert(v.to_multiset().contains(v[p]));
        assert(id.to_multiset().contains(v[p]));
        let q = choose|q: int| 0 <= q < id.len() && id[q] == v[p];
    }
    assert forall|t: int| 0 <= t < n implies #[trigger] v.contains(t as usize) by {
        assert(id[t] == t as usize);
        assert(id.to_multiset().contains(t as usize));
    }
}

/// Decomposes the taxa of `tree` top-down: the largest pending subset with
/// more than `max_size` taxa is cut at its most balanced inner node, the
/// taxa under the cut move to the front of its range, and each half with at
/// least two taxa becomes a subset.
pub fn hierarchical_decomp(tree: &Tree, max_size: usize) -> (h: TaxaHierarchy)
    ensures
        is_hierarchy(h, tree.ntaxa as nat),
        h.reordered_taxa@ == decomposition(*tree, max_size as int).0,
        h.decomposition_ranges@ == decomposition(*tree, max_size as int).3,
        forall|extra: nat|
            #[trigger] decomp_loop(
                *tree,
                max_size as int,
                decomp_start(*tree),
                (3 * tree.taxa.len() + 1 + extra) as nat,
            ) == decomposition(*tree, max_size as int),
{
    let n = tree.ntaxa;
    let nn = tree.taxa.len();
    let mut reordered: Vec<usize> = Vec::new();
    let mut i: usize = 0;
    while i < n
        invariant
            i <= n,
            reordered@ == identity(i as nat),
        decreases n - i,
    {
        reordered.push(i);
        i += 1;
        assert(reordered@ =~= identity(i as nat));
    }
    let mut region: Vec<usize> = Vec::new();
    let mut v: usize = 0;
    while v < nn
        invariant
            v <= nn,
            region@ == Seq::new(v as nat, |_u: int| 0usize),
        decreases nn - v,
    {
        region.push(0);
        v += 1;
        assert(region@ =~= Seq::new(v as nat, |_u: int| 0usize));
    }
    let mut ts = part_sizes(tree, &region);
    let mut labels = FixedBitSet::with_capacity(n);
    let mut ranges: Vec<(usize, usize)> = Vec::new();
    ranges.push((0, n));
    let mut queue: Vec<Pending> = Vec::new();
    queue.push((n, 0, n, 0));
    let ghost mut fuel: nat = (3 * nn + 1) as nat;
    proof {
        lemma_nonself_bound(region@, nn as int);
        assert(ranges@ =~= seq![(0usize, n)]);
        assert(queue@ =~= seq![(n, 0usize, n, 0usize)]);
        assert((reordered@, region@, ts@, ranges@, queue@) == decomp_start(*tree));
    }
    let mut done = false;
    while !done && queue.len() > 0
        invariant
            is_permutation(reordered@, n as nat),
            region.len() == nn,
            nn == tree.taxa.len(),
            n == tree.ntaxa,
            ts@ == part_sizes_of(*tree, region@),
            ts.len() == nn,
            bits_of(labels).len() == n,
            pending_ok(queue@, n as int),
            ranges.len() >= 1,
            ranges[0] == (0usize, n),
            forall|i: int| 1 <= i < ranges.len() ==> (#[trigger] ranges[i]).0 + 2 <= ranges[i].1 <= n,
            done ==> forall|extra: nat|
                #[trigger] decomp_loop(
                    *tree,
                    max_size as int,
                    decomp_start(*tree),
                    (3 * nn + 1 + extra) as nat,
                ) == (reordered@, region@, ts@, ranges@, queue@),
            !done ==> forall|extra: nat|
                #[trigger] decomp_loop(
                    *tree,
                    max_size as int,
                    decomp_start(*tree),
                    (3 * nn + 1 + extra) as nat,
                ) == decomp_loop(
                    *tree,
                    max_size as int,
                    (reordered@, region@, ts@, ranges@, queue@),
                    fuel + extra,
                ),
            fuel >= 3 * nonself(region@, nn as int) + queue.len(),
        decreases 3 * nonself(region@, nn as int) + queue.len() + if done { 0int } else { 1 },
    {
        let ghost q0 = queue@;
        let ghost r0 = region@;
        let ghost o0 = reordered@;
        let ghost g0 = ranges@;
        let ghost t0 = ts@;
        let ghost f0 = fuel;
        let (size, lb, ub, root) = pop_largest(&mut queue);
        let ghost pick = pick_upto(q0, q0.len() as int);
        assert(q0[pick] == (size, lb, ub, root));
        assert(pending_ok(queue@, n as int)) by {
            assert forall|i: int| 0 <= i < queue.len() implies (#[trigger] queue[i]).1 <= queue[i].2
                <= n && queue[i].0 == queue[i].2 - queue[i].1 by {
                if i < pick {
                    assert(queue[i] == q0[i]);
                } else {
                    assert(queue[i] == q0[i + 1]);
                }
            }
        }
        if size <= max_size {
            done = true;
        } else {
            match best_cut(tree, &region, &ts, root, size) {
                None => {
                    proof {
                        fuel = (fuel - 1) as nat;
                    }
                },
                Some(cut) => {
                    split_region(tree, &mut region, cut, root);
                    ts = part_sizes(tree, &region);
                    label_taxa(tree, &region, cut, &mut labels);
                    proof {
                        lemma_permutation_facts(reordered@, n as nat);
                    }
                    let split = stable_partition(&mut reordered, lb, ub, &labels);
                    let ghost g1 = ranges@;
                    if split >= 2 {
                        ranges.push((lb, lb + split));
                    }
                    if size - split >= 2 {
                        ranges.push((lb + split, ub));
                    }
                    assert(ranges@ =~= g0 + halves(lb as int, ub as int, split as int));
                    queue.push((split, lb, lb + split, cut));
                    queue.push((size - split, lb + split, ub, root));
                    proof {
                        fuel = (fuel - 1) as nat;
                    }
                },
            }
        }
        proof {
            if done {
                assert forall|extra: nat| #[trigger] decomp_loop(
                    *tree,
                    max_size as int,
                    decomp_start(*tree),
                    (3 * nn + 1 + extra) as nat,
                ) == (reordered@, region@, ts@, ranges@, queue@) by {
                    assert(decomp_loop(*tree, max_size as int, (o0, r0, t0, g0, q0), f0 + extra)
                        == (reordered@, region@, ts@, ranges@, queue@));
                }
            } else {
                assert forall|extra: nat| #[trigger] decomp_loop(
                    *tree,
                    max_size as int,
                    decomp_start(*tree),
                    (3 * nn + 1 + extra) as nat,
                ) == decomp_loop(
                    *tree,
                    max_size as int,
                    (reordered@, region@, ts@, ranges@, queue@),
                    fuel + extra,
                ) by {
                    assert(decomp_loop(*tree, max_size as int, (o0, r0, t0, g0, q0), f0 + extra)
                        == decomp_loop(
                        *tree,
                        max_size as int,
                        (reordered@, region@, ts@, ranges@, queue@),
                        fuel + extra,
                    ));
                }
            }
        }
    }
    proof {
        lemma_permutation_facts(reordered@, n as nat);
        assert forall|extra: nat| #[trigger] decomp_loop(
            *tree,
            max_size as int,
            decomp_start(*tree),
            (3 * nn + 1 + extra) as nat,
        ) == (reordered@, region@, ts@, ranges@, queue@) by {
            if !done {
                assert(queue.len() == 0);
            }
        }
        assert(decomp_loop(*tree, max_size as int, decomp_start(*tree), (3 * nn + 1 + 0nat) as nat)
            == (reordered@, region@, ts@, ranges@, queue@));
    }
    let mut positions: Vec<usize> = vec![0usize; n];
    let mut p: usize = 0;
    while p < n
        invariant
            p <= n,
            positions.len() == n,
            is_permutation(reordered@, n as nat),
            reordered@.no_duplicates(),
            forall|p2: int| 0 <= p2 < n ==> reordered[p2] < n,
            forall|p2: int| 0 <= p2 < p ==> positions[#[trigger] reordered[p2] as int] == p2,
        decreases n - p,
    {
        let t = reordered[p];
        positions.set(t, p);
        p += 1;
    }
    assert forall|t: int| 0 <= t < n implies reordered[#[trigger] positions[t] as int] == t by {
        assert(reordered@.contains(t as usize));
        let p2 = choose|p2: int| 0 <= p2 < reordered.len() && reordered[p2] == t as usize;
        assert(positions[reordered[p2] as int] == p2);
    }
    TaxaHierarchy { reordered_taxa: reordered, taxa_positions: positions, decomposition_ranges: ranges }
}

} // verus!

//! Scoring: how the queries are cut into chunks, how a cached cell is keyed,
//! and which HMMs each query keeps.
use vstd::prelude::*;

verus! {

broadcast use vstd::seq_lib::group_to_multiset_ensures;

/// Queries per chunk when the work is split evenly.
pub const DEFAULT_CHUNK_SIZE: usize = 1000;

/// Fewest queries per chunk.
pub const MIN_CHUNK_SIZE: usize = 400;

/// How many HMMs each query keeps.
pub const TOP_HITS: usize = 10;

/// `q / w` rounded up.
pub open spec fn ceil_div(q: int, w: int) -> int {
    (q + w - 1) / w
}

/// Queries per chunk: an even share of the queries per worker, rounded up,
/// held between `MIN_CHUNK_SIZE` and `DEFAULT_CHUNK_SIZE`.
pub fn chunk_size(num_queries: usize, num_workers: usize) -> (r: usize)
    requires
        num_workers > 0,
    ensures
        r == if ceil_div(num_queries as int, num_workers as int) > DEFAULT_CHUNK_SIZE {
            DEFAULT_CHUNK_SIZE as int
        } else if ceil_div(num_queries as int, num_workers as int) < MIN_CHUNK_SIZE {
            MIN_CHUNK_SIZE as int
        } else {
            ceil_div(num_queries as int, num_workers as int)
        },
{
    let base = num_queries / num_workers;
    let share = if num_queries % num_workers == 0 {
        base
    } else {
        assert(base < num_queries) by (nonlinear_arith)
            requires
                base == num_queries / num_workers,
                num_queries % num_workers != 0,
                num_workers > 0,
        ;
        base + 1
    };
    assert(share == ceil_div(num_queries as int, num_workers as int)) by (nonlinear_arith)
        requires
            base == num_queries / num_workers,
            share == if num_queries % num_workers == 0 {
                base as int
            } else {
                base + 1
            },
            num_workers > 0,
            num_queries >= 0,
    ;
    if share > DEFAULT_CHUNK_SIZE {
        DEFAULT_CHUNK_SIZE
    } else if share < MIN_CHUNK_SIZE {
        MIN_CHUNK_SIZE
    } else {
        share
    }
}

/// The `n` low bytes of `x`, most significant first.
pub open spec fn be_bytes(x: nat, n: nat) -> Seq<u8>
    decreases n,
{
    if n == 0 {
        seq![]
    } else {
        be_bytes(x / 256, (n - 1) as nat).push((x % 256) as u8)
    }
}

fn push_be_bytes(out: &mut Vec<u8>, x: u64, n: usize)
    requires
        n <= 8,
    ensures
        final(out)@ == old(out)@ + be_bytes(x as nat, n as nat),
    decreases n,
{
    if n > 0 {
        push_be_bytes(out, x / 256, n - 1);
        out.push((x % 256) as u8);
        assert(final(out)@ =~= old(out)@ + be_bytes(x as nat, n as nat));
    }
}

/// Key of the cached search result of one chunk against one HMM: both ids
/// as eight bytes, big-endian, the chunk first.
pub fn cache_key(chunk_id: u64, hmm_id: u64) -> (r: Vec<u8>)
    ensures
        r@ == be_bytes(chunk_id as nat, 8) + be_bytes(hmm_id as nat, 8),
{
    let mut out: Vec<u8> = Vec::new();
    push_be_bytes(&mut out, chunk_id, 8);
    push_be_bytes(&mut out, hmm_id, 8);
    assert(out@ =~= be_bytes(chunk_id as nat, 8) + be_bytes(hmm_id as nat, 8));
    out
}

/// `a` ranks before `b`: a higher score, or an equal score and a smaller id.
pub open spec fn ranks_before(a: (u32, u64), b: (u32, u64)) -> bool {
    a.1 > b.1 || (a.1 == b.1 && a.0 < b.0)
}

/// What a selection of the best `k` of `cands` satisfies: `chosen` and
/// `rest` split `cands`; `chosen` holds `k` of them (all, if fewer), in rank
/// order; nothing left out ranks before anything chosen.
pub open spec fn is_top_selection(
    cands: Seq<(u32, u64)>,
    k: int,
    chosen: Seq<(u32, u64)>,
    rest: Seq<(u32, u64)>,
) -> bool {
    &&& chosen.to_multiset().add(rest.to_multiset()) == cands.to_multiset()
    &&& chosen.len() == if cands.len() < k {
        cands.len() as int
    } else {
        k
    }
    &&& forall|a: int, b: int| 0 <= a < b < chosen.len() ==> !ranks_before(chosen[b], chosen[a])
    &&& forall|a: int, b: int|
        0 <= a < chosen.len() && 0 <= b < rest.len() ==> !ranks_before(rest[b], chosen[a])
}

/// Splits `(hmm id, adjusted score)` pairs into the best `k`, in rank order,
/// and the others.
pub fn split_top_hits(cands: Vec<(u32, u64)>, k: usize) -> (r: (Vec<(u32, u64)>, Vec<(u32, u64)>))
    ensures
        is_top_selection(cands@, k as int, r.0@, r.1@),
{
    let ghost all = cands@;
    let mut rest = cands;
    let mut chosen: Vec<(u32, u64)> = Vec::new();
    while chosen.len() < k && rest.len() > 0
        invariant
            chosen@.to_multiset().add(rest@.to_multiset()) == all.to_multiset(),
            chosen.len() + rest.len() == all.len(),
            chosen.len() <= k,
            forall|a: int, b: int|
                0 <= a < b < chosen.len() ==> !ranks_before(chosen[b], chosen[a]),
            forall|a: int, b: int|
                0 <= a < chosen.len() && 0 <= b < rest.len() ==> !ranks_before(rest[b], chosen[a]),
        decreases rest.len(),
    {
        let mut best: usize = 0;
        let mut t: usize = 1;
        while t < rest.len()
            invariant
                0 <= best < rest.len(),
                1 <= t <= rest.len(),
                forall|u: int| 0 <= u < t ==> !ranks_before(rest[u], rest[best as int]),
            decreases rest.len() - t,
        {
            let a = rest[t];
            let b = rest[best];
            if a.1 > b.1 || (a.1 == b.1 && a.0 < b.0) {
                best = t;
            }
            t += 1;
        }
        let ghost r0 = rest@;
        let x = rest.remove(best);
        proof {
            vstd::seq_lib::to_multiset_remove(r0, best as int);
            vstd::seq_lib::to_multiset_build(chosen@, x);
            assert(r0.to_multiset().contains(x));
        }
        chosen.push(x);
        proof {
            assert(chosen@.to_multiset().add(rest@.to_multiset()) =~= all.to_multiset());
            assert forall|a: int, b: int|
                0 <= a < chosen.len() && 0 <= b < rest.len() implies !ranks_before(
                rest[b],
                chosen[a],
            ) by {
                if b < best {
                    assert(rest[b] == r0[b]);
                } else {
                    assert(rest[b] == r0[b + 1]);
                }
            }
            assert forall|a: int, b: int| 0 <= a < b < chosen.len() implies !ranks_before(
                chosen[b],
                chosen[a],
            ) by {
                if b == chosen.len() - 1 {
                    assert(r0[best as int] == x);
                }
            }
        }
    }
    (chosen, rest)
}

/// The best `TOP_HITS` of one query's `(hmm id, adjusted score)` pairs, in
/// rank order.
pub fn select_top_hits(cands: Vec<(u32, u64)>) -> (r: Vec<(u32, u64)>)
    ensures
        exists|rest: Seq<(u32, u64)>| is_top_selection(cands@, TOP_HITS as int, r@, rest),
{
    let (chosen, rest) = split_top_hits(cands, TOP_HITS);
    assert(is_top_selection(cands@, TOP_HITS as int, chosen@, rest@));
    chosen
}

} // verus!

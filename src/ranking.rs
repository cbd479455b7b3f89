//! Ranking chunks by similarity to a query. Each score is the bit pattern of
//! an IEEE-754 single-precision number; a chunk without a score (its embedding
//! and the query differ in length) takes no part in the ranking.
use crate::cache::{Chunk, ChunkView};
use vstd::prelude::*;
use vstd::set_lib::{lemma_int_range, lemma_len_subset, set_int_range};

verus! {

/// Where a single-precision number stands in the order of the reals, as an
/// integer: positive and negative zero are equal, infinities are extremes, and
/// a NaN stands below every number.
pub open spec fn score_rank(bits: u32) -> int {
    let negative = bits >= 0x8000_0000;
    let magnitude = if negative {
        bits - 0x8000_0000
    } else {
        bits as int
    };
    if magnitude > 0x7F80_0000 {
        -0x8000_0000
    } else if negative {
        -magnitude
    } else {
        magnitude
    }
}

/// The rank of a score.
pub fn rank_of(bits: u32) -> (r: i64)
    ensures
        r == score_rank(bits),
{
    let negative = bits >= 0x8000_0000;
    let magnitude: u32 = if negative {
        bits - 0x8000_0000
    } else {
        bits
    };
    if magnitude > 0x7F80_0000 {
        -0x8000_0000
    } else if negative {
        -(magnitude as i64)
    } else {
        magnitude as i64
    }
}

/// Whether chunk `i` has a score.
pub open spec fn scored(s: Seq<Option<u32>>, i: int) -> bool {
    0 <= i < s.len() && s[i] is Some
}

/// Whether scored chunk `i` ranks before scored chunk `j`: a higher score
/// first, and of equal scores the earlier chunk first.
pub open spec fn ranks_before(s: Seq<Option<u32>>, i: int, j: int) -> bool {
    let ri = score_rank(s[i]->0);
    let rj = score_rank(s[j]->0);
    ri > rj || (ri == rj && i < j)
}

/// Whether `idx` lists the best `n` scored chunks (all of them, if fewer) in
/// ranking order.
pub open spec fn is_ranking(s: Seq<Option<u32>>, n: nat, idx: Seq<usize>) -> bool {
    &&& idx.len() <= n
    &&& forall|a: int| 0 <= a < idx.len() ==> scored(s, #[trigger] idx[a] as int)
    &&& forall|a: int, b: int|
        0 <= a < b < idx.len() ==> ranks_before(s, #[trigger] idx[a] as int, #[trigger] idx[b] as int)
    &&& forall|i: int|
        scored(s, i) && !idx.contains(i as usize) ==> idx.len() == n && forall|a: int|
            0 <= a < idx.len() ==> ranks_before(s, #[trigger] idx[a] as int, i)
}

/// The ranking of the scores `s` cut at `n` chunks.
pub open spec fn ranking(s: Seq<Option<u32>>, n: nat) -> Seq<usize> {
    choose|idx: Seq<usize>| is_ranking(s, n, idx)
}

/// The best scored chunk not yet taken, if any: the first of the highest rank.
fn best_untaken(scores: &Vec<Option<u32>>, taken: &Vec<bool>) -> (r: Option<usize>)
    requires
        taken.len() == scores.len(),
    ensures
        match r {
            Some(b) => {
                &&& scored(scores@, b as int)
                &&& !taken[b as int]
                &&& forall|j: int|
                    scored(scores@, j) && !taken[j] && j != b ==> ranks_before(scores@, b as int, j)
            },
            None => forall|j: int| scored(scores@, j) ==> taken[j],
        },
{
    let mut best: Option<usize> = None;
    let mut best_rank: i64 = 0;
    let mut j: usize = 0;
    while j < scores.len()
        invariant
            taken.len() == scores.len(),
            j <= scores.len(),
            match best {
                Some(b) => {
                    &&& b < j
                    &&& scored(scores@, b as int)
                    &&& !taken[b as int]
                    &&& best_rank == score_rank(scores@[b as int]->0)
                    &&& forall|i: int|
                        0 <= i < j && scored(scores@, i) && !taken[i] && i != b ==> ranks_before(
                            scores@,
                            b as int,
                            i,
                        )
                },
                None => forall|i: int| 0 <= i < j && scored(scores@, i) ==> taken[i],
            },
        decreases scores.len() - j,
    {
        if !taken[j] {
            if let Some(bits) = scores[j] {
                let r = rank_of(bits);
                match best {
                    Some(_) => {
                        if r > best_rank {
                            best = Some(j);
                            best_rank = r;
                        }
                    },
                    None => {
                        best = Some(j);
                        best_rank = r;
                    },
                }
            }
        }
        j = j + 1;
    }
    best
}

/// The indices of the best `top_n` scored chunks, best first; of equal scores
/// the earlier chunk comes first. Unscored chunks never appear.
pub fn top_indices(scores: &Vec<Option<u32>>, top_n: usize) -> (r: Vec<usize>)
    ensures
        is_ranking(scores@, top_n as nat, r@),
        r@ == ranking(scores@, top_n as nat),
{
    let mut taken: Vec<bool> = Vec::new();
    let mut i: usize = 0;
    while i < scores.len()
        invariant
            i <= scores.len(),
            taken.len() == i,
            forall|j: int| 0 <= j < i ==> !taken[j],
        decreases scores.len() - i,
    {
        taken.push(false);
        i = i + 1;
    }
    let mut idx: Vec<usize> = Vec::new();
    let mut exhausted = false;
    while idx.len() < top_n && !exhausted
        invariant
            taken.len() == scores.len(),
            idx.len() <= top_n,
            forall|a: int| 0 <= a < idx.len() ==> scored(scores@, #[trigger] idx@[a] as int),
            forall|a: int| 0 <= a < idx.len() ==> taken[#[trigger] idx@[a] as int],
            forall|j: int| 0 <= j < taken.len() && taken[j] ==> idx@.contains(j as usize),
            forall|a: int, b: int|
                0 <= a < b < idx.len() ==> ranks_before(
                    scores@,
                    #[trigger] idx@[a] as int,
                    #[trigger] idx@[b] as int,
                ),
            forall|a: int, j: int|
                0 <= a < idx.len() && scored(scores@, j) && !taken[j] ==> #[trigger] ranks_before(
                    scores@,
                    idx@[a] as int,
                    j,
                ),
            exhausted ==> forall|j: int| scored(scores@, j) ==> taken[j],
        decreases top_n - idx.len(), if exhausted { 0int } else { 1int },
    {
        match best_untaken(scores, &taken) {
            Some(b) => {
                let ghost prev = idx@;
                idx.push(b);
                taken.set(b, true);
                assert(idx@[prev.len() as int] == b);
                assert forall|j: int| 0 <= j < taken.len() && taken[j] implies idx@.contains(
                    j as usize,
                ) by {
                    if j != b {
                        let a = choose|a: int| 0 <= a < prev.len() && prev[a] == j as usize;
                        assert(idx@[a] == j as usize);
                    }
                }
                assert forall|a: int, c: int| 0 <= a < c < idx.len() implies ranks_before(
                    scores@,
                    #[trigger] idx@[a] as int,
                    #[trigger] idx@[c] as int,
                ) by {
                    if c == prev.len() {
                        assert(idx@[a] == prev[a]);
                    }
                }
            },
            None => {
                exhausted = true;
            },
        }
    }
    proof {
        assert forall|j: int| scored(scores@, j) && !idx@.contains(j as usize) implies idx@.len()
            == top_n && forall|a: int|
            0 <= a < idx@.len() ==> ranks_before(scores@, #[trigger] idx@[a] as int, j) by {
            assert(!taken[j]) by {
                if taken[j] {
                    assert(idx@.contains(j as usize));
                }
            }
        }
        lemma_ranking_unique(scores@, top_n as nat, idx@, ranking(scores@, top_n as nat));
    }
    idx
}

/// The chunks of the ranking of `scores` cut at `n`.
pub open spec fn ranked_chunks(chunks: Seq<Chunk>, s: Seq<Option<u32>>, n: nat) -> Seq<ChunkView> {
    ranking(s, n).map_values(|i: usize| chunks[i as int]@)
}

/// The `top_n` chunks most similar to the query, most similar first; of equal
/// scores the earlier chunk comes first. `scores[i]` is the similarity of
/// `chunks[i]`, or nothing where the two embeddings differ in length: such a
/// chunk is left out. With `top_n` beyond the number of scored chunks, all of
/// them are returned, ranked.
pub fn find_similar_chunks(chunks: &Vec<Chunk>, scores: &Vec<Option<u32>>, top_n: usize) -> (r:
    Vec<Chunk>)
    requires
        scores.len() == chunks.len(),
    ensures
        r@.map_values(|c: Chunk| c@) == ranked_chunks(chunks@, scores@, top_n as nat),
{
    let idx = top_indices(scores, top_n);
    let ghost want = ranked_chunks(chunks@, scores@, top_n as nat);
    let mut out: Vec<Chunk> = Vec::new();
    let mut a: usize = 0;
    while a < idx.len()
        invariant
            scores.len() == chunks.len(),
            is_ranking(scores@, top_n as nat, idx@),
            idx@ == ranking(scores@, top_n as nat),
            want == ranked_chunks(chunks@, scores@, top_n as nat),
            a <= idx.len(),
            out@.map_values(|c: Chunk| c@) == want.take(a as int),
        decreases idx.len() - a,
    {
        assert(scored(scores@, idx@[a as int] as int));
        let c = chunks[idx[a]].duplicate();
        let ghost prev = out@.map_values(|c: Chunk| c@);
        out.push(c);
        assert(out@.map_values(|c: Chunk| c@) =~= prev.push(c@));
        assert(want.take(a + 1) =~= want.take(a as int).push(want[a as int]));
        a = a + 1;
    }
    assert(want.take(idx.len() as int) =~= want);
    out
}

/// With a cut beyond the number of chunks, the ranking holds every scored
/// chunk, each once and in ranking order.
pub proof fn lemma_ranking_complete(s: Seq<Option<u32>>, n: nat, idx: Seq<usize>)
    requires
        is_ranking(s, n, idx),
        n > s.len(),
    ensures
        forall|i: int| scored(s, i) ==> idx.contains(i as usize),
        idx.no_duplicates(),
        forall|a: int, b: int|
            0 <= a < b < idx.len() ==> ranks_before(s, #[trigger] idx[a] as int, #[trigger] idx[b] as int),
{
    assert forall|a: int, b: int| 0 <= a < idx.len() && 0 <= b < idx.len() && a != b implies idx[a]
        != idx[b] by {
        if a < b {
            assert(ranks_before(s, idx[a] as int, idx[b] as int));
        } else {
            assert(ranks_before(s, idx[b] as int, idx[a] as int));
        }
    }
    let ints = idx.map_values(|u: usize| u as int);
    assert(ints.no_duplicates()) by {
        assert forall|a: int, b: int| 0 <= a < ints.len() && 0 <= b < ints.len() && a != b implies ints[a]
            != ints[b] by {
            assert(idx[a] != idx[b]);
        }
    }
    ints.unique_seq_to_set();
    lemma_int_range(0, s.len() as int);
    assert(ints.to_set().subset_of(set_int_range(0, s.len() as int))) by {
        assert forall|x: int| ints.to_set().contains(x) implies set_int_range(0, s.len() as int).contains(x) by {
            let a = choose|a: int| 0 <= a < ints.len() && ints[a] == x;
            assert(scored(s, idx[a] as int));
        }
    }
    lemma_len_subset(ints.to_set(), set_int_range(0, s.len() as int));
}

/// The ranking is determined by the scores and the cut: asking twice for the
/// best `n` of the same scores gives the same chunks in the same order.
pub proof fn lemma_ranking_unique(s: Seq<Option<u32>>, n: nat, x: Seq<usize>, y: Seq<usize>)
    requires
        is_ranking(s, n, x),
        is_ranking(s, n, y),
    ensures
        x == y,
{
    assert forall|k: int| 0 <= k < x.len() && k < y.len() implies x[k] == y[k] by {
        lemma_ranking_prefix(s, n, x, y, k);
    }
    if x.len() != y.len() {
        let (short, long) = if x.len() < y.len() {
            (x, y)
        } else {
            (y, x)
        };
        let i = long[short.len() as int];
        assert(scored(s, i as int));
        if short.contains(i) {
            let p = choose|p: int| 0 <= p < short.len() && short[p] == i;
            assert(short[p] == long[p]);
            assert(ranks_before(s, long[p] as int, long[short.len() as int] as int));
        }
    }
    assert(x =~= y);
}

proof fn lemma_ranking_prefix(s: Seq<Option<u32>>, n: nat, x: Seq<usize>, y: Seq<usize>, k: int)
    requires
        is_ranking(s, n, x),
        is_ranking(s, n, y),
        0 <= k < x.len(),
        k < y.len(),
    ensures
        x[k] == y[k],
    decreases k,
{
    assert forall|j: int| 0 <= j < k implies x[j] == y[j] by {
        lemma_ranking_prefix(s, n, x, y, j);
    }
    if x[k] != y[k] {
        assert(scored(s, x[k] as int) && scored(s, y[k] as int));
        // Each of x[k] and y[k] ranks before the other: in each sequence the
        // other element comes later or is missing.
        if x.contains(y[k]) {
            let p = choose|p: int| 0 <= p < x.len() && x[p] == y[k];
            if p < k {
                assert(y[p] == x[p]);
                assert(ranks_before(s, y[p] as int, y[k] as int));
            }
            assert(ranks_before(s, x[k] as int, x[p] as int));
        }
        if y.contains(x[k]) {
            let q = choose|q: int| 0 <= q < y.len() && y[q] == x[k];
            if q < k {
                assert(x[q] == y[q]);
                assert(ranks_before(s, x[q] as int, x[k] as int));
            }
            assert(ranks_before(s, y[k] as int, y[q] as int));
        }
        assert(ranks_before(s, x[k] as int, y[k] as int));
        assert(ranks_before(s, y[k] as int, x[k] as int));
    }
}

} // verus!

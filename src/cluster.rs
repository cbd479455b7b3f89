//! The decisions of a bounded k-means pass over the corpus: a fixed number of
//! rounds, each assigning chunks to centroids and moving centroids to means.
//! Centroids and similarities are single-precision vectors and numbers, carried
//! as bit patterns; their arithmetic is done by the caller, who hands the
//! results in.
use crate::cache::Chunk;
use crate::ranking::{rank_of, score_rank};
use vstd::prelude::*;

verus! {

/// The number of refinement rounds.
pub const ROUNDS: usize = 5;

/// The bit pattern of the single-precision number -1.0: the similarity given
/// to a centroid whose length differs from the chunk's embedding.
pub const MINUS_ONE_BITS: u32 = 0xBF80_0000;

#[derive(Debug, PartialEq, Eq)]
pub enum ClusterError {
    /// No cluster was asked for.
    NoClusters,
    /// More clusters were asked for than there are chunks.
    TooManyClusters,
}

/// Relies on rand's `seq::index::sample`, driven by the thread-local generator:
/// `amount` distinct indices below `length`, in random order. It panics when
/// `amount > length`, which `requires` leaves out.
#[verifier::external_body]
fn sample_indices(length: usize, amount: usize) -> (r: Vec<usize>)
    requires
        amount <= length,
    ensures
        r@.len() == amount,
        forall|i: int| 0 <= i < r@.len() ==> r@[i] < length,
        r@.no_duplicates(),
{
    rand::seq::index::sample(&mut rand::thread_rng(), length, amount).into_vec()
}

/// The embeddings of the chunks at `picks`, in that order.
pub fn centroids_from_picks(chunks: &Vec<Chunk>, picks: &Vec<usize>) -> (r: Vec<Vec<u32>>)
    requires
        forall|i: int| 0 <= i < picks@.len() ==> picks@[i] < chunks@.len(),
    ensures
        r@.len() == picks@.len(),
        forall|j: int| 0 <= j < r@.len() ==> (#[trigger] r@[j])@ == chunks@[picks@[j] as int].embedding@,
{
    let mut r: Vec<Vec<u32>> = Vec::new();
    let mut j: usize = 0;
    while j < picks.len()
        invariant
            j <= picks@.len(),
            forall|i: int| 0 <= i < picks@.len() ==> picks@[i] < chunks@.len(),
            r@.len() == j,
            forall|i: int| 0 <= i < j ==> (#[trigger] r@[i])@ == chunks@[picks@[i] as int].embedding@,
        decreases picks.len() - j,
    {
        let e = chunks[picks[j]].embedding.clone();
        assert(e@ =~= chunks@[picks@[j as int] as int].embedding@);
        r.push(e);
        j = j + 1;
    }
    r
}

/// Whether `k` clusters can be formed from `n` chunks.
pub open spec fn cluster_count_ok(n: nat, k: nat) -> bool {
    1 <= k <= n
}

/// How a similarity counts when choosing a centroid: a missing one counts as -1.0.
pub open spec fn assigned_rank(s: Option<u32>) -> int {
    match s {
        Some(b) => score_rank(b),
        None => score_rank(MINUS_ONE_BITS),
    }
}

/// Whether centroid `r` is the first of the most similar ones.
pub open spec fn is_best(s: Seq<Option<u32>>, r: int) -> bool {
    &&& 0 <= r < s.len()
    &&& forall|j: int| 0 <= j < s.len() ==> assigned_rank(#[trigger] s[j]) <= assigned_rank(s[r])
    &&& forall|j: int| 0 <= j < r ==> assigned_rank(#[trigger] s[j]) < assigned_rank(s[r])
}

/// The centroid a chunk is assigned to, given its similarity to each
/// centroid: the most similar, the lowest index among equals; 0 when there is
/// no centroid.
pub fn best_centroid(sims: &Vec<Option<u32>>) -> (r: usize)
    ensures
        sims@.len() == 0 ==> r == 0,
        sims@.len() > 0 ==> is_best(sims@, r as int),
{
    if sims.len() == 0 {
        return 0;
    }
    let mut best: usize = 0;
    let mut best_rank: i64 = match sims[0] {
        Some(b) => rank_of(b),
        None => rank_of(MINUS_ONE_BITS),
    };
    let mut j: usize = 1;
    while j < sims.len()
        invariant
            1 <= j <= sims@.len(),
            best < j,
            best_rank == assigned_rank(sims@[best as int]),
            forall|i: int| 0 <= i < j ==> assigned_rank(#[trigger] sims@[i]) <= best_rank,
            forall|i: int| 0 <= i < best ==> assigned_rank(#[trigger] sims@[i]) < best_rank,
        decreases sims.len() - j,
    {
        let r = match sims[j] {
            Some(b) => rank_of(b),
            None => rank_of(MINUS_ONE_BITS),
        };
        if r > best_rank {
            best = j;
            best_rank = r;
        }
        j = j + 1;
    }
    best
}

/// The centroid of every chunk: `sims[i][j]` is the similarity of chunk `i`
/// to centroid `j`.
pub fn assign_all(sims: &Vec<Vec<Option<u32>>>) -> (r: Vec<usize>)
    ensures
        r@.len() == sims@.len(),
        forall|i: int|
            0 <= i < r@.len() ==> (sims@[i]@.len() == 0 ==> #[trigger] r@[i] == 0) && (sims@[i]@.len()
                > 0 ==> is_best(sims@[i]@, r@[i] as int)),
{
    let mut r: Vec<usize> = Vec::new();
    let mut i: usize = 0;
    while i < sims.len()
        invariant
            i <= sims@.len(),
            r@.len() == i,
            forall|t: int|
                0 <= t < i ==> (sims@[t]@.len() == 0 ==> #[trigger] r@[t] == 0) && (sims@[t]@.len()
                    > 0 ==> is_best(sims@[t]@, r@[t] as int)),
        decreases sims.len() - i,
    {
        let b = best_centroid(&sims[i]);
        r.push(b);
        i = i + 1;
    }
    r
}

/// The chunks assigned to cluster `j`, in corpus order.
pub open spec fn members_of(assignments: Seq<usize>, j: int) -> Seq<usize>
    decreases assignments.len(),
{
    if assignments.len() == 0 {
        Seq::empty()
    } else {
        let rest = members_of(assignments.drop_last(), j);
        if assignments.last() == j {
            rest.push((assignments.len() - 1) as usize)
        } else {
            rest
        }
    }
}

/// The members of each of the `k` clusters, in corpus order; a cluster may be empty.
pub fn cluster_members(assignments: &Vec<usize>, k: usize) -> (r: Vec<Vec<usize>>)
    ensures
        r@.len() == k,
        forall|j: int| 0 <= j < k ==> (#[trigger] r@[j])@ == members_of(assignments@, j),
{
    let mut r: Vec<Vec<usize>> = Vec::new();
    let mut j: usize = 0;
    while j < k
        invariant
            j <= k,
            r@.len() == j,
            forall|t: int| 0 <= t < j ==> (#[trigger] r@[t])@ == members_of(assignments@, t),
        decreases k - j,
    {
        let mut group: Vec<usize> = Vec::new();
        let mut i: usize = 0;
        while i < assignments.len()
            invariant
                i <= assignments@.len(),
                group@ == members_of(assignments@.take(i as int), j as int),
            decreases assignments.len() - i,
        {
            assert(assignments@.take(i + 1).drop_last() =~= assignments@.take(i as int));
            if assignments[i] == j {
                group.push(i);
            }
            i = i + 1;
        }
        assert(assignments@.take(assignments@.len() as int) =~= assignments@);
        r.push(group);
        j = j + 1;
    }
    r
}

/// Moves each cluster with members to its new centroid `means[j]`, the mean
/// of its members' embeddings; a cluster without members keeps its centroid.
pub fn refresh_centroids(centroids: &mut Vec<Vec<u32>>, groups: &Vec<Vec<usize>>, means: &Vec<Vec<u32>>)
    requires
        groups@.len() == old(centroids)@.len(),
        means@.len() == old(centroids)@.len(),
    ensures
        final(centroids)@.len() == old(centroids)@.len(),
        forall|j: int|
            0 <= j < old(centroids)@.len() ==> (#[trigger] final(centroids)@[j])@ == if groups@[j]@.len()
                > 0 {
                means@[j]@
            } else {
                old(centroids)@[j]@
            },
{
    let mut j: usize = 0;
    while j < groups.len()
        invariant
            j <= groups@.len(),
            groups@.len() == old(centroids)@.len(),
            means@.len() == old(centroids)@.len(),
            centroids@.len() == old(centroids)@.len(),
            forall|t: int|
                0 <= t < j ==> (#[trigger] centroids@[t])@ == if groups@[t]@.len() > 0 {
                    means@[t]@
                } else {
                    old(centroids)@[t]@
                },
            forall|t: int| j <= t < centroids@.len() ==> #[trigger] centroids@[t] == old(centroids)@[t],
        decreases groups.len() - j,
    {
        if groups[j].len() > 0 {
            let m = means[j].clone();
            assert(m@ =~= means@[j as int]@);
            centroids.set(j, m);
        }
        j = j + 1;
    }
}

/// What a clustering run holds: the number of clusters and of chunks, the
/// rounds done, the centroids and the cluster of each chunk.
pub ghost struct ClusterRunView {
    pub k: nat,
    pub n: nat,
    pub rounds: nat,
    pub centroids: Seq<Seq<u32>>,
    pub assignments: Seq<usize>,
}

/// A clustering run of `ROUNDS` rounds. In each round the caller scores every
/// chunk against the centroids and hands the scores to `assign`, then averages
/// the members of each cluster and hands the means to `update`.
pub struct ClusterRun {
    k: usize,
    rounds: usize,
    centroids: Vec<Vec<u32>>,
    assignments: Vec<usize>,
}

impl View for ClusterRun {
    type V = ClusterRunView;

    closed spec fn view(&self) -> ClusterRunView {
        ClusterRunView {
            k: self.k as nat,
            n: self.assignments@.len(),
            rounds: self.rounds as nat,
            centroids: self.centroids@.map_values(|c: Vec<u32>| c@),
            assignments: self.assignments@,
        }
    }
}

/// Whether every chunk is assigned to one of `k` clusters.
pub open spec fn assignments_in_range(assignments: Seq<usize>, k: nat) -> bool {
    forall|i: int| 0 <= i < assignments.len() ==> #[trigger] assignments[i] < k
}

impl ClusterRun {
    pub closed spec fn wf(&self) -> bool {
        &&& self.k >= 1
        &&& self.centroids@.len() == self.k
        &&& assignments_in_range(self.assignments@, self.k as nat)
        &&& self.rounds <= ROUNDS
    }

    /// A run over `chunks` with `k` clusters: the centroids are the embeddings
    /// of `k` distinct chunks drawn at random and every chunk starts in
    /// cluster 0. Fails when `k` is zero or exceeds the number of chunks.
    pub fn start(chunks: &Vec<Chunk>, k: usize) -> (r: Result<ClusterRun, ClusterError>)
        ensures
            k == 0 ==> r matches Err(ClusterError::NoClusters),
            k > chunks@.len() && k != 0 ==> r matches Err(ClusterError::TooManyClusters),
            cluster_count_ok(chunks@.len(), k as nat) ==> r is Ok,
            r matches Ok(run) ==> {
                &&& run.wf()
                &&& run@.k == k
                &&& run@.n == chunks@.len()
                &&& run@.rounds == 0
                &&& run@.assignments == Seq::new(chunks@.len(), |i: int| 0usize)
                &&& exists|picks: Seq<usize>|
                    {
                        &&& picks.len() == k
                        &&& picks.no_duplicates()
                        &&& forall|j: int|
                            0 <= j < k ==> picks[j] < chunks@.len() && #[trigger] run@.centroids[j]
                                == chunks@[picks[j] as int].embedding@
                    }
            },
    {
        if k == 0 {
            return Err(ClusterError::NoClusters);
        }
        if k > chunks.len() {
            return Err(ClusterError::TooManyClusters);
        }
        let picks = sample_indices(chunks.len(), k);
        let centroids = centroids_from_picks(chunks, &picks);
        let mut assignments: Vec<usize> = Vec::new();
        let mut i: usize = 0;
        while i < chunks.len()
            invariant
                i <= chunks@.len(),
                assignments@ == Seq::new(i as nat, |t: int| 0usize),
            decreases chunks.len() - i,
        {
            assignments.push(0);
            i = i + 1;
            assert(assignments@ =~= Seq::new(i as nat, |t: int| 0usize));
        }
        let ghost c0 = centroids@;
        let run = ClusterRun { k, rounds: 0, centroids, assignments };
        assert forall|j: int| 0 <= j < k implies picks@[j] < chunks@.len() && #[trigger] run@.centroids[j]
            == chunks@[picks@[j] as int].embedding@ by {
            assert(run@.centroids[j] == c0[j]@);
        }
        Ok(run)
    }

    /// The current centroids.
    pub fn centroids(&self) -> (r: &Vec<Vec<u32>>)
        ensures
            r@.map_values(|c: Vec<u32>| c@) == self@.centroids,
    {
        &self.centroids
    }

    /// Whether all rounds are done.
    pub fn is_finished(&self) -> (r: bool)
        ensures
            r == (self@.rounds == ROUNDS),
    {
        self.rounds == ROUNDS
    }

    /// Assigns every chunk to its most similar centroid, the lowest index among
    /// equals; `sims[i][j]` is the similarity of chunk `i` to centroid `j`.
    /// Returns the members of each cluster.
    pub fn assign(&mut self, sims: &Vec<Vec<Option<u32>>>) -> (groups: Vec<Vec<usize>>)
        requires
            old(self).wf(),
            sims@.len() == old(self)@.n,
            forall|i: int| 0 <= i < sims@.len() ==> (#[trigger] sims@[i])@.len() == old(self)@.k,
        ensures
            final(self).wf(),
            final(self)@ == (ClusterRunView { assignments: final(self)@.assignments, ..old(self)@ }),
            forall|i: int|
                0 <= i < old(self)@.n ==> is_best(sims@[i]@, #[trigger] final(self)@.assignments[i] as int),
            groups@.len() == old(self)@.k,
            forall|j: int|
                0 <= j < old(self)@.k ==> (#[trigger] groups@[j])@ == members_of(
                    final(self)@.assignments,
                    j,
                ),
    {
        let a = assign_all(sims);
        assert forall|i: int| 0 <= i < a@.len() implies #[trigger] a@[i] < self.k by {
            assert(sims@[i]@.len() == self.k);
            assert(is_best(sims@[i]@, a@[i] as int));
        }
        let ghost before = self@;
        self.assignments = a;
        assert(self@.centroids == before.centroids);
        cluster_members(&self.assignments, self.k)
    }

    /// Ends a round: each cluster with members moves to `means[j]`, the mean of
    /// its members' embeddings, and a cluster without members keeps its
    /// centroid. Once all rounds are done nothing changes.
    pub fn update(&mut self, means: &Vec<Vec<u32>>)
        requires
            old(self).wf(),
            means@.len() == old(self)@.k,
        ensures
            final(self).wf(),
            old(self)@.rounds == ROUNDS ==> final(self)@ == old(self)@,
            old(self)@.rounds < ROUNDS ==> {
                &&& final(self)@.rounds == old(self)@.rounds + 1
                &&& final(self)@.assignments == old(self)@.assignments
                &&& final(self)@.k == old(self)@.k
                &&& final(self)@.centroids.len() == old(self)@.k
                &&& forall|j: int|
                    0 <= j < old(self)@.k ==> #[trigger] final(self)@.centroids[j] == if members_of(
                        old(self)@.assignments,
                        j,
                    ).len() > 0 {
                        means@[j]@
                    } else {
                        old(self)@.centroids[j]
                    }
            },
    {
        if self.rounds == ROUNDS {
            return;
        }
        let groups = cluster_members(&self.assignments, self.k);
        let ghost before = self.centroids@;
        refresh_centroids(&mut self.centroids, &groups, means);
        self.rounds = self.rounds + 1;
        assert forall|j: int| 0 <= j < self.k implies #[trigger] self@.centroids[j] == if members_of(
            self.assignments@,
            j,
        ).len() > 0 {
            means@[j]@
        } else {
            before[j]@
        } by {
            assert(groups@[j]@ == members_of(self.assignments@, j));
        }
    }

    /// The members of each cluster, in corpus order; a cluster may be empty.
    pub fn clusters(&self) -> (r: Vec<Vec<usize>>)
        requires
            self.wf(),
        ensures
            r@.len() == self@.k,
            forall|j: int| 0 <= j < self@.k ==> (#[trigger] r@[j])@ == members_of(self@.assignments, j),
    {
        cluster_members(&self.assignments, self.k)
    }
}

} // verus!

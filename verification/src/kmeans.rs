//! Lloyd's k-means over colour samples.
//!
//! One iteration assigns every sample to its nearest centroid and then moves
//! each centroid to the mean of the samples assigned to it. Iterating stops
//! when an assignment step changes nothing, or at the iteration cap.

use vstd::prelude::*;
use crate::centroid::{Centroid, all_colours, nearest, nearest_centroid};
use crate::error::AnalysisError;
use crate::seeding::{seeding, choose_seeds};

verus! {

/// The assignment step: for each sample the index of its nearest centroid,
/// the lowest index among centroids at exactly the same distance.
pub open spec fn assignment_of(samples: Seq<[u8; 3]>, centroids: Seq<Centroid>) -> Seq<usize> {
    Seq::new(samples.len(), |i: int| nearest(samples[i], centroids) as usize)
}

/// The number of samples assigned to cluster `c`.
pub open spec fn cluster_size(assignments: Seq<usize>, c: int) -> nat
    decreases assignments.len(),
{
    if assignments.len() == 0 {
        0
    } else {
        cluster_size(assignments.drop_last(), c) + if assignments.last() == c {
            1nat
        } else {
            0nat
        }
    }
}

/// The sum of one channel over the samples assigned to cluster `c`.
pub open spec fn channel_sum(
    samples: Seq<[u8; 3]>,
    assignments: Seq<usize>,
    c: int,
    channel: int,
) -> nat
    decreases assignments.len(),
{
    if assignments.len() == 0 {
        0
    } else {
        channel_sum(samples, assignments.drop_last(), c, channel) + if assignments.last() == c {
            samples[assignments.len() - 1][channel] as nat
        } else {
            0nat
        }
    }
}

/// The mean of the samples assigned to cluster `c`.
pub open spec fn cluster_mean(samples: Seq<[u8; 3]>, assignments: Seq<usize>, c: int) -> Centroid {
    Centroid {
        red_sum: channel_sum(samples, assignments, c, 0) as u128,
        green_sum: channel_sum(samples, assignments, c, 1) as u128,
        blue_sum: channel_sum(samples, assignments, c, 2) as u128,
        count: cluster_size(assignments, c) as u64,
    }
}

/// The update step: each centroid moves to the mean of its cluster; the
/// centroid of a cluster without samples stays where it was.
pub open spec fn updated(
    samples: Seq<[u8; 3]>,
    assignments: Seq<usize>,
    previous: Seq<Centroid>,
) -> Seq<Centroid> {
    Seq::new(
        previous.len(),
        |c: int|
            if cluster_size(assignments, c) == 0 {
                previous[c]
            } else {
                cluster_mean(samples, assignments, c)
            },
    )
}

/// The sizes of the first `k` clusters, added up.
pub open spec fn sizes_total(assignments: Seq<usize>, k: nat) -> nat
    decreases k,
{
    if k == 0 {
        0
    } else {
        sizes_total(assignments, (k - 1) as nat) + cluster_size(assignments, k - 1)
    }
}

/// Every sample is assigned to one of `k` clusters.
pub open spec fn in_range(assignments: Seq<usize>, k: int) -> bool {
    forall|i: int| 0 <= i < assignments.len() ==> (#[trigger] assignments[i]) < k
}

/// Samples of one colour lie in one cluster.
pub open spec fn colours_together(samples: Seq<[u8; 3]>, assignments: Seq<usize>) -> bool {
    forall|i: int, j: int|
        0 <= i < samples.len() && 0 <= j < samples.len() && samples[i] == samples[j]
            ==> #[trigger] assignments[i] == #[trigger] assignments[j]
}

/// How many of the first `k` clusters hold no sample.
pub open spec fn empty_clusters(assignments: Seq<usize>, k: nat) -> nat
    decreases k,
{
    if k == 0 {
        0
    } else {
        empty_clusters(assignments, (k - 1) as nat) + if cluster_size(assignments, k - 1) == 0 {
            1nat
        } else {
            0nat
        }
    }
}

/// The number of distinct colours among the samples.
pub open spec fn distinct_colours(samples: Seq<[u8; 3]>) -> nat {
    samples.to_set().len()
}

/// A cluster holds a sample exactly when some sample is assigned to it.
pub proof fn lemma_cluster_occupied(assignments: Seq<usize>, c: int)
    ensures
        cluster_size(assignments, c) > 0 <==> exists|i: int|
            0 <= i < assignments.len() && #[trigger] assignments[i] == c,
    decreases assignments.len(),
{
    if assignments.len() > 0 {
        let rest = assignments.drop_last();
        lemma_cluster_occupied(rest, c);
        if cluster_size(assignments, c) > 0 {
            if assignments.last() == c {
                assert(assignments[assignments.len() - 1] == c);
            } else {
                let i = choose|i: int| 0 <= i < rest.len() && #[trigger] rest[i] == c;
                assert(assignments[i] == c);
            }
        }
        if exists|i: int| 0 <= i < assignments.len() && #[trigger] assignments[i] == c {
            let i = choose|i: int| 0 <= i < assignments.len() && #[trigger] assignments[i] == c;
            if i < rest.len() {
                assert(rest[i] == c);
            }
        }
    }
}

/// Where samples of one colour lie in one cluster, the clusters that hold
/// samples are no more than the distinct colours.
pub proof fn lemma_clusters_of_colours(samples: Seq<[u8; 3]>, assignments: Seq<usize>)
    requires
        samples.len() == assignments.len(),
        colours_together(samples, assignments),
    ensures
        assignments.to_set().len() <= samples.to_set().len(),
    decreases samples.len(),
{
    broadcast use vstd::seq_lib::seq_to_set_is_finite;

    if samples.len() == 0 {
        assert(assignments.to_set() =~= Set::<usize>::empty());
    } else {
        let n = samples.len() - 1;
        let colours = samples.drop_last();
        let clusters = assignments.drop_last();
        assert forall|i: int, j: int|
            0 <= i < colours.len() && 0 <= j < colours.len() && colours[i] == colours[j]
                implies #[trigger] clusters[i] == #[trigger] clusters[j] by {
            assert(assignments[i] == assignments[j]);
        }
        lemma_clusters_of_colours(colours, clusters);
        assert(samples.to_set() =~= colours.to_set().insert(samples[n])) by {
            assert forall|p: [u8; 3]| samples.to_set().contains(p) implies colours.to_set().insert(
                samples[n],
            ).contains(p) by {
                let i = choose|i: int| 0 <= i < samples.len() && samples[i] == p;
                if i < n {
                    assert(colours[i] == p);
                }
            }
            assert forall|p: [u8; 3]|
                colours.to_set().insert(samples[n]).contains(p) implies samples.to_set().contains(
                p,
            ) by {
                if p == samples[n] {
                    assert(samples[n] == p);
                } else {
                    let i = choose|i: int| 0 <= i < colours.len() && colours[i] == p;
                    assert(samples[i] == p);
                }
            }
        }
        assert(assignments.to_set() =~= clusters.to_set().insert(assignments[n])) by {
            assert forall|c: usize| assignments.to_set().contains(c) implies clusters.to_set().insert(
                assignments[n],
            ).contains(c) by {
                let i = choose|i: int| 0 <= i < assignments.len() && assignments[i] == c;
                if i < n {
                    assert(clusters[i] == c);
                }
            }
            assert forall|c: usize|
                clusters.to_set().insert(assignments[n]).contains(c) implies assignments.to_set().contains(
                c,
            ) by {
                if c == assignments[n] {
                    assert(assignments[n] == c);
                } else {
                    let i = choose|i: int| 0 <= i < clusters.len() && clusters[i] == c;
                    assert(assignments[i] == c);
                }
            }
        }
        if colours.to_set().contains(samples[n]) {
            let i = choose|i: int| 0 <= i < colours.len() && colours[i] == samples[n];
            assert(samples[i] == samples[n]);
            assert(assignments[i] == assignments[n]);
            assert(clusters[i] == assignments[n]);
            assert(clusters.to_set().contains(assignments[n]));
        }
    }
}

/// The clusters among the first `k` that hold a sample.
spec fn occupied(assignments: Seq<usize>, k: nat) -> Set<usize> {
    assignments.to_set().filter(|c: usize| c < k)
}

proof fn lemma_occupied_count(assignments: Seq<usize>, k: nat)
    ensures
        occupied(assignments, k).finite(),
        occupied(assignments, k).len() + empty_clusters(assignments, k) == k,
    decreases k,
{
    broadcast use vstd::seq_lib::seq_to_set_is_finite;

    let all = assignments.to_set();
    if k == 0 {
        assert(occupied(assignments, k) =~= Set::<usize>::empty());
    } else {
        let before = occupied(assignments, (k - 1) as nat);
        lemma_occupied_count(assignments, (k - 1) as nat);
        lemma_cluster_occupied(assignments, k - 1);
        if cluster_size(assignments, k - 1) > 0 {
            let i = choose|i: int| 0 <= i < assignments.len() && #[trigger] assignments[i] == k - 1;
            let c: usize = assignments[i];
            assert(all.contains(c));
            assert(occupied(assignments, k) =~= before.insert(c));
            assert(!before.contains(c));
        } else {
            assert forall|c: usize| occupied(assignments, k).contains(c) implies before.contains(
                c,
            ) by {
                if c == k - 1 {
                    let i = choose|i: int| 0 <= i < assignments.len() && assignments[i] == c;
                    assert(assignments[i] == k - 1);
                }
            }
            assert(occupied(assignments, k) =~= before);
        }
    }
}

/// Where the samples hold fewer distinct colours than there are clusters, the
/// clusters in excess hold no sample: the empty clusters among `k` and the
/// distinct colours together are at least `k`.
pub proof fn lemma_empty_clusters(samples: Seq<[u8; 3]>, assignments: Seq<usize>, k: nat)
    requires
        samples.len() == assignments.len(),
        colours_together(samples, assignments),
    ensures
        empty_clusters(assignments, k) + distinct_colours(samples) >= k,
{
    broadcast use vstd::seq_lib::seq_to_set_is_finite;

    lemma_occupied_count(assignments, k);
    lemma_clusters_of_colours(samples, assignments);
    vstd::set_lib::lemma_len_subset(occupied(assignments, k), assignments.to_set());
}

/// A cluster holds no more samples than there are.
pub proof fn lemma_cluster_size_bound(assignments: Seq<usize>, c: int)
    ensures
        cluster_size(assignments, c) <= assignments.len(),
    decreases assignments.len(),
{
    if assignments.len() > 0 {
        lemma_cluster_size_bound(assignments.drop_last(), c);
    }
}

/// No channel of a sample exceeds 255, so the sum of a channel over a cluster
/// is at most 255 times the size of the cluster.
pub proof fn lemma_cluster_bounds(samples: Seq<[u8; 3]>, assignments: Seq<usize>, c: int)
    ensures
        cluster_size(assignments, c) <= assignments.len(),
        channel_sum(samples, assignments, c, 0) <= 255 * cluster_size(assignments, c),
        channel_sum(samples, assignments, c, 1) <= 255 * cluster_size(assignments, c),
        channel_sum(samples, assignments, c, 2) <= 255 * cluster_size(assignments, c),
    decreases assignments.len(),
{
    if assignments.len() > 0 {
        lemma_cluster_bounds(samples, assignments.drop_last(), c);
    }
}

proof fn lemma_sizes_total_push(assignments: Seq<usize>, x: usize, k: nat)
    ensures
        sizes_total(assignments.push(x), k) == sizes_total(assignments, k) + if x < k {
            1nat
        } else {
            0nat
        },
    decreases k,
{
    if k > 0 {
        lemma_sizes_total_push(assignments, x, (k - 1) as nat);
        assert(assignments.push(x).drop_last() =~= assignments);
    }
}

proof fn lemma_sizes_total_empty(k: nat)
    ensures
        sizes_total(Seq::<usize>::empty(), k) == 0,
    decreases k,
{
    if k > 0 {
        lemma_sizes_total_empty((k - 1) as nat);
    }
}

/// The clusters partition the samples: where every sample is assigned to one
/// of `k` clusters, the sizes of the `k` clusters add up to the number of
/// samples.
pub proof fn lemma_clusters_partition(assignments: Seq<usize>, k: nat)
    requires
        in_range(assignments, k as int),
    ensures
        sizes_total(assignments, k) == assignments.len(),
    decreases assignments.len(),
{
    if assignments.len() == 0 {
        assert(assignments =~= Seq::<usize>::empty());
        lemma_sizes_total_empty(k);
    } else {
        let rest = assignments.drop_last();
        lemma_clusters_partition(rest, k);
        lemma_sizes_total_push(rest, assignments.last(), k);
        assert(rest.push(assignments.last()) =~= assignments);
    }
}

/// Assigns every sample to its nearest centroid.
pub fn assign(samples: &Vec<[u8; 3]>, centroids: &Vec<Centroid>) -> (assignments: Vec<usize>)
    requires
        centroids.len() > 0,
        all_colours(centroids@),
    ensures
        assignments@ == assignment_of(samples@, centroids@),
        in_range(assignments@, centroids.len() as int),
        colours_together(samples@, assignments@),
{
    let mut assignments: Vec<usize> = Vec::new();
    let mut i: usize = 0;
    while i < samples.len()
        invariant
            i <= samples.len(),
            assignments.len() == i,
            centroids.len() > 0,
            all_colours(centroids@),
            forall|j: int|
                0 <= j < i ==> #[trigger] assignments@[j] == nearest(samples@[j], centroids@),
            in_range(assignments@, centroids.len() as int),
        decreases samples.len() - i,
    {
        let c: usize = nearest_centroid(samples[i], centroids);
        assignments.push(c);
        i += 1;
    }
    assert(assignments@ =~= assignment_of(samples@, centroids@));
    assignments
}

/// Moves each centroid to the mean of the samples assigned to it, and leaves
/// the centroid of an empty cluster where it was.
pub fn update(samples: &Vec<[u8; 3]>, assignments: &Vec<usize>, previous: &Vec<Centroid>) -> (next:
    Vec<Centroid>)
    requires
        samples.len() == assignments.len(),
        in_range(assignments@, previous.len() as int),
        all_colours(previous@),
    ensures
        next@ == updated(samples@, assignments@, previous@),
        all_colours(next@),
{
    let k: usize = previous.len();
    let n: usize = samples.len();
    let mut sums: Vec<Centroid> = Vec::new();
    let mut c: usize = 0;
    while c < k
        invariant
            c <= k,
            sums.len() == c,
            forall|j: int|
                0 <= j < c ==> #[trigger] sums@[j] == cluster_mean(
                    samples@,
                    assignments@.take(0),
                    j,
                ),
        decreases k - c,
    {
        sums.push(Centroid { red_sum: 0, green_sum: 0, blue_sum: 0, count: 0 });
        c += 1;
    }
    let mut i: usize = 0;
    while i < n
        invariant
            i <= n,
            n == samples.len(),
            n == assignments.len(),
            k == previous.len(),
            sums.len() == k,
            in_range(assignments@, k as int),
            forall|j: int|
                0 <= j < k ==> #[trigger] sums@[j] == cluster_mean(
                    samples@,
                    assignments@.take(i as int),
                    j,
                ),
        decreases n - i,
    {
        let c: usize = assignments[i];
        let p: [u8; 3] = samples[i];
        let before: Centroid = sums[c];
        proof {
            let seen = assignments@.take(i as int);
            let grown = assignments@.take(i + 1);
            assert(grown.drop_last() =~= seen);
            assert(grown.last() == c);
            lemma_cluster_bounds(samples@, seen, c as int);
            assert forall|j: int| 0 <= j < k && j != c implies cluster_mean(samples@, grown, j)
                == cluster_mean(samples@, seen, j) by {}
        }
        let after = Centroid {
            red_sum: before.red_sum + p[0] as u128,
            green_sum: before.green_sum + p[1] as u128,
            blue_sum: before.blue_sum + p[2] as u128,
            count: before.count + 1,
        };
        sums.set(c, after);
        proof {
            let grown = assignments@.take(i + 1);
            lemma_cluster_bounds(samples@, grown, c as int);
            assert(after == cluster_mean(samples@, grown, c as int));
        }
        i += 1;
    }
    assert(assignments@.take(n as int) =~= assignments@);
    let mut next: Vec<Centroid> = Vec::new();
    let mut c: usize = 0;
    while c < k
        invariant
            c <= k,
            k == previous.len(),
            sums.len() == k,
            next.len() == c,
            n == assignments.len(),
            all_colours(previous@),
            forall|j: int|
                0 <= j < k ==> #[trigger] sums@[j] == cluster_mean(samples@, assignments@, j),
            forall|j: int|
                0 <= j < c ==> #[trigger] next@[j] == updated(samples@, assignments@, previous@)[j],
            all_colours(next@),
        decreases k - c,
    {
        let mean: Centroid = sums[c];
        proof {
            lemma_cluster_bounds(samples@, assignments@, c as int);
        }
        if mean.count == 0 {
            next.push(previous[c]);
        } else {
            next.push(mean);
        }
        c += 1;
    }
    assert(next@ =~= updated(samples@, assignments@, previous@));
    next
}

/// The outcome of a fit: one centroid for each cluster, in the order of the
/// cluster indices, and for each sample the index of its cluster.
#[derive(Debug)]
pub struct Clustering {
    pub centroids: Vec<Centroid>,
    pub assignments: Vec<usize>,
    /// Whether iterating stopped because an assignment step changed nothing.
    pub converged: bool,
}

/// A clustering as plain sequences.
pub struct ClusteringView {
    pub centroids: Seq<Centroid>,
    pub assignments: Seq<usize>,
    pub converged: bool,
}

impl View for Clustering {
    type V = ClusteringView;

    open spec fn view(&self) -> ClusteringView {
        ClusteringView {
            centroids: self.centroids@,
            assignments: self.assignments@,
            converged: self.converged,
        }
    }
}

impl ClusteringView {
    /// What holds of every clustering that `fit` returns for `k` clusters:
    /// each sample belongs to exactly one of the `k` clusters, so that the
    /// sizes of the clusters add up to the number of samples; samples of one
    /// colour belong to one cluster; the centroid of
    /// a cluster that holds samples is their mean; and after convergence each
    /// sample belongs to the cluster of its nearest centroid.
    pub open spec fn partitions(self, samples: Seq<[u8; 3]>, k: int) -> bool {
        &&& self.centroids.len() == k
        &&& self.assignments.len() == samples.len()
        &&& in_range(self.assignments, k)
        &&& sizes_total(self.assignments, k as nat) == samples.len()
        &&& colours_together(samples, self.assignments)
        &&& all_colours(self.centroids)
        &&& forall|c: int|
            0 <= c < k && cluster_size(self.assignments, c) > 0 ==> #[trigger] self.centroids[c]
                == cluster_mean(samples, self.assignments, c)
        &&& self.converged ==> self.assignments == assignment_of(samples, self.centroids)
    }
}

/// The centroids that lie on the seeds.
pub open spec fn seed_centroids(samples: Seq<[u8; 3]>, seeds: Seq<usize>) -> Seq<Centroid> {
    Seq::new(seeds.len(), |t: int| Centroid::at(samples[seeds[t] as int]))
}

/// Iterating from a state reached by an update step. Each round makes an
/// assignment step; when that changes no assignment the state is final, else an
/// update step follows. `budget` is the number of update steps still allowed.
pub open spec fn lloyd(
    samples: Seq<[u8; 3]>,
    centroids: Seq<Centroid>,
    assignments: Seq<usize>,
    budget: nat,
) -> ClusteringView
    decreases budget,
{
    if budget == 0 {
        ClusteringView { centroids, assignments, converged: false }
    } else {
        let next = assignment_of(samples, centroids);
        if next == assignments {
            ClusteringView { centroids, assignments, converged: true }
        } else {
            lloyd(samples, updated(samples, next, centroids), next, (budget - 1) as nat)
        }
    }
}

/// The clustering of the samples into `k` clusters within `max_iterations`
/// iterations, each made of an assignment step and an update step.
pub open spec fn fit_result(samples: Seq<[u8; 3]>, k: nat, max_iterations: nat) -> ClusteringView {
    let initial = seed_centroids(samples, seeding(samples, k));
    let first = assignment_of(samples, initial);
    lloyd(samples, updated(samples, first, initial), first, (max_iterations - 1) as nat)
}

/// Places one centroid on each seed.
fn place_centroids(samples: &Vec<[u8; 3]>, seeds: &Vec<usize>) -> (centroids: Vec<Centroid>)
    requires
        forall|t: int| 0 <= t < seeds.len() ==> (#[trigger] seeds@[t]) < samples.len(),
    ensures
        centroids@ == seed_centroids(samples@, seeds@),
        all_colours(centroids@),
{
    let mut centroids: Vec<Centroid> = Vec::new();
    let mut t: usize = 0;
    while t < seeds.len()
        invariant
            t <= seeds.len(),
            centroids.len() == t,
            forall|j: int| 0 <= j < seeds.len() ==> (#[trigger] seeds@[j]) < samples.len(),
            forall|j: int|
                0 <= j < t ==> #[trigger] centroids@[j] == Centroid::at(
                    samples@[seeds@[j] as int],
                ),
            all_colours(centroids@),
        decreases seeds.len() - t,
    {
        let s: usize = seeds[t];
        centroids.push(Centroid::at_sample(samples[s]));
        t += 1;
    }
    assert(centroids@ =~= seed_centroids(samples@, seeds@));
    centroids
}

/// Whether two assignments agree on every sample.
fn same_assignments(a: &Vec<usize>, b: &Vec<usize>) -> (same: bool)
    ensures
        same == (a@ == b@),
{
    if a.len() != b.len() {
        return false;
    }
    let mut i: usize = 0;
    while i < a.len()
        invariant
            i <= a.len(),
            a.len() == b.len(),
            forall|j: int| 0 <= j < i ==> a@[j] == b@[j],
        decreases a.len() - i,
    {
        if a[i] != b[i] {
            return false;
        }
        i += 1;
    }
    assert(a@ =~= b@);
    true
}

/// Partitions the samples into `k` clusters by Lloyd's algorithm.
///
/// Fails with `InvalidParameter` unless `1 <= k <= samples.len()` and
/// `max_iterations >= 1`, and in no other way: the samples are whole numbers,
/// so no value that is not finite can come up. Reaching the iteration cap
/// before convergence is no failure: the clustering reached by then is
/// returned.
pub fn fit(samples: &Vec<[u8; 3]>, k: usize, max_iterations: usize) -> (r: Result<
    Clustering,
    AnalysisError,
>)
    ensures
        r matches Err(AnalysisError::InvalidParameter) <==> k == 0 || k > samples.len()
            || max_iterations == 0,
        !(r matches Err(AnalysisError::NumericFailure)),
        !(r matches Err(AnalysisError::InputError)),
        r is Ok <==> 1 <= k <= samples.len() && max_iterations >= 1,
        r matches Ok(c) ==> c@ == fit_result(samples@, k as nat, max_iterations as nat)
            && c@.partitions(samples@, k as int),
{
    if k == 0 || k > samples.len() || max_iterations == 0 {
        return Err(AnalysisError::InvalidParameter);
    }
    let seeds: Vec<usize> = choose_seeds(samples, k);
    let initial: Vec<Centroid> = place_centroids(samples, &seeds);
    let mut assignments: Vec<usize> = assign(samples, &initial);
    let mut centroids: Vec<Centroid> = update(samples, &assignments, &initial);
    let mut budget: usize = max_iterations - 1;
    let mut converged: bool = false;
    let ghost target = fit_result(samples@, k as nat, max_iterations as nat);
    while budget > 0 && !converged
        invariant
            centroids.len() == k,
            k > 0,
            assignments.len() == samples.len(),
            in_range(assignments@, k as int),
            colours_together(samples@, assignments@),
            all_colours(centroids@),
            forall|c: int|
                0 <= c < k && cluster_size(assignments@, c) > 0 ==> #[trigger] centroids@[c]
                    == cluster_mean(samples@, assignments@, c),
            converged ==> assignments@ == assignment_of(samples@, centroids@),
            converged ==> target == (ClusteringView {
                centroids: centroids@,
                assignments: assignments@,
                converged: true,
            }),
            !converged ==> target == lloyd(samples@, centroids@, assignments@, budget as nat),
        decreases
                if converged {
                    0
                } else {
                    budget + 1
                },
    {
        let next: Vec<usize> = assign(samples, &centroids);
        if same_assignments(&next, &assignments) {
            converged = true;
        } else {
            centroids = update(samples, &next, &centroids);
            assignments = next;
            budget = budget - 1;
        }
    }
    proof {
        lemma_clusters_partition(assignments@, k as nat);
    }
    Ok(Clustering { centroids, assignments, converged })
}

} // verus!

//! From a clustering to the share of the image that each cluster covers.

use vstd::prelude::*;
use crate::centroid::{all_colours, Centroid};
use crate::error::AnalysisError;
use crate::kmeans::{
    cluster_size, empty_clusters, in_range, sizes_total, lemma_clusters_partition,
    lemma_cluster_size_bound,
};

verus! {

/// A colour and the part of the image that it stands for: `count` of `total`
/// samples. The percentage is `count / total * 100`; it is held as the two
/// whole numbers.
#[derive(Clone, Copy, Debug, PartialEq, Eq)]
pub struct ColourInfo {
    pub rgb: [u8; 3],
    pub count: usize,
    pub total: usize,
}

impl ColourInfo {
    /// The share is a part of a whole that is not empty.
    pub open spec fn wf(self) -> bool {
        0 < self.total && self.count <= self.total
    }

    /// Whether the percentage of `self` is strictly greater than that of
    /// `other`.
    pub open spec fn outranks(self, other: ColourInfo) -> bool {
        self.count * other.total > other.count * self.total
    }

    /// Whether the two percentages are equal.
    pub open spec fn same_share(self, other: ColourInfo) -> bool {
        self.count * other.total == other.count * self.total
    }

    /// Decides `outranks`.
    pub fn ranks_above(&self, other: &ColourInfo) -> (above: bool)
        ensures
            above == self.outranks(*other),
    {
        proof {
            assert(self.count * other.total <= 0xffff_ffff_ffff_ffff * 0xffff_ffff_ffff_ffff)
                by (nonlinear_arith)
                requires
                    0 <= self.count <= 0xffff_ffff_ffff_ffff,
                    0 <= other.total <= 0xffff_ffff_ffff_ffff,
            ;
            assert(other.count * self.total <= 0xffff_ffff_ffff_ffff * 0xffff_ffff_ffff_ffff)
                by (nonlinear_arith)
                requires
                    0 <= other.count <= 0xffff_ffff_ffff_ffff,
                    0 <= self.total <= 0xffff_ffff_ffff_ffff,
            ;
        }
        (self.count as u128) * (other.total as u128) > (other.count as u128) * (self.total as u128)
    }
}

/// The colour and share of each cluster, in the order of the cluster indices.
pub open spec fn prevalence(centroids: Seq<Centroid>, assignments: Seq<usize>) -> Seq<ColourInfo> {
    Seq::new(
        centroids.len(),
        |c: int|
            ColourInfo {
                rgb: centroids[c].colour(),
                count: cluster_size(assignments, c) as usize,
                total: assignments.len() as usize,
            },
    )
}

/// The counts of the colours, added up.
pub open spec fn counts_total(colours: Seq<ColourInfo>) -> nat
    decreases colours.len(),
{
    if colours.len() == 0 {
        0
    } else {
        counts_total(colours.drop_last()) + colours.last().count as nat
    }
}

/// How many of the colours have the share zero.
pub open spec fn zero_shares(colours: Seq<ColourInfo>) -> nat
    decreases colours.len(),
{
    if colours.len() == 0 {
        0
    } else {
        zero_shares(colours.drop_last()) + if colours.last().count == 0 {
            1nat
        } else {
            0nat
        }
    }
}

/// A hundred times each count, added up: the percentages before they are
/// divided by the common total.
pub open spec fn percent_numerators_total(colours: Seq<ColourInfo>) -> nat
    decreases colours.len(),
{
    if colours.len() == 0 {
        0
    } else {
        percent_numerators_total(colours.drop_last()) + 100 * (colours.last().count as nat)
    }
}

/// All shares are parts of the same whole of `n` samples.
pub open spec fn shares_of(colours: Seq<ColourInfo>, n: nat) -> bool {
    forall|i: int| 0 <= i < colours.len() ==> (#[trigger] colours[i]).total == n
}

/// The counts of the colours of a clustering add up like the cluster sizes.
proof fn lemma_counts_of_prevalence(centroids: Seq<Centroid>, assignments: Seq<usize>, k: nat)
    requires
        k <= centroids.len(),
        assignments.len() <= usize::MAX,
    ensures
        counts_total(prevalence(centroids, assignments).take(k as int)) == sizes_total(
            assignments,
            k,
        ),
    decreases k,
{
    let all = prevalence(centroids, assignments);
    if k > 0 {
        lemma_counts_of_prevalence(centroids, assignments, (k - 1) as nat);
        assert(all.take(k as int).drop_last() =~= all.take(k - 1));
        lemma_cluster_size_bound(assignments, k - 1);
    }
}

/// The colours of a clustering have the share zero for exactly the clusters
/// that hold no sample.
pub proof fn lemma_zero_shares_of_prevalence(
    centroids: Seq<Centroid>,
    assignments: Seq<usize>,
    k: nat,
)
    requires
        k <= centroids.len(),
        assignments.len() <= usize::MAX,
    ensures
        zero_shares(prevalence(centroids, assignments).take(k as int)) == empty_clusters(
            assignments,
            k,
        ),
    decreases k,
{
    let all = prevalence(centroids, assignments);
    if k > 0 {
        lemma_zero_shares_of_prevalence(centroids, assignments, (k - 1) as nat);
        assert(all.take(k as int).drop_last() =~= all.take(k - 1));
        lemma_cluster_size_bound(assignments, k - 1);
    }
}

/// The colours of a clustering partition the samples, however many there are:
/// where every sample is assigned to one of the clusters, there is one colour
/// for each cluster, each a share of the same whole, the number of samples, and
/// the counts add up to that whole.
pub proof fn lemma_prevalence_partitions(centroids: Seq<Centroid>, assignments: Seq<usize>)
    requires
        0 < assignments.len() <= usize::MAX,
        in_range(assignments, centroids.len() as int),
    ensures
        prevalence(centroids, assignments).len() == centroids.len(),
        shares_of(prevalence(centroids, assignments), assignments.len()),
        counts_total(prevalence(centroids, assignments)) == assignments.len(),
        zero_shares(prevalence(centroids, assignments)) == empty_clusters(
            assignments,
            centroids.len(),
        ),
        forall|c: int|
            0 <= c < centroids.len() ==> (#[trigger] prevalence(centroids, assignments)[c]).wf(),
{
    let all = prevalence(centroids, assignments);
    let k = centroids.len();
    lemma_counts_of_prevalence(centroids, assignments, k);
    lemma_zero_shares_of_prevalence(centroids, assignments, k);
    assert(all.take(k as int) =~= all);
    lemma_clusters_partition(assignments, k);
    assert forall|c: int| 0 <= c < k implies (#[trigger] all[c]).wf() by {
        lemma_cluster_size_bound(assignments, c);
    }
}

/// The percentages add up to 100. The percentage of a colour is `100 * count`
/// divided by the whole; where the colours are parts of the same whole `n` and
/// their counts add up to it, the sum of `100 * count` is `100 * n`.
pub proof fn lemma_percentages_add_up(colours: Seq<ColourInfo>, n: nat)
    requires
        0 < n,
        shares_of(colours, n),
        counts_total(colours) == n,
    ensures
        percent_numerators_total(colours) == 100 * n,
{
    lemma_numerators_total(colours);
}

proof fn lemma_numerators_total(colours: Seq<ColourInfo>)
    ensures
        percent_numerators_total(colours) == 100 * counts_total(colours),
    decreases colours.len(),
{
    if colours.len() > 0 {
        lemma_numerators_total(colours.drop_last());
    }
}

/// A cluster that no sample is assigned to has the share zero of the whole,
/// whatever its centroid.
pub proof fn lemma_empty_cluster(centroids: Seq<Centroid>, assignments: Seq<usize>, c: int)
    requires
        0 <= c < centroids.len(),
        0 < assignments.len() <= usize::MAX,
        cluster_size(assignments, c) == 0,
    ensures
        prevalence(centroids, assignments)[c].count == 0,
        prevalence(centroids, assignments)[c].total == assignments.len(),
        prevalence(centroids, assignments)[c].wf(),
{
}

/// Pairs each centroid with the share of the samples assigned to it.
///
/// Fails with `InvalidParameter` where there is no centroid or no sample, or a
/// sample is assigned to a cluster that has no centroid, and with
/// `NumericFailure` where a centroid is not a colour.
pub fn aggregate(centroids: &Vec<Centroid>, assignments: &Vec<usize>) -> (r: Result<
    Vec<ColourInfo>,
    AnalysisError,
>)
    ensures
        r matches Err(AnalysisError::InvalidParameter) <==> centroids.len() == 0
            || assignments.len() == 0 || !in_range(assignments@, centroids.len() as int),
        r matches Err(AnalysisError::NumericFailure) <==> centroids.len() > 0 && assignments.len()
            > 0 && in_range(assignments@, centroids.len() as int) && !all_colours(centroids@),
        r is Ok <==> centroids.len() > 0 && assignments.len() > 0 && in_range(
            assignments@,
            centroids.len() as int,
        ) && all_colours(centroids@),
        r matches Ok(colours) ==> {
            &&& colours@ == prevalence(centroids@, assignments@)
            &&& shares_of(colours@, assignments.len() as nat)
            &&& counts_total(colours@) == assignments.len()
            &&& zero_shares(colours@) == empty_clusters(assignments@, centroids.len() as nat)
            &&& forall|i: int| 0 <= i < colours.len() ==> (#[trigger] colours@[i]).wf()
        },
{
    let k: usize = centroids.len();
    let n: usize = assignments.len();
    if k == 0 || n == 0 {
        return Err(AnalysisError::InvalidParameter);
    }
    let mut sizes: Vec<usize> = Vec::new();
    let mut c: usize = 0;
    while c < k
        invariant
            c <= k,
            sizes.len() == c,
            forall|j: int| 0 <= j < c ==> #[trigger] sizes@[j] == 0,
        decreases k - c,
    {
        sizes.push(0);
        c += 1;
    }
    let mut i: usize = 0;
    while i < n
        invariant
            i <= n,
            n == assignments.len(),
            k == centroids.len(),
            sizes.len() == k,
            in_range(assignments@.take(i as int), k as int),
            forall|j: int|
                0 <= j < k ==> #[trigger] sizes@[j] == cluster_size(assignments@.take(i as int), j),
        decreases n - i,
    {
        let a: usize = assignments[i];
        if a >= k {
            return Err(AnalysisError::InvalidParameter);
        }
        proof {
            let seen = assignments@.take(i as int);
            let grown = assignments@.take(i + 1);
            assert(grown.drop_last() =~= seen);
            assert(grown.last() == a);
            lemma_cluster_size_bound(seen, a as int);
            assert forall|j: int| 0 <= j < grown.len() implies (#[trigger] grown[j]) < k by {
                if j < i {
                    assert(seen[j] < k);
                }
            }
        }
        let size: usize = sizes[a];
        sizes.set(a, size + 1);
        i += 1;
    }
    assert(assignments@.take(n as int) =~= assignments@);
    let mut colours: Vec<ColourInfo> = Vec::new();
    let mut c: usize = 0;
    while c < k
        invariant
            c <= k,
            n > 0,
            n == assignments.len(),
            k == centroids.len(),
            sizes.len() == k,
            colours.len() == c,
            in_range(assignments@, k as int),
            forall|j: int|
                0 <= j < k ==> #[trigger] sizes@[j] == cluster_size(assignments@, j),
            forall|j: int| 0 <= j < c ==> (#[trigger] centroids@[j]).is_colour(),
            forall|j: int|
                0 <= j < c ==> #[trigger] colours@[j] == prevalence(centroids@, assignments@)[j],
        decreases k - c,
    {
        if !centroids[c].check_colour() {
            return Err(AnalysisError::NumericFailure);
        }
        colours.push(ColourInfo { rgb: centroids[c].to_colour(), count: sizes[c], total: n });
        c += 1;
    }
    proof {
        assert(colours@ =~= prevalence(centroids@, assignments@));
        lemma_prevalence_partitions(centroids@, assignments@);
    }
    Ok(colours)
}

} // verus!

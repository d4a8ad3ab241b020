//! The whole analysis: from the pixels of an image to its dominant colours,
//! ranked by prevalence.

use vstd::prelude::*;
use crate::centroid::Centroid;
use crate::config::DEFAULT_MAX_ITERATIONS;
use crate::error::AnalysisError;
use crate::kmeans::{
    colours_together, distinct_colours, fit, fit_result, in_range, lemma_empty_clusters, Clustering,
};
use crate::prevalence::{
    aggregate, counts_total, lemma_percentages_add_up, lemma_prevalence_partitions,
    percent_numerators_total, prevalence, shares_of, zero_shares, ColourInfo,
};
use crate::ranking::{
    all_shares, is_ranked, lemma_ranking_counts, lemma_ranking_len, lemma_ranking_non_increasing,
    lemma_ranking_permutes, lemma_ranking_shares, lemma_ranking_stable, rank, ranking, share_of,
};
use crate::sampler::{sample_pixels, samples_of};

verus! {

/// The dominant colours of the samples: the colour and share of each of the
/// `k` clusters that the samples fall into, ranked by share.
pub open spec fn dominant_colours(samples: Seq<[u8; 3]>, k: nat) -> Seq<ColourInfo> {
    let clustering = fit_result(samples, k, DEFAULT_MAX_ITERATIONS as nat);
    ranking(prevalence(clustering.centroids, clustering.assignments))
}

/// Extracts the `colours` dominant colours of an image, given as its width,
/// its height and three bytes for each pixel, row after row.
///
/// The result holds one entry for each cluster, the most prevalent first. The
/// shares are parts of the same whole, the number of pixels, and add up to it.
/// A cluster that no pixel fell into has the share zero; where the image holds
/// fewer distinct colours than `colours`, at least the entries in excess have
/// it.
///
/// Fails with `InputError` where the image has no pixel or the buffer does not
/// match its size, and with `InvalidParameter` where `colours` is zero or
/// exceeds the number of pixels; on every other image it succeeds.
pub fn analyze_pixels(width: u32, height: u32, data: &Vec<u8>, colours: usize) -> (r: Result<
    Vec<ColourInfo>,
    AnalysisError,
>)
    ensures
        r matches Err(AnalysisError::InputError) <==> !(width * height > 0 && data.len() == 3 * (
        width * height)),
        r matches Err(AnalysisError::InvalidParameter) <==> width * height > 0 && data.len() == 3
            * (width * height) && (colours == 0 || colours > width * height),
        !(r matches Err(AnalysisError::NumericFailure)),
        r is Ok <==> width * height > 0 && data.len() == 3 * (width * height) && 1 <= colours
            <= width * height,
        r matches Ok(found) ==> {
            &&& found@ == dominant_colours(samples_of(data@), colours as nat)
            &&& found.len() == colours
            &&& all_shares(found@)
            &&& shares_of(found@, (width * height) as nat)
            &&& counts_total(found@) == width * height
            &&& is_ranked(found@)
            &&& zero_shares(found@) + distinct_colours(samples_of(data@)) >= colours
        },
{
    let samples: Vec<[u8; 3]> = match sample_pixels(width, height, data) {
        Ok(samples) => samples,
        Err(_) => {
            return Err(AnalysisError::InputError);
        },
    };
    let clustering: Clustering = match fit(&samples, colours, DEFAULT_MAX_ITERATIONS) {
        Ok(clustering) => clustering,
        Err(e) => {
            return Err(e);
        },
    };
    let unranked: Vec<ColourInfo> = match aggregate(&clustering.centroids, &clustering.assignments) {
        Ok(unranked) => unranked,
        Err(e) => {
            return Err(e);
        },
    };
    let found: Vec<ColourInfo> = rank(&unranked);
    proof {
        lemma_ranking_shares(unranked@);
        lemma_ranking_counts(unranked@);
        lemma_ranking_non_increasing(unranked@);
        lemma_empty_clusters(samples@, clustering.assignments@, colours as nat);
        let n = (width * height) as nat;
        assert forall|i: int| 0 <= i < found.len() implies (#[trigger] found@[i]).total == n by {
            lemma_ranking_totals(unranked@, n, i);
        }
    }
    Ok(found)
}

/// What holds of the dominant colours of every clustering, however many
/// samples there are. Where every sample is assigned to one of the clusters:
/// there is one colour for each cluster; the colours are those of the
/// clusters, rearranged; each is a share of the same whole, the number of
/// samples, and the counts add up to it, so that the percentages add up to
/// 100; no colour is outranked by a later one; and colours of one percentage
/// stand in the order of their clusters. Where samples of one colour lie in
/// one cluster, the colours with the share zero and the distinct colours of
/// the samples together are at least as many as the clusters.
pub proof fn lemma_colours_of_clustering(
    samples: Seq<[u8; 3]>,
    centroids: Seq<Centroid>,
    assignments: Seq<usize>,
    e: ColourInfo,
)
    requires
        samples.len() == assignments.len(),
        0 < assignments.len() <= usize::MAX,
        in_range(assignments, centroids.len() as int),
        e.wf(),
    ensures
        ranking(prevalence(centroids, assignments)).len() == centroids.len(),
        ranking(prevalence(centroids, assignments)).to_multiset() == prevalence(
            centroids,
            assignments,
        ).to_multiset(),
        shares_of(ranking(prevalence(centroids, assignments)), assignments.len()),
        all_shares(ranking(prevalence(centroids, assignments))),
        counts_total(ranking(prevalence(centroids, assignments))) == assignments.len(),
        percent_numerators_total(ranking(prevalence(centroids, assignments))) == 100
            * assignments.len(),
        is_ranked(ranking(prevalence(centroids, assignments))),
        ranking(prevalence(centroids, assignments)).filter(share_of(e)) == prevalence(
            centroids,
            assignments,
        ).filter(share_of(e)),
        colours_together(samples, assignments) ==> zero_shares(
            ranking(prevalence(centroids, assignments)),
        ) + distinct_colours(samples) >= centroids.len(),
{
    let unranked = prevalence(centroids, assignments);
    let ranked = ranking(unranked);
    let n = assignments.len();
    lemma_prevalence_partitions(centroids, assignments);
    lemma_ranking_len(unranked);
    lemma_ranking_permutes(unranked);
    lemma_ranking_shares(unranked);
    lemma_ranking_counts(unranked);
    lemma_ranking_non_increasing(unranked);
    lemma_ranking_stable(unranked, e);
    assert forall|i: int| 0 <= i < ranked.len() implies (#[trigger] ranked[i]).total == n by {
        lemma_ranking_totals(unranked, n, i);
    }
    lemma_percentages_add_up(ranked, n);
    if colours_together(samples, assignments) {
        lemma_empty_clusters(samples, assignments, centroids.len());
    }
}

/// Ranking keeps the whole that the shares are parts of.
proof fn lemma_ranking_totals(colours: Seq<ColourInfo>, n: nat, i: int)
    requires
        shares_of(colours, n),
        0 <= i < ranking(colours).len(),
    ensures
        ranking(colours)[i].total == n,
{
    lemma_ranking_permutes(colours);
    let r = ranking(colours);
    broadcast use vstd::seq_lib::group_to_multiset_ensures;

    assert(r.to_multiset().count(r[i]) > 0);
    assert(colours.to_multiset().count(r[i]) > 0);
    assert(colours.contains(r[i]));
    let j = choose|j: int| 0 <= j < colours.len() && colours[j] == r[i];
    assert(colours[j].total == n);
}

} // verus!

//! Choosing the initial centroids.
//!
//! The first seed is the first sample. Each further seed is the sample that
//! lies farthest from the seeds chosen so far, the earliest such sample where
//! several lie equally far. Seeds are distinct samples, and distinct colours
//! for as long as the samples hold a colour that is not yet a seed.

use vstd::prelude::*;
use crate::centroid::{sq, colour_distance};

verus! {

/// One more than the greatest squared distance between two colours.
pub const FAR: u32 = 195_076;

/// The squared distance from sample `i` to the nearest of the seeds; `FAR`
/// while there is no seed.
pub open spec fn gap(samples: Seq<[u8; 3]>, seeds: Seq<usize>, i: int) -> int
    decreases seeds.len(),
{
    if seeds.len() == 0 {
        FAR as int
    } else {
        let rest = gap(samples, seeds.drop_last(), i);
        let d = colour_distance(samples[i], samples[seeds.last() as int]);
        if d < rest {
            d
        } else {
            rest
        }
    }
}

/// Whether sample `i` is one of the seeds.
pub open spec fn is_seed(seeds: Seq<usize>, i: int) -> bool {
    exists|t: int| 0 <= t < seeds.len() && seeds[t] == i
}

/// `s` is the sample that follows `seeds` as the next seed: it is no seed yet,
/// no other such sample lies farther from the seeds, and none that lies
/// equally far comes before it.
pub open spec fn is_next_seed(samples: Seq<[u8; 3]>, seeds: Seq<usize>, s: int) -> bool {
    &&& 0 <= s < samples.len()
    &&& !is_seed(seeds, s)
    &&& forall|j: int|
        0 <= j < samples.len() && !is_seed(seeds, j) ==> {
            ||| #[trigger] gap(samples, seeds, j) < gap(samples, seeds, s)
            ||| gap(samples, seeds, j) == gap(samples, seeds, s) && s <= j
        }
}

/// Every seed is the one that follows the seeds before it.
pub open spec fn is_seeding(samples: Seq<[u8; 3]>, seeds: Seq<usize>) -> bool {
    forall|t: int|
        0 <= t < seeds.len() ==> is_next_seed(samples, seeds.take(t), #[trigger] seeds[t] as int)
}

/// The `k` seeds of the samples.
pub open spec fn seeding(samples: Seq<[u8; 3]>, k: nat) -> Seq<usize> {
    choose|seeds: Seq<usize>| seeds.len() == k && is_seeding(samples, seeds)
}

/// Only one sample can follow given seeds.
pub proof fn lemma_next_seed_unique(samples: Seq<[u8; 3]>, seeds: Seq<usize>, a: int, b: int)
    requires
        is_next_seed(samples, seeds, a),
        is_next_seed(samples, seeds, b),
    ensures
        a == b,
{
    let ga = gap(samples, seeds, a);
    let gb = gap(samples, seeds, b);
    assert(gb < ga || (gb == ga && a <= b));
    assert(ga < gb || (ga == gb && b <= a));
}

/// Two seedings of the same samples agree as far as both go.
pub proof fn lemma_seeding_prefix(samples: Seq<[u8; 3]>, a: Seq<usize>, b: Seq<usize>, n: int)
    requires
        is_seeding(samples, a),
        is_seeding(samples, b),
        0 <= n <= a.len(),
        n <= b.len(),
    ensures
        a.take(n) == b.take(n),
    decreases n,
{
    if n > 0 {
        lemma_seeding_prefix(samples, a, b, n - 1);
        assert(is_next_seed(samples, a.take(n - 1), a[n - 1] as int));
        assert(is_next_seed(samples, b.take(n - 1), b[n - 1] as int));
        lemma_next_seed_unique(samples, a.take(n - 1), a[n - 1] as int, b[n - 1] as int);
        assert(a.take(n) =~= a.take(n - 1).push(a[n - 1]));
        assert(b.take(n) =~= b.take(n - 1).push(b[n - 1]));
    } else {
        assert(a.take(0) =~= b.take(0));
    }
}

/// The samples have at most one seeding of each length.
pub proof fn lemma_seeding_unique(samples: Seq<[u8; 3]>, a: Seq<usize>, b: Seq<usize>)
    requires
        is_seeding(samples, a),
        is_seeding(samples, b),
        a.len() == b.len(),
    ensures
        a == b,
{
    lemma_seeding_prefix(samples, a, b, a.len() as int);
    assert(a.take(a.len() as int) =~= a);
    assert(b.take(b.len() as int) =~= b);
}

/// The seeds are samples, and no sample is a seed twice.
pub proof fn lemma_seeds_distinct(samples: Seq<[u8; 3]>, seeds: Seq<usize>)
    requires
        is_seeding(samples, seeds),
    ensures
        forall|t: int| 0 <= t < seeds.len() ==> (#[trigger] seeds[t]) < samples.len(),
        forall|s: int, t: int| 0 <= s < t < seeds.len() ==> seeds[s] != seeds[t],
{
    assert forall|t: int| 0 <= t < seeds.len() implies (#[trigger] seeds[t]) < samples.len() by {
        assert(is_next_seed(samples, seeds.take(t), seeds[t] as int));
    }
    assert forall|s: int, t: int| 0 <= s < t < seeds.len() implies seeds[s] != seeds[t] by {
        assert(is_next_seed(samples, seeds.take(t), seeds[t] as int));
        if seeds[s] == seeds[t] {
            assert(seeds.take(t)[s] == seeds[t]);
            assert(is_seed(seeds.take(t), seeds[t] as int));
        }
    }
}

/// The gap of a sample is the least of its distances to the seeds: it exceeds
/// none of them, and it is positive where all of them are.
pub proof fn lemma_gap_is_least(samples: Seq<[u8; 3]>, seeds: Seq<usize>, i: int)
    ensures
        forall|t: int|
            0 <= t < seeds.len() ==> gap(samples, seeds, i) <= colour_distance(
                samples[i],
                samples[#[trigger] seeds[t] as int],
            ),
        (forall|t: int|
            0 <= t < seeds.len() ==> 0 < colour_distance(
                samples[i],
                samples[#[trigger] seeds[t] as int],
            )) ==> 0 < gap(samples, seeds, i),
    decreases seeds.len(),
{
    if seeds.len() > 0 {
        let rest = seeds.drop_last();
        lemma_gap_is_least(samples, rest, i);
        assert forall|t: int| 0 <= t < seeds.len() implies gap(samples, seeds, i)
            <= colour_distance(samples[i], samples[#[trigger] seeds[t] as int]) by {
            if t < rest.len() {
                assert(rest[t] == seeds[t]);
            }
        }
        if forall|t: int|
            0 <= t < seeds.len() ==> 0 < colour_distance(
                samples[i],
                samples[#[trigger] seeds[t] as int],
            ) {
            assert forall|t: int| 0 <= t < rest.len() implies 0 < colour_distance(
                samples[i],
                samples[#[trigger] rest[t] as int],
            ) by {
                assert(rest[t] == seeds[t]);
            }
        }
    }
}

/// Two colours are at distance zero exactly when they are the same colour.
pub proof fn lemma_distance_zero(p: [u8; 3], q: [u8; 3])
    ensures
        0 <= colour_distance(p, q),
        colour_distance(p, q) == 0 <==> p == q,
{
    let r = p[0] - q[0];
    let g = p[1] - q[1];
    let b = p[2] - q[2];
    assert(0 <= r * r && (r * r == 0 <==> r == 0)) by (nonlinear_arith);
    assert(0 <= g * g && (g * g == 0 <==> g == 0)) by (nonlinear_arith);
    assert(0 <= b * b && (b * b == 0 <==> b == 0)) by (nonlinear_arith);
    if colour_distance(p, q) == 0 {
        assert(p =~= q);
    }
}

/// As long as the samples hold a colour that no seed has, the next seed has
/// such a colour: the seeds are distinct points in colour space until the
/// colours of the samples run out.
pub proof fn lemma_next_seed_is_a_new_colour(
    samples: Seq<[u8; 3]>,
    seeds: Seq<usize>,
    s: int,
    j: int,
)
    requires
        is_next_seed(samples, seeds, s),
        0 <= j < samples.len(),
        forall|t: int| 0 <= t < seeds.len() ==> samples[#[trigger] seeds[t] as int] != samples[j],
    ensures
        forall|t: int| 0 <= t < seeds.len() ==> samples[#[trigger] seeds[t] as int] != samples[s],
{
    assert forall|t: int| 0 <= t < seeds.len() implies 0 < colour_distance(
        samples[j],
        samples[#[trigger] seeds[t] as int],
    ) by {
        lemma_distance_zero(samples[j], samples[seeds[t] as int]);
    }
    lemma_gap_is_least(samples, seeds, j);
    assert(!is_seed(seeds, j)) by {
        if is_seed(seeds, j) {
            let t = choose|t: int| 0 <= t < seeds.len() && seeds[t] == j;
            assert(samples[seeds[t] as int] == samples[j]);
        }
    }
    assert(gap(samples, seeds, j) <= gap(samples, seeds, s));
    lemma_gap_is_least(samples, seeds, s);
    assert forall|t: int| 0 <= t < seeds.len() implies samples[#[trigger] seeds[t] as int]
        != samples[s] by {
        lemma_distance_zero(samples[s], samples[seeds[t] as int]);
    }
}

/// The first seed is the first sample.
pub proof fn lemma_first_seed(samples: Seq<[u8; 3]>, seeds: Seq<usize>)
    requires
        is_seeding(samples, seeds),
        seeds.len() > 0,
    ensures
        seeds[0] == 0,
{
    assert(is_next_seed(samples, seeds.take(0), seeds[0] as int));
    let none = seeds.take(0);
    assert(none.len() == 0);
    assert(!is_seed(none, 0));
    assert(gap(samples, none, 0) == FAR);
    assert(gap(samples, none, seeds[0] as int) == FAR);
}

/// Computes the squared distance between two colours.
pub fn distance_between(p: [u8; 3], q: [u8; 3]) -> (d: u32)
    ensures
        d == colour_distance(p, q),
        d < FAR,
{
    let r: u32 = channel_distance(p[0], q[0]);
    let g: u32 = channel_distance(p[1], q[1]);
    let b: u32 = channel_distance(p[2], q[2]);
    r + g + b
}

fn channel_distance(a: u8, b: u8) -> (d: u32)
    ensures
        d == sq(a - b),
        d <= 65025,
{
    let diff: u32 = if a >= b {
        (a - b) as u32
    } else {
        (b - a) as u32
    };
    proof {
        let x = a - b;
        assert(diff * diff == x * x) by (nonlinear_arith)
            requires
                diff == x || diff == -x,
        ;
        assert(diff * diff <= 255 * 255) by (nonlinear_arith)
            requires
                0 <= diff <= 255,
        ;
    }
    diff * diff
}

/// How many samples are not yet taken as seeds.
spec fn free_count(taken: Seq<bool>) -> nat
    decreases taken.len(),
{
    if taken.len() == 0 {
        0
    } else {
        free_count(taken.drop_last()) + if taken.last() {
            0nat
        } else {
            1nat
        }
    }
}

proof fn lemma_free_all(taken: Seq<bool>)
    requires
        forall|i: int| 0 <= i < taken.len() ==> !taken[i],
    ensures
        free_count(taken) == taken.len(),
    decreases taken.len(),
{
    if taken.len() > 0 {
        lemma_free_all(taken.drop_last());
    }
}

proof fn lemma_free_none(taken: Seq<bool>)
    requires
        forall|i: int| 0 <= i < taken.len() ==> taken[i],
    ensures
        free_count(taken) == 0,
    decreases taken.len(),
{
    if taken.len() > 0 {
        lemma_free_none(taken.drop_last());
    }
}

proof fn lemma_free_take(taken: Seq<bool>, i: int)
    requires
        0 <= i < taken.len(),
        !taken[i],
    ensures
        free_count(taken.update(i, true)) + 1 == free_count(taken),
    decreases taken.len(),
{
    let after = taken.update(i, true);
    if i == taken.len() - 1 {
        assert(after.drop_last() =~= taken.drop_last());
    } else {
        lemma_free_take(taken.drop_last(), i);
        assert(after.drop_last() =~= taken.drop_last().update(i, true));
    }
}

/// Finds the sample that is not yet taken and whose gap is greatest, the
/// earliest among several.
fn farthest_free(gaps: &Vec<u32>, taken: &Vec<bool>) -> (best: usize)
    requires
        gaps.len() == taken.len(),
        free_count(taken@) > 0,
    ensures
        best < taken.len(),
        !taken@[best as int],
        forall|j: int|
            0 <= j < taken.len() && !taken@[j] ==> {
                ||| #[trigger] gaps@[j] < gaps@[best as int]
                ||| gaps@[j] == gaps@[best as int] && best <= j
            },
{
    let n: usize = taken.len();
    let mut best: usize = n;
    let mut i: usize = 0;
    while i < n
        invariant
            n == taken.len(),
            n == gaps.len(),
            i <= n,
            best <= n,
            best == n ==> forall|j: int| 0 <= j < i ==> taken@[j],
            best < n ==> best < i && !taken@[best as int],
            best < n ==> forall|j: int|
                0 <= j < i && !taken@[j] ==> {
                    ||| #[trigger] gaps@[j] < gaps@[best as int]
                    ||| gaps@[j] == gaps@[best as int] && best <= j
                },
        decreases n - i,
    {
        if !taken[i] {
            if best == n {
                best = i;
            } else if gaps[i] > gaps[best] {
                best = i;
            }
        }
        i += 1;
    }
    proof {
        if best == n {
            lemma_free_none(taken@);
        }
    }
    best
}

/// Lowers each gap to the distance from the new seed where that is smaller.
fn absorb_seed(samples: &Vec<[u8; 3]>, gaps: &mut Vec<u32>, seed: usize)
    requires
        old(gaps).len() == samples.len(),
        seed < samples.len(),
    ensures
        final(gaps).len() == samples.len(),
        forall|j: int|
            0 <= j < samples.len() ==> #[trigger] final(gaps)@[j] == if colour_distance(
                samples@[j],
                samples@[seed as int],
            ) < old(gaps)@[j] {
                colour_distance(samples@[j], samples@[seed as int])
            } else {
                old(gaps)@[j] as int
            },
{
    let n: usize = samples.len();
    let mut i: usize = 0;
    while i < n
        invariant
            n == samples.len(),
            gaps.len() == n,
            seed < n,
            i <= n,
            forall|j: int| i <= j < n ==> gaps@[j] == old(gaps)@[j],
            forall|j: int|
                0 <= j < i ==> #[trigger] gaps@[j] == if colour_distance(
                    samples@[j],
                    samples@[seed as int],
                ) < old(gaps)@[j] {
                    colour_distance(samples@[j], samples@[seed as int])
                } else {
                    old(gaps)@[j] as int
                },
        decreases n - i,
    {
        let d: u32 = distance_between(samples[i], samples[seed]);
        if d < gaps[i] {
            gaps.set(i, d);
        }
        i += 1;
    }
}

/// Chooses `k` seeds among the samples: the first sample, then each time the
/// sample farthest from the seeds so far, the earliest among several.
pub fn choose_seeds(samples: &Vec<[u8; 3]>, k: usize) -> (seeds: Vec<usize>)
    requires
        1 <= k <= samples.len(),
    ensures
        seeds@.len() == k,
        is_seeding(samples@, seeds@),
        seeds@ == seeding(samples@, k as nat),
        forall|t: int| 0 <= t < k ==> (#[trigger] seeds@[t]) < samples.len(),
        forall|s: int, t: int| 0 <= s < t < k ==> seeds@[s] != seeds@[t],
{
    let n: usize = samples.len();
    let mut gaps: Vec<u32> = Vec::new();
    let mut taken: Vec<bool> = Vec::new();
    let mut i: usize = 0;
    while i < n
        invariant
            i <= n,
            gaps.len() == i,
            taken.len() == i,
            forall|j: int| 0 <= j < i ==> gaps@[j] == FAR,
            forall|j: int| 0 <= j < i ==> !taken@[j],
        decreases n - i,
    {
        gaps.push(FAR);
        taken.push(false);
        i += 1;
    }
    let mut seeds: Vec<usize> = Vec::new();
    proof {
        lemma_free_all(taken@);
    }
    while seeds.len() < k
        invariant
            n == samples.len(),
            k <= n,
            seeds.len() <= k,
            gaps.len() == n,
            taken.len() == n,
            is_seeding(samples@, seeds@),
            forall|j: int| 0 <= j < n ==> #[trigger] gaps@[j] == gap(samples@, seeds@, j),
            forall|j: int| 0 <= j < n ==> #[trigger] taken@[j] == is_seed(seeds@, j),
            free_count(taken@) + seeds.len() == n,
        decreases k - seeds.len(),
    {
        let best: usize = farthest_free(&gaps, &taken);
        let ghost before = seeds@;
        let ghost gaps_before = gaps@;
        let ghost taken_before = taken@;
        proof {
            assert forall|j: int| 0 <= j < n && !is_seed(before, j) implies {
                ||| #[trigger] gap(samples@, before, j) < gap(samples@, before, best as int)
                ||| gap(samples@, before, j) == gap(samples@, before, best as int) && best <= j
            } by {
                assert(!taken_before[j]);
                assert(gaps_before[j] == gap(samples@, before, j));
                assert(gaps_before[best as int] == gap(samples@, before, best as int));
            }
            assert(taken_before[best as int] == is_seed(before, best as int));
            assert(is_next_seed(samples@, before, best as int));
            lemma_free_take(taken_before, best as int);
        }
        seeds.push(best);
        taken.set(best, true);
        absorb_seed(samples, &mut gaps, best);
        proof {
            let after = seeds@;
            assert(after.drop_last() =~= before);
            assert(after.take(before.len() as int) =~= before);
            assert forall|t: int| 0 <= t < after.len() implies is_next_seed(
                samples@,
                after.take(t),
                #[trigger] after[t] as int,
            ) by {
                if t < before.len() {
                    assert(after.take(t) =~= before.take(t));
                    assert(is_next_seed(samples@, before.take(t), before[t] as int));
                }
            }
            assert forall|j: int| 0 <= j < n implies #[trigger] taken@[j] == is_seed(after, j) by {
                if is_seed(before, j) {
                    let t = choose|t: int| 0 <= t < before.len() && before[t] == j;
                    assert(after[t] == j);
                }
                if j == best {
                    assert(after[before.len() as int] == j);
                }
                if is_seed(after, j) {
                    let t = choose|t: int| 0 <= t < after.len() && after[t] == j;
                    if t < before.len() {
                        assert(before[t] == j);
                    }
                }
                assert(taken_before[j] == is_seed(before, j));
            }
            assert forall|j: int| 0 <= j < n implies #[trigger] gaps@[j] == gap(
                samples@,
                after,
                j,
            ) by {
                assert(gaps_before[j] == gap(samples@, before, j));
            }
        }
    }
    proof {
        lemma_seeds_distinct(samples@, seeds@);
        let other = seeding(samples@, k as nat);
        assert(other.len() == k && is_seeding(samples@, other));
        lemma_seeding_unique(samples@, seeds@, other);
    }
    seeds
}

} // verus!

//! Centroids as exact means, and the order in which they lie around a sample.
//!
//! A centroid is the mean of the samples of a cluster. It is held as the sums
//! of the three channels together with the number of samples, so that no
//! precision is lost between iterations; only the colour that is reported at
//! the end is truncated to whole numbers. Distances are compared exactly,
//! whatever the number of samples.

use vstd::prelude::*;
use vstd::arithmetic::div_mod::{lemma_fundamental_div_mod, lemma_mod_bound};
use crate::fraction::lemma_order_strict;
use crate::wide::{mul_wide, wide, lemma_wide_order};

verus! {

/// The mean of `count` samples, as the sum of each channel over them.
#[derive(Clone, Copy, Debug, PartialEq, Eq, Structural)]
pub struct Centroid {
    pub red_sum: u128,
    pub green_sum: u128,
    pub blue_sum: u128,
    pub count: u64,
}

/// The square of a number.
pub open spec fn sq(x: int) -> int {
    x * x
}

/// The squared Euclidean distance between two colours.
pub open spec fn colour_distance(p: [u8; 3], q: [u8; 3]) -> int {
    sq(p[0] - q[0]) + sq(p[1] - q[1]) + sq(p[2] - q[2])
}

impl Centroid {
    /// The mean is a colour: it is taken over at least one sample, and no
    /// channel of it exceeds 255.
    pub open spec fn is_colour(self) -> bool {
        &&& 0 < self.count
        &&& self.red_sum <= 255 * self.count
        &&& self.green_sum <= 255 * self.count
        &&& self.blue_sum <= 255 * self.count
    }

    /// The squared Euclidean distance from `p` to the mean, multiplied by the
    /// square of `count`, which makes it a whole number.
    pub open spec fn scaled_distance(self, p: [u8; 3]) -> int {
        sq(p[0] * self.count - self.red_sum) + sq(p[1] * self.count - self.green_sum) + sq(
            p[2] * self.count - self.blue_sum,
        )
    }

    /// The mean with each channel truncated to a whole number.
    pub open spec fn colour(self) -> [u8; 3] {
        [
            (self.red_sum / self.count as u128) as u8,
            (self.green_sum / self.count as u128) as u8,
            (self.blue_sum / self.count as u128) as u8,
        ]
    }

    /// The centroid that lies on a single sample.
    pub open spec fn at(p: [u8; 3]) -> Centroid {
        Centroid {
            red_sum: p[0] as u128,
            green_sum: p[1] as u128,
            blue_sum: p[2] as u128,
            count: 1,
        }
    }
}

/// Whether the mean `a` lies strictly nearer to `p` than the mean `b` does.
/// The two distances are fractions; they are compared by cross-multiplication.
pub open spec fn nearer(p: [u8; 3], a: Centroid, b: Centroid) -> bool {
    a.scaled_distance(p) * sq(b.count as int) < b.scaled_distance(p) * sq(a.count as int)
}

/// `best` is the index of the centroid nearest to `p`: no centroid lies
/// strictly nearer, and every centroid of a lower index lies strictly farther.
/// Among centroids at exactly the same distance this is the one of lowest
/// index.
pub open spec fn is_nearest(p: [u8; 3], centroids: Seq<Centroid>, best: int) -> bool {
    &&& 0 <= best < centroids.len()
    &&& forall|j: int|
        0 <= j < centroids.len() ==> !nearer(p, #[trigger] centroids[j], centroids[best])
    &&& forall|j: int| 0 <= j < best ==> nearer(p, centroids[best], #[trigger] centroids[j])
}

/// The index of the centroid nearest to `p`, the lowest on ties.
pub open spec fn nearest(p: [u8; 3], centroids: Seq<Centroid>) -> int {
    choose|best: int| is_nearest(p, centroids, best)
}

/// Every centroid is a colour.
pub open spec fn all_colours(centroids: Seq<Centroid>) -> bool {
    forall|c: int| 0 <= c < centroids.len() ==> (#[trigger] centroids[c]).is_colour()
}

/// Of two centroids at most one is strictly nearer to `p` than the other.
pub proof fn lemma_nearer_asymmetric(p: [u8; 3], a: Centroid, b: Centroid)
    requires
        nearer(p, a, b),
    ensures
        !nearer(p, b, a),
{
}

/// At most one index is the nearest.
pub proof fn lemma_nearest_unique(p: [u8; 3], centroids: Seq<Centroid>, a: int, b: int)
    requires
        is_nearest(p, centroids, a),
        is_nearest(p, centroids, b),
    ensures
        a == b,
{
    if a < b {
        assert(nearer(p, centroids[b], centroids[a]));
        assert(!nearer(p, centroids[b], centroids[a]));
    } else if b < a {
        assert(nearer(p, centroids[a], centroids[b]));
        assert(!nearer(p, centroids[a], centroids[b]));
    }
}

proof fn lemma_sq_positive(x: int)
    requires
        x != 0,
    ensures
        0 < sq(x),
{
    assert(0 < x * x) by (nonlinear_arith)
        requires
            x != 0,
    ;
}

/// If `a` is strictly nearer to `p` than `b`, and `c` is not strictly nearer
/// than `b`, then `a` is strictly nearer than `c`.
pub proof fn lemma_nearer_transitive(p: [u8; 3], a: Centroid, b: Centroid, c: Centroid)
    requires
        a.count > 0,
        b.count > 0,
        c.count > 0,
        nearer(p, a, b),
        !nearer(p, c, b),
    ensures
        nearer(p, a, c),
{
    lemma_sq_positive(a.count as int);
    lemma_sq_positive(b.count as int);
    lemma_sq_positive(c.count as int);
    lemma_order_strict(
        a.scaled_distance(p),
        sq(a.count as int),
        b.scaled_distance(p),
        sq(b.count as int),
        c.scaled_distance(p),
        sq(c.count as int),
    );
}

/// The square of a count fits 128 bits.
fn count_square(count: u64) -> (q: u128)
    ensures
        q == sq(count as int),
        count > 0 ==> q > 0,
{
    proof {
        assert(count * count <= 0xffff_ffff_ffff_ffff * 0xffff_ffff_ffff_ffff) by (nonlinear_arith)
            requires
                0 <= count <= 0xffff_ffff_ffff_ffff,
        ;
        if count > 0 {
            lemma_sq_positive(count as int);
        }
    }
    (count as u128) * (count as u128)
}

/// Adds two numbers below `q`, as a multiple of `q` and a rest below `q`.
fn add_rests(x: u128, y: u128, q: u128) -> (r: (u128, u128))
    requires
        x < q,
        y < q,
    ensures
        r.0 * q + r.1 == x + y,
        r.1 < q,
        r.0 <= 1,
{
    if x >= q - y {
        (1, x - (q - y))
    } else {
        (0, x + y)
    }
}

/// The square of `p * count - sum`, for one channel of a centroid, as a
/// multiple of the square of `count` and a rest below it.
fn channel_parts(p: u8, count: u64, sum: u128) -> (r: (u128, u128))
    requires
        0 < count,
        sum <= 255 * count,
    ensures
        r.0 * sq(count as int) + r.1 == sq(p * count - sum),
        r.1 < sq(count as int),
        r.0 <= 65535,
{
    let c: u128 = count as u128;
    let q: u128 = count_square(count);
    proof {
        assert(p * c <= 255 * c) by (nonlinear_arith)
            requires
                0 <= p <= 255,
                0 < c,
        ;
    }
    let scaled: u128 = (p as u128) * c;
    let gap: u128 = if scaled >= sum {
        scaled - sum
    } else {
        sum - scaled
    };
    let g1: u128 = gap / c;
    let g0: u128 = gap % c;
    proof {
        assert(gap <= 255 * c);
        lemma_fundamental_div_mod(gap as int, c as int);
        lemma_mod_bound(gap as int, c as int);
        assert(gap == g1 * c + g0) by (nonlinear_arith)
            requires
                gap == c * g1 + g0,
        ;
        assert(g1 <= 255) by (nonlinear_arith)
            requires
                gap == g1 * c + g0,
                0 <= g0,
                0 < c,
                gap <= 255 * c,
                0 <= g1,
        ;
        assert(g1 * g0 <= 255 * g0) by (nonlinear_arith)
            requires
                0 <= g1 <= 255,
                0 <= g0,
        ;
        assert(g1 * g1 <= 255 * 255) by (nonlinear_arith)
            requires
                0 <= g1 <= 255,
        ;
    }
    let twice: u128 = 2 * (g1 * g0);
    let v1: u128 = twice / c;
    let v0: u128 = twice % c;
    proof {
        lemma_fundamental_div_mod(twice as int, c as int);
        lemma_mod_bound(twice as int, c as int);
        assert(twice == v1 * c + v0) by (nonlinear_arith)
            requires
                twice == c * v1 + v0,
        ;
        assert(v1 <= 509) by (nonlinear_arith)
            requires
                twice == v1 * c + v0,
                0 <= v0,
                0 < c,
                twice <= 510 * g0,
                g0 < c,
                0 <= v1,
        ;
        assert(v0 * c < c * c) by (nonlinear_arith)
            requires
                0 <= v0 < c,
        ;
        assert(g0 * g0 < c * c) by (nonlinear_arith)
            requires
                0 <= g0 < c,
        ;
    }
    let r1: u128 = v0 * c;
    let r2: u128 = g0 * g0;
    let (carry, rest) = add_rests(r1, r2, q);
    let whole: u128 = g1 * g1 + v1 + carry;
    proof {
        let d = p * count - sum;
        assert(gap == d || gap == -d);
        assert(gap * gap == d * d) by (nonlinear_arith)
            requires
                gap == d || gap == -d,
        ;
        assert(gap * gap == (g1 * g1 + v1) * (c * c) + v0 * c + g0 * g0) by (nonlinear_arith)
            requires
                gap == g1 * c + g0,
                2 * (g1 * g0) == v1 * c + v0,
        ;
        assert(whole * q + rest == gap * gap) by (nonlinear_arith)
            requires
                whole == g1 * g1 + v1 + carry,
                carry * q + rest == r1 + r2,
                r1 == v0 * c,
                r2 == g0 * g0,
                q == c * c,
                gap * gap == (g1 * g1 + v1) * (c * c) + v0 * c + g0 * g0,
        ;
    }
    (whole, rest)
}

impl Centroid {
    /// The centroid that lies on the sample `p`.
    pub fn at_sample(p: [u8; 3]) -> (c: Centroid)
        ensures
            c == Centroid::at(p),
            c.is_colour(),
    {
        Centroid {
            red_sum: p[0] as u128,
            green_sum: p[1] as u128,
            blue_sum: p[2] as u128,
            count: 1,
        }
    }

    /// Computes `scaled_distance` as a multiple of the square of `count` and a
    /// rest below that square: the whole part of the squared distance from `p`
    /// to the mean, and the numerator of its fraction.
    pub fn distance_parts(&self, p: [u8; 3]) -> (r: (u128, u128))
        requires
            self.is_colour(),
        ensures
            r.0 * sq(self.count as int) + r.1 == self.scaled_distance(p),
            r.1 < sq(self.count as int),
    {
        let q: u128 = count_square(self.count);
        let (w1, f1) = channel_parts(p[0], self.count, self.red_sum);
        let (w2, f2) = channel_parts(p[1], self.count, self.green_sum);
        let (w3, f3) = channel_parts(p[2], self.count, self.blue_sum);
        let (k1, f12) = add_rests(f1, f2, q);
        let (k2, rest) = add_rests(f12, f3, q);
        let whole: u128 = w1 + w2 + w3 + k1 + k2;
        proof {
            assert(whole * q + rest == (w1 * q + f1) + (w2 * q + f2) + (w3 * q + f3))
                by (nonlinear_arith)
                requires
                    whole == w1 + w2 + w3 + k1 + k2,
                    k1 * q + f12 == f1 + f2,
                    k2 * q + rest == f12 + f3,
            ;
        }
        (whole, rest)
    }

    /// Decides `is_colour`.
    pub fn check_colour(&self) -> (ok: bool)
        ensures
            ok == self.is_colour(),
    {
        let limit: u128 = 255 * (self.count as u128);
        self.count > 0 && self.red_sum <= limit && self.green_sum <= limit && self.blue_sum
            <= limit
    }

    /// The mean, each channel truncated to a whole number.
    pub fn to_colour(&self) -> (rgb: [u8; 3])
        requires
            self.is_colour(),
        ensures
            rgb == self.colour(),
    {
        let n: u128 = self.count as u128;
        proof {
            assert(self.red_sum as int / n as int <= 255) by (nonlinear_arith)
                requires
                    0 < n,
                    self.red_sum <= 255 * n,
            ;
            assert(self.green_sum as int / n as int <= 255) by (nonlinear_arith)
                requires
                    0 < n,
                    self.green_sum <= 255 * n,
            ;
            assert(self.blue_sum as int / n as int <= 255) by (nonlinear_arith)
                requires
                    0 < n,
                    self.blue_sum <= 255 * n,
            ;
        }
        [(self.red_sum / n) as u8, (self.green_sum / n) as u8, (self.blue_sum / n) as u8]
    }
}

/// Decides `nearer`: whether `a` lies strictly nearer to `p` than `b`.
///
/// The whole parts of the two squared distances are compared first; where they
/// are equal the fractions decide, by a cross-multiplication in 256 bits.
pub fn is_nearer(p: [u8; 3], a: &Centroid, b: &Centroid) -> (r: bool)
    requires
        a.is_colour(),
        b.is_colour(),
    ensures
        r == nearer(p, *a, *b),
{
    let (wa, fa) = a.distance_parts(p);
    let (wb, fb) = b.distance_parts(p);
    let qa: u128 = count_square(a.count);
    let qb: u128 = count_square(b.count);
    proof {
        let xa = a.scaled_distance(p);
        let xb = b.scaled_distance(p);
        assert(xa * qb == wa * (qa * qb) + fa * qb) by (nonlinear_arith)
            requires
                xa == wa * qa + fa,
        ;
        assert(xb * qa == wb * (qa * qb) + fb * qa) by (nonlinear_arith)
            requires
                xb == wb * qb + fb,
        ;
        assert(0 <= fa * qb < qa * qb) by (nonlinear_arith)
            requires
                0 <= fa < qa,
                0 < qb,
        ;
        assert(0 <= fb * qa < qa * qb) by (nonlinear_arith)
            requires
                0 <= fb < qb,
                0 < qa,
        ;
        if wa < wb {
            assert((wa + 1) * (qa * qb) <= wb * (qa * qb)) by (nonlinear_arith)
                requires
                    wa + 1 <= wb,
                    0 <= qa * qb,
            ;
            assert((wa + 1) * (qa * qb) == wa * (qa * qb) + qa * qb) by (nonlinear_arith);
        }
        if wb < wa {
            assert((wb + 1) * (qa * qb) <= wa * (qa * qb)) by (nonlinear_arith)
                requires
                    wb + 1 <= wa,
                    0 <= qa * qb,
            ;
            assert((wb + 1) * (qa * qb) == wb * (qa * qb) + qa * qb) by (nonlinear_arith);
        }
    }
    if wa != wb {
        wa < wb
    } else {
        let (h1, l1) = mul_wide(fa, qb);
        let (h2, l2) = mul_wide(fb, qa);
        proof {
            lemma_wide_order(h1, l1, h2, l2);
        }
        h1 < h2 || (h1 == h2 && l1 < l2)
    }
}

/// Finds the centroid nearest to `p`; among centroids at exactly the same
/// distance, the one of lowest index.
pub fn nearest_centroid(p: [u8; 3], centroids: &Vec<Centroid>) -> (best: usize)
    requires
        centroids.len() > 0,
        all_colours(centroids@),
    ensures
        is_nearest(p, centroids@, best as int),
        best == nearest(p, centroids@),
{
    let mut best: usize = 0;
    let mut j: usize = 1;
    while j < centroids.len()
        invariant
            1 <= j <= centroids.len(),
            best < j,
            all_colours(centroids@),
            forall|i: int|
                0 <= i < j ==> !nearer(p, #[trigger] centroids@[i], centroids@[best as int]),
            forall|i: int|
                0 <= i < best ==> nearer(p, centroids@[best as int], #[trigger] centroids@[i]),
        decreases centroids.len() - j,
    {
        if is_nearer(p, &centroids[j], &centroids[best]) {
            proof {
                let candidate = centroids@[j as int];
                let held = centroids@[best as int];
                assert forall|i: int| 0 <= i < j implies nearer(
                    p,
                    candidate,
                    #[trigger] centroids@[i],
                ) by {
                    lemma_nearer_transitive(p, candidate, held, centroids@[i]);
                }
                assert forall|i: int| 0 <= i <= j implies !nearer(
                    p,
                    #[trigger] centroids@[i],
                    candidate,
                ) by {
                    if i < j {
                        lemma_nearer_asymmetric(p, candidate, centroids@[i]);
                    }
                }
            }
            best = j;
        }
        j += 1;
    }
    proof {
        assert(is_nearest(p, centroids@, best as int));
        lemma_nearest_unique(p, centroids@, best as int, nearest(p, centroids@));
    }
    best
}

} // verus!

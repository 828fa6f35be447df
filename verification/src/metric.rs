//! Dissimilarity of two feature vectors.
//!
//! A distance is a `u128`, smaller meaning more similar. The squared
//! Euclidean distance counts units of 2^-64, so that the square of a
//! difference of two `Fixed` numbers is exact.

use vstd::prelude::*;
use crate::fixed::Fixed;

verus! {

/// A measure of how far apart two vectors of one length are.
pub trait DistanceMetric {
    /// The distance from `a` to `b`.
    spec fn distance(&self, a: Seq<Fixed>, b: Seq<Fixed>) -> u128;

    /// Computes the distance from `a` to `b`.
    fn measure(&self, a: &[Fixed], b: &[Fixed]) -> (d: u128)
        requires
            a@.len() == b@.len(),
        ensures
            d == self.distance(a@, b@),
    ;
}

/// The sum of the squares of the first `n` component differences of `a` and
/// `b`, in units of 2^-64.
pub open spec fn squared_gap(a: Seq<Fixed>, b: Seq<Fixed>, n: int) -> int
    decreases n,
{
    if n <= 0 {
        0
    } else {
        squared_gap(a, b, n - 1) + (a[n - 1].raw - b[n - 1].raw) * (a[n - 1].raw - b[n - 1].raw)
    }
}

/// The squared Euclidean distance of `a` and `b`, cut off at the largest
/// `u128`.
pub open spec fn sq_euclidean(a: Seq<Fixed>, b: Seq<Fixed>) -> u128 {
    if squared_gap(a, b, a.len() as int) > u128::MAX {
        u128::MAX
    } else {
        squared_gap(a, b, a.len() as int) as u128
    }
}

/// A partial sum of squares is never negative and never shrinks.
pub proof fn lemma_squared_gap_grows(a: Seq<Fixed>, b: Seq<Fixed>, m: int, n: int)
    requires
        0 <= m <= n,
    ensures
        0 <= squared_gap(a, b, m) <= squared_gap(a, b, n),
    decreases n,
{
    if n > 0 {
        let d = a[n - 1].raw - b[n - 1].raw;
        assert(d * d >= 0) by (nonlinear_arith);
        if m < n {
            lemma_squared_gap_grows(a, b, m, n - 1);
        } else {
            lemma_squared_gap_grows(a, b, n - 1, n - 1);
        }
    }
}

/// The squared Euclidean distance of two vectors of one length is zero
/// exactly when they are equal.
pub proof fn lemma_sq_euclidean_zero(a: Seq<Fixed>, b: Seq<Fixed>)
    requires
        a.len() == b.len(),
    ensures
        sq_euclidean(a, b) == 0 <==> a == b,
{
    lemma_squared_gap_grows(a, b, 0, a.len() as int);
    if a == b {
        lemma_squared_gap_same(a, a.len() as int);
    } else {
        assert(!(a =~= b));
        let i = choose|i: int| 0 <= i < a.len() && a[i] != b[i];
        let d = a[i].raw - b[i].raw;
        assert(d != 0);
        assert(d * d > 0) by (nonlinear_arith)
            requires
                d != 0,
        ;
        lemma_squared_gap_grows(a, b, 0, i);
        lemma_squared_gap_grows(a, b, i + 1, a.len() as int);
    }
}

/// The squared Euclidean distance does not depend on the order of the two
/// vectors.
pub proof fn lemma_sq_euclidean_symmetric(a: Seq<Fixed>, b: Seq<Fixed>)
    requires
        a.len() == b.len(),
    ensures
        sq_euclidean(a, b) == sq_euclidean(b, a),
{
    lemma_squared_gap_symmetric(a, b, a.len() as int);
}

/// The sum of squares does not depend on the order of the two vectors.
proof fn lemma_squared_gap_symmetric(a: Seq<Fixed>, b: Seq<Fixed>, n: int)
    ensures
        squared_gap(a, b, n) == squared_gap(b, a, n),
    decreases n,
{
    if n > 0 {
        lemma_squared_gap_symmetric(a, b, n - 1);
        let d = a[n - 1].raw - b[n - 1].raw;
        assert(d * d == (-d) * (-d)) by (nonlinear_arith);
    }
}

/// A vector is at squared gap zero from itself.
proof fn lemma_squared_gap_same(a: Seq<Fixed>, n: int)
    ensures
        squared_gap(a, a, n) == 0,
    decreases n,
{
    if n > 0 {
        lemma_squared_gap_same(a, n - 1);
    }
}

/// The squared Euclidean distance `Σ (x_i − y_i)²` of `x` and `y`, in units
/// of 2^-64 and cut off at the largest `u128`.
pub fn sq_euclidean_dist(x: &[Fixed], y: &[Fixed]) -> (d: u128)
    requires
        x@.len() == y@.len(),
    ensures
        d == sq_euclidean(x@, y@),
{
    let n: usize = x.len();
    let mut total: u128 = 0;
    let mut capped: bool = false;
    let mut i: usize = 0;
    while i < n
        invariant
            0 <= i <= n,
            n == x@.len(),
            n == y@.len(),
            !capped ==> total == squared_gap(x@, y@, i as int),
            capped ==> squared_gap(x@, y@, i as int) > u128::MAX,
        decreases n - i,
    {
        let a: i128 = x[i].raw as i128;
        let b: i128 = y[i].raw as i128;
        let gap: i128 = a - b;
        let width: u128 = if gap < 0 {
            (-gap) as u128
        } else {
            gap as u128
        };
        assert(width * width == (a - b) * (a - b) && width * width <= u128::MAX)
            by (nonlinear_arith)
            requires
                width == gap || width == -gap,
                gap == a - b,
                0 <= width <= 0xffff_ffff_ffff_ffff,
        ;
        let square: u128 = width * width;
        proof {
            lemma_squared_gap_grows(x@, y@, i as int, i as int);
        }
        if !capped {
            match total.checked_add(square) {
                Some(s) => {
                    total = s;
                },
                None => {
                    capped = true;
                },
            }
        }
        i = i + 1;
    }
    if capped {
        u128::MAX
    } else {
        total
    }
}

/// The squared Euclidean distance, as a metric.
pub struct SquaredEuclidean {}

impl DistanceMetric for SquaredEuclidean {
    open spec fn distance(&self, a: Seq<Fixed>, b: Seq<Fixed>) -> u128 {
        sq_euclidean(a, b)
    }

    fn measure(&self, a: &[Fixed], b: &[Fixed]) -> (d: u128) {
        sq_euclidean_dist(a, b)
    }
}

} // verus!

//! Order statistics of a sample: the positions of the quartiles and of the
//! 5th and 95th percentiles in the sorted sample, and the values found there.
use vstd::prelude::*;
use crate::binary64::Real;
use crate::sorting::{
    sort_by_value,
    sort_values,
    all_wf,
    no_nan,
    ascending,
    lemma_sort_is_permutation,
    lemma_sort_is_ascending,
    lemma_sort_depends_on_values,
};

verus! {

/// Zero-based positions, in the sorted sample, of the order statistics.
///
/// With `n` observations the quartile at fraction `f` lies at
/// `round(f · (n + 1))` (one-based) and a percentile at `p · n`. In integers:
/// - Q1: `round((n + 1) / 4)`, that is `(n + 3) / 4`;
/// - Q2: the mean of the values at `floor((n + 1) / 2)` and `ceil((n + 1) / 2)`;
/// - Q3: `round(3 (n + 1) / 4)`, that is `(3n + 5) / 4`;
/// - P5: `round(n / 20)`, that is `(n + 10) / 20`, and the first value when
///   that is zero;
/// - P95: `round(19 n / 20)`, that is `(19n + 10) / 20`.
///
/// Rounding takes halves away from zero.
#[derive(Clone, Copy, Debug)]
pub struct QuantilePositions {
    pub p5: usize,
    pub q1: usize,
    pub q2_low: usize,
    pub q2_high: usize,
    pub q3: usize,
    pub p95: usize,
}

pub open spec fn p5_position(n: int) -> int {
    if n >= 10 {
        (n + 10) / 20 - 1
    } else {
        0
    }
}

pub open spec fn q1_position(n: int) -> int {
    (n + 3) / 4 - 1
}

pub open spec fn q2_low_position(n: int) -> int {
    (n + 1) / 2 - 1
}

pub open spec fn q2_high_position(n: int) -> int {
    n / 2
}

pub open spec fn q3_position(n: int) -> int {
    (3 * n + 5) / 4 - 1
}

pub open spec fn p95_position(n: int) -> int {
    (19 * n + 10) / 20 - 1
}

impl QuantilePositions {
    pub open spec fn matches(self, n: int) -> bool {
        &&& self.p5 == p5_position(n)
        &&& self.q1 == q1_position(n)
        &&& self.q2_low == q2_low_position(n)
        &&& self.q2_high == q2_high_position(n)
        &&& self.q3 == q3_position(n)
        &&& self.p95 == p95_position(n)
    }
}

/// The one-based position `i + 1` of each statistic is its fraction of the
/// sample rounded to the nearest integer, halves rounded up: Q1 is nearest to
/// `(n + 1) / 4`, Q3 to `3 (n + 1) / 4`, P95 to `19 n / 20` and P5 to `n / 20`
/// (the first value when that rounds to 0); the median's two positions are
/// `floor((n + 1) / 2)` and `ceil((n + 1) / 2)`.
pub open spec fn rounded_positions(n: int, p5: int, q1: int, q2_low: int, q2_high: int, q3: int, p95: int) -> bool {
    &&& -2 < 4 * (q1 + 1) - (n + 1) <= 2
    &&& -2 < 4 * (q3 + 1) - 3 * (n + 1) <= 2
    &&& 2 * (q2_low + 1) <= n + 1 < 2 * (q2_low + 1) + 2
    &&& n + 1 <= 2 * (q2_high + 1) < n + 3
    &&& -10 < 20 * (p95 + 1) - 19 * n <= 10
    &&& (n >= 10 ==> -10 < 20 * (p5 + 1) - n <= 10)
    &&& (n < 10 ==> p5 == 0)
}

/// The positions are the rounded fractions of the sample size.
pub proof fn lemma_positions_rounded(n: int)
    requires
        n >= 2,
    ensures
        rounded_positions(
            n,
            p5_position(n),
            q1_position(n),
            q2_low_position(n),
            q2_high_position(n),
            q3_position(n),
            p95_position(n),
        ),
{
}

/// With at least two observations every position lies inside the sample and
/// the positions come in the order P5, Q1, Q2 (low, high), Q3, P95.
pub proof fn lemma_positions_ordered(n: int)
    requires
        n >= 2,
    ensures
        0 <= p5_position(n) <= q1_position(n),
        q1_position(n) <= q2_low_position(n),
        q2_low_position(n) <= q2_high_position(n),
        q2_high_position(n) <= q3_position(n),
        q3_position(n) <= p95_position(n),
        p95_position(n) < n,
{
}

/// The positions of the order statistics in a sorted sample of `n` values.
pub fn quantile_positions(n: usize) -> (r: QuantilePositions)
    requires
        n >= 2,
    ensures
        r.matches(n as int),
        rounded_positions(
            n as int,
            r.p5 as int,
            r.q1 as int,
            r.q2_low as int,
            r.q2_high as int,
            r.q3 as int,
            r.p95 as int,
        ),
{
    proof {
        lemma_positions_ordered(n as int);
        lemma_positions_rounded(n as int);
    }
    let wide: u128 = n as u128;
    let p5: usize = if n >= 10 {
        ((wide + 10) / 20 - 1) as usize
    } else {
        0
    };
    let q1: usize = ((wide + 3) / 4 - 1) as usize;
    let q2_low: usize = ((wide + 1) / 2 - 1) as usize;
    let q2_high: usize = n / 2;
    let q3: usize = ((3 * wide + 5) / 4 - 1) as usize;
    let p95: usize = ((19 * wide + 10) / 20 - 1) as usize;
    QuantilePositions { p5, q1, q2_low, q2_high, q3, p95 }
}

/// The sorted sample and its order statistics.
#[derive(Debug)]
pub struct Summary {
    /// the sample in ascending order (a stable sort)
    pub sorted: Vec<Real>,
    /// number of observations
    pub count: usize,
    pub p5: Real,
    pub q1: Real,
    /// the two values whose mean is the median
    pub q2_low: Real,
    pub q2_high: Real,
    pub q3: Real,
    pub p95: Real,
}

impl Summary {
    /// The summary holds the stably sorted sample `sorted`, and the points
    /// are its values at the positions for `sorted.len()` observations.
    pub open spec fn taken_from(self, sorted: Seq<Real>) -> bool {
        let n = sorted.len() as int;
        &&& self.sorted@ == sorted
        &&& self.count == n
        &&& self.p5 == sorted[p5_position(n)]
        &&& self.q1 == sorted[q1_position(n)]
        &&& self.q2_low == sorted[q2_low_position(n)]
        &&& self.q2_high == sorted[q2_high_position(n)]
        &&& self.q3 == sorted[q3_position(n)]
        &&& self.p95 == sorted[p95_position(n)]
    }

    /// `P5 <= Q1 <= Q2 (low) <= Q2 (high) <= Q3 <= P95`
    pub open spec fn in_order(self) -> bool {
        &&& self.p5.at_most(self.q1)
        &&& self.q1.at_most(self.q2_low)
        &&& self.q2_low.at_most(self.q2_high)
        &&& self.q2_high.at_most(self.q3)
        &&& self.q3.at_most(self.p95)
    }
}

/// The order statistics of `numbers`: the sample is sorted (stably, by value)
/// and the values at the quantile positions are read off. The sample needs two
/// values at least, and no `NaN`, which has no place in the order.
pub fn summary(numbers: &Vec<Real>) -> (r: Summary)
    requires
        numbers.len() >= 2,
        all_wf(numbers@),
        no_nan(numbers@),
    ensures
        r.taken_from(sort_by_value(numbers@)),
        r.in_order(),
        r.p5.wf() && r.q1.wf() && r.q2_low.wf() && r.q2_high.wf() && r.q3.wf() && r.p95.wf(),
{
    let sorted = sort_values(numbers);
    proof {
        lemma_sort_is_permutation(numbers@);
        lemma_sort_is_ascending(numbers@);
        lemma_positions_ordered(numbers.len() as int);
    }
    let n = sorted.len();
    let pos = quantile_positions(n);
    let p5 = sorted[pos.p5];
    let q1 = sorted[pos.q1];
    let q2_low = sorted[pos.q2_low];
    let q2_high = sorted[pos.q2_high];
    let q3 = sorted[pos.q3];
    let p95 = sorted[pos.p95];
    proof {
        let s = sorted@;
        assert(ascending(s));
        lemma_ordered_pair(s, pos.p5 as int, pos.q1 as int);
        lemma_ordered_pair(s, pos.q1 as int, pos.q2_low as int);
        lemma_ordered_pair(s, pos.q2_low as int, pos.q2_high as int);
        lemma_ordered_pair(s, pos.q2_high as int, pos.q3 as int);
        lemma_ordered_pair(s, pos.q3 as int, pos.p95 as int);
    }
    Summary { sorted, count: n, p5, q1, q2_low, q2_high, q3, p95 }
}

/// The summary depends only on the sample's values, not on their order: for
/// two arrangements of the same values, the counts are equal and every point
/// (and every position of the sorted sample) compares equal. Values that
/// compare equal can still differ in sign, as `-0` and `+0` do.
pub proof fn lemma_summary_depends_on_values(
    s1: Seq<Real>,
    s2: Seq<Real>,
    r1: Summary,
    r2: Summary,
)
    requires
        s1.to_multiset() == s2.to_multiset(),
        s1.len() >= 2,
        no_nan(s1),
        r1.taken_from(sort_by_value(s1)),
        r2.taken_from(sort_by_value(s2)),
    ensures
        r1.count == r2.count,
        forall|k: int| 0 <= k < r1.count ==> (#[trigger] r1.sorted@[k]).same_value(r2.sorted@[k]),
        r1.p5.same_value(r2.p5),
        r1.q1.same_value(r2.q1),
        r1.q2_low.same_value(r2.q2_low),
        r1.q2_high.same_value(r2.q2_high),
        r1.q3.same_value(r2.q3),
        r1.p95.same_value(r2.p95),
{
    lemma_sort_depends_on_values(s1, s2);
    lemma_positions_ordered(s1.len() as int);
}

proof fn lemma_ordered_pair(s: Seq<Real>, i: int, j: int)
    requires
        ascending(s),
        no_nan(s),
        0 <= i <= j < s.len(),
    ensures
        s[i].at_most(s[j]),
{
    if i == j {
        assert(!s[i].is_nan());
    }
}

} // verus!

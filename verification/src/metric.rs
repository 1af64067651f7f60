//! Distance metrics between a query point and a point of a data source:
//! L1 (sum of absolute differences) and squared L2 (sum of squared
//! differences). Coordinates are `i32`, distances `i64`.
use vstd::prelude::*;
use crate::utils::HasPointData;

verus! {

/// `|a - b|`.
pub open spec fn abs_diff(a: i32, b: i32) -> int {
    if a >= b {
        a - b
    } else {
        b - a
    }
}

/// `(a - b)^2`.
pub open spec fn sq_diff(a: i32, b: i32) -> int {
    (a - b) * (a - b)
}

/// The sum of `|a[i] - b[i]|` over the first `n` coordinates.
pub open spec fn l1_prefix(a: Seq<i32>, b: Seq<i32>, n: nat) -> int
    decreases n,
{
    if n == 0 {
        0
    } else {
        l1_prefix(a, b, (n - 1) as nat) + abs_diff(a[n - 1], b[n - 1])
    }
}

/// The sum of `(a[i] - b[i])^2` over the first `n` coordinates.
pub open spec fn l2_prefix(a: Seq<i32>, b: Seq<i32>, n: nat) -> int
    decreases n,
{
    if n == 0 {
        0
    } else {
        l2_prefix(a, b, (n - 1) as nat) + sq_diff(a[n - 1], b[n - 1])
    }
}

/// What a sum with early exit returns: coordinates are added in groups of
/// four from `d` on; after a group, when the sum so far exceeds `worst`, that
/// sum is returned; the last fewer-than-four coordinates are added without a
/// check.
pub open spec fn early_exit(prefix: spec_fn(nat) -> int, len: nat, d: nat, worst: Option<i64>) -> int
    decreases len - d,
{
    if d + 4 <= len {
        if worst matches Some(w) && prefix(d + 4) > w {
            prefix(d + 4)
        } else {
            early_exit(prefix, len, d + 4, worst)
        }
    } else {
        prefix(len)
    }
}

/// Without a bound to beat, the sum with early exit is the whole sum.
pub proof fn lemma_early_exit_unbounded(prefix: spec_fn(nat) -> int, len: nat, d: nat)
    ensures
        early_exit(prefix, len, d, None) == prefix(len),
    decreases len - d,
{
    if d + 4 <= len {
        lemma_early_exit_unbounded(prefix, len, d + 4);
    }
}

/// With a bound, the sum with early exit is the whole sum or a partial sum
/// above the bound that is no larger than the whole sum, when partial sums
/// grow.
pub proof fn lemma_early_exit_bounded(prefix: spec_fn(nat) -> int, len: nat, d: nat, w: i64)
    requires
        forall|m: nat, k: nat| m <= k <= len ==> #[trigger] prefix(m) <= #[trigger] prefix(k),
    ensures
        early_exit(prefix, len, d, Some(w)) == prefix(len) || (w < early_exit(prefix, len, d, Some(w)) <= prefix(len)),
    decreases len - d,
{
    if d + 4 <= len {
        if prefix((d + 4) as nat) <= w {
            lemma_early_exit_bounded(prefix, len, d + 4, w);
        } else {
            assert(prefix((d + 4) as nat) <= prefix(len));
        }
    }
}

/// The grouped squared L2 distance without a bound equals the squared L2
/// distance added one coordinate at a time.
pub proof fn lemma_l2_grouped_is_simple(a: Seq<i32>, b: Seq<i32>)
    ensures
        early_exit(|n: nat| l2_prefix(a, b, n), a.len(), 0, None) == l2_prefix(a, b, a.len()),
{
    lemma_early_exit_unbounded(|n: nat| l2_prefix(a, b, n), a.len(), 0);
}

pub proof fn lemma_l1_mono(a: Seq<i32>, b: Seq<i32>, m: nat, n: nat)
    requires
        m <= n,
    ensures
        0 <= l1_prefix(a, b, m) <= l1_prefix(a, b, n),
    decreases n,
{
    if m < n {
        lemma_l1_mono(a, b, m, (n - 1) as nat);
    } else if n > 0 {
        lemma_l1_mono(a, b, (n - 1) as nat, (n - 1) as nat);
    }
}

pub proof fn lemma_l2_mono(a: Seq<i32>, b: Seq<i32>, m: nat, n: nat)
    requires
        m <= n,
    ensures
        0 <= l2_prefix(a, b, m) <= l2_prefix(a, b, n),
    decreases n,
{
    if n > 0 {
        let x = a[n - 1] - b[n - 1];
        assert(x * x >= 0) by (nonlinear_arith);
        if m < n {
            lemma_l2_mono(a, b, m, (n - 1) as nat);
        } else {
            lemma_l2_mono(a, b, (n - 1) as nat, (n - 1) as nat);
        }
    }
}

/// `|a - b|` as a distance.
fn abs_diff_exec(a: i32, b: i32) -> (r: i64)
    ensures
        r == abs_diff(a, b),
{
    if a >= b {
        a as i64 - b as i64
    } else {
        b as i64 - a as i64
    }
}

/// `(a - b)^2` as a distance, when it fits.
fn sq_diff_exec(a: i32, b: i32) -> (r: i64)
    requires
        sq_diff(a, b) <= i64::MAX,
    ensures
        r == sq_diff(a, b),
{
    let d = a as i64 - b as i64;
    assert(d * d == sq_diff(a, b));
    assert(d * d >= 0) by (nonlinear_arith);
    d * d
}

/// The L1 (Manhattan) distance to the points of a data source.
pub struct L1Adaptor<DataSourceAny> {
    data_source: DataSourceAny,
}

impl<DataSourceAny: HasPointData<ElementTypeAny = i32>> L1Adaptor<DataSourceAny> {
    pub closed spec fn spec_source(&self) -> DataSourceAny {
        self.data_source
    }

    pub fn new(data_source: DataSourceAny) -> (r: Self)
        ensures
            r.spec_source() == data_source,
    {
        L1Adaptor { data_source }
    }

    /// The L1 distance from `a` to point `b_idx`, added up four coordinates
    /// at a time; when `worst_dist` is given and the sum after a group
    /// exceeds it, that partial sum is returned at once.
    pub fn eval_metric(&self, a: &[i32], b_idx: usize, size: usize, worst_dist: Option<i64>) -> (r: i64)
        requires
            a@.len() >= 3,
            b_idx < self.spec_source().spec_points().len(),
            a@.len() <= self.spec_source().spec_points()[b_idx as int].len(),
            l1_prefix(a@, self.spec_source().spec_points()[b_idx as int], a@.len()) <= i64::MAX,
        ensures
            r == early_exit(
                |n: nat| l1_prefix(a@, self.spec_source().spec_points()[b_idx as int], n),
                a@.len(),
                0,
                worst_dist,
            ),
    {
        let ghost b = self.spec_source().spec_points()[b_idx as int];
        let ghost p = |n: nat| l1_prefix(a@, b, n);
        let last = a.len();
        let lastgroup = last - 3;
        let mut result: i64 = 0;
        let mut d: usize = 0;
        while d < lastgroup
            invariant
                b == self.spec_source().spec_points()[b_idx as int],
                p == (|n: nat| l1_prefix(a@, b, n)),
                b_idx < self.spec_source().spec_points().len(),
                last == a@.len() <= b.len(),
                lastgroup == last - 3,
                d <= last,
                d % 4 == 0,
                result == l1_prefix(a@, b, d as nat),
                l1_prefix(a@, b, last as nat) <= i64::MAX,
                early_exit(p, last as nat, 0, worst_dist) == early_exit(p, last as nat, d as nat, worst_dist),
            decreases last - d,
        {
            proof {
                lemma_l1_mono(a@, b, (d + 4) as nat, last as nat);
                lemma_l1_mono(a@, b, (d + 1) as nat, (d + 4) as nat);
                lemma_l1_mono(a@, b, (d + 2) as nat, (d + 4) as nat);
                lemma_l1_mono(a@, b, (d + 3) as nat, (d + 4) as nat);
            }
            let diff0 = abs_diff_exec(a[d], self.data_source.get_point_dim(b_idx, d));
            let diff1 = abs_diff_exec(a[d + 1], self.data_source.get_point_dim(b_idx, d + 1));
            let diff2 = abs_diff_exec(a[d + 2], self.data_source.get_point_dim(b_idx, d + 2));
            let diff3 = abs_diff_exec(a[d + 3], self.data_source.get_point_dim(b_idx, d + 3));
            result = result + (diff0 + diff1 + diff2 + diff3);
            d = d + 4;
            if let Some(w) = worst_dist {
                if result > w {
                    return result;
                }
            }
        }
        assert(early_exit(p, last as nat, d as nat, worst_dist) == p(last as nat));
        while d < last
            invariant
                b == self.spec_source().spec_points()[b_idx as int],
                p == (|n: nat| l1_prefix(a@, b, n)),
                b_idx < self.spec_source().spec_points().len(),
                last == a@.len() <= b.len(),
                d <= last,
                result == l1_prefix(a@, b, d as nat),
                l1_prefix(a@, b, last as nat) <= i64::MAX,
                early_exit(p, last as nat, 0, worst_dist) == p(last as nat),
            decreases last - d,
        {
            proof {
                lemma_l1_mono(a@, b, (d + 1) as nat, last as nat);
            }
            let diff = abs_diff_exec(a[d], self.data_source.get_point_dim(b_idx, d));
            result = result + diff;
            d = d + 1;
        }
        result
    }

    /// `|a - b|`.
    pub fn accum_dist(&self, a: i32, b: i32, _idx: usize) -> (r: i64)
        ensures
            r == abs_diff(a, b),
    {
        abs_diff_exec(a, b)
    }
}

/// The squared L2 (Euclidean) distance to the points of a data source.
pub struct L2Adaptor<DataSourceAny> {
    data_source: DataSourceAny,
}

impl<DataSourceAny: HasPointData<ElementTypeAny = i32>> L2Adaptor<DataSourceAny> {
    pub closed spec fn spec_source(&self) -> DataSourceAny {
        self.data_source
    }

    pub fn new(data_source: DataSourceAny) -> (r: Self)
        ensures
            r.spec_source() == data_source,
    {
        L2Adaptor { data_source }
    }

    /// The squared L2 distance from `a` to point `b_idx`, added up four coordinates
    /// at a time; when `worst_dist` is given and the sum after a group
    /// exceeds it, that partial sum is returned at once.
    pub fn eval_metric(&self, a: &[i32], b_idx: usize, size: usize, worst_dist: Option<i64>) -> (r: i64)
        requires
            a@.len() >= 3,
            b_idx < self.spec_source().spec_points().len(),
            a@.len() <= self.spec_source().spec_points()[b_idx as int].len(),
            l2_prefix(a@, self.spec_source().spec_points()[b_idx as int], a@.len()) <= i64::MAX,
        ensures
            r == early_exit(
                |n: nat| l2_prefix(a@, self.spec_source().spec_points()[b_idx as int], n),
                a@.len(),
                0,
                worst_dist,
            ),
    {
        let ghost b = self.spec_source().spec_points()[b_idx as int];
        let ghost p = |n: nat| l2_prefix(a@, b, n);
        let last = a.len();
        let lastgroup = last - 3;
        let mut result: i64 = 0;
        let mut d: usize = 0;
        while d < lastgroup
            invariant
                b == self.spec_source().spec_points()[b_idx as int],
                p == (|n: nat| l2_prefix(a@, b, n)),
                b_idx < self.spec_source().spec_points().len(),
                last == a@.len() <= b.len(),
                lastgroup == last - 3,
                d <= last,
                d % 4 == 0,
                result == l2_prefix(a@, b, d as nat),
                l2_prefix(a@, b, last as nat) <= i64::MAX,
                early_exit(p, last as nat, 0, worst_dist) == early_exit(p, last as nat, d as nat, worst_dist),
            decreases last - d,
        {
            proof {
                lemma_l2_mono(a@, b, (d + 4) as nat, last as nat);
                lemma_l2_mono(a@, b, (d + 1) as nat, (d + 4) as nat);
                lemma_l2_mono(a@, b, (d + 2) as nat, (d + 4) as nat);
                lemma_l2_mono(a@, b, (d + 3) as nat, (d + 4) as nat);
                lemma_l2_mono(a@, b, d as nat, (d + 1) as nat);
            }
            let diff0 = sq_diff_exec(a[d], self.data_source.get_point_dim(b_idx, d));
            let diff1 = sq_diff_exec(a[d + 1], self.data_source.get_point_dim(b_idx, d + 1));
            let diff2 = sq_diff_exec(a[d + 2], self.data_source.get_point_dim(b_idx, d + 2));
            let diff3 = sq_diff_exec(a[d + 3], self.data_source.get_point_dim(b_idx, d + 3));
            result = result + (diff0 + diff1 + diff2 + diff3);
            d = d + 4;
            if let Some(w) = worst_dist {
                if result > w {
                    return result;
                }
            }
        }
        assert(early_exit(p, last as nat, d as nat, worst_dist) == p(last as nat));
        while d < last
            invariant
                b == self.spec_source().spec_points()[b_idx as int],
                p == (|n: nat| l2_prefix(a@, b, n)),
                b_idx < self.spec_source().spec_points().len(),
                last == a@.len() <= b.len(),
                d <= last,
                result == l2_prefix(a@, b, d as nat),
                l2_prefix(a@, b, last as nat) <= i64::MAX,
                early_exit(p, last as nat, 0, worst_dist) == p(last as nat),
            decreases last - d,
        {
            proof {
                lemma_l2_mono(a@, b, (d + 1) as nat, last as nat);
                lemma_l2_mono(a@, b, d as nat, (d + 1) as nat);
            }
            let diff = sq_diff_exec(a[d], self.data_source.get_point_dim(b_idx, d));
            result = result + diff;
            d = d + 1;
        }
        result
    }

    /// `(a - b)^2`.
    pub fn accum_dist(&self, a: i32, b: i32, _idx: usize) -> (r: i64)
        requires
            sq_diff(a, b) <= i64::MAX,
        ensures
            r == sq_diff(a, b),
    {
        sq_diff_exec(a, b)
    }
}

/// The squared L2 distance, added up one coordinate at a time; for points
/// of few dimensions.
pub struct L2SimpleAdaptor<DataSourceAny> {
    data_source: DataSourceAny,
}

impl<DataSourceAny: HasPointData<ElementTypeAny = i32>> L2SimpleAdaptor<DataSourceAny> {
    pub closed spec fn spec_source(&self) -> DataSourceAny {
        self.data_source
    }

    pub fn new(data_source: DataSourceAny) -> (r: Self)
        ensures
            r.spec_source() == data_source,
    {
        L2SimpleAdaptor { data_source }
    }

    /// The squared L2 distance from `a` to point `b_idx` over the first
    /// `size` coordinates.
    pub fn eval_metric(&self, a: &[i32], b_idx: usize, size: usize) -> (r: i64)
        requires
            size <= a@.len(),
            b_idx < self.spec_source().spec_points().len(),
            size <= self.spec_source().spec_points()[b_idx as int].len(),
            l2_prefix(a@, self.spec_source().spec_points()[b_idx as int], size as nat) <= i64::MAX,
        ensures
            r == l2_prefix(a@, self.spec_source().spec_points()[b_idx as int], size as nat),
    {
        let ghost b = self.spec_source().spec_points()[b_idx as int];
        let mut result: i64 = 0;
        let mut i: usize = 0;
        while i < size
            invariant
                b == self.spec_source().spec_points()[b_idx as int],
                b_idx < self.spec_source().spec_points().len(),
                size <= a@.len(),
                size <= b.len(),
                i <= size,
                result == l2_prefix(a@, b, i as nat),
                l2_prefix(a@, b, size as nat) <= i64::MAX,
            decreases size - i,
        {
            proof {
                lemma_l2_mono(a@, b, (i + 1) as nat, size as nat);
                lemma_l2_mono(a@, b, i as nat, (i + 1) as nat);
            }
            let diff = sq_diff_exec(a[i], self.data_source.get_point_dim(b_idx, i));
            result = result + diff;
            i = i + 1;
        }
        result
    }

    /// `(a - b)^2`.
    pub fn accum_dist(&self, a: i32, b: i32, _idx: usize) -> (r: i64)
        requires
            sq_diff(a, b) <= i64::MAX,
        ensures
            r == sq_diff(a, b),
    {
        sq_diff_exec(a, b)
    }
}

/// The distance between rotations in three dimensions, given as unit
/// quaternions: the squared L2 distance of their coordinates.
pub struct SO3Adaptor<DataSourceAny> {
    l2_simple: L2SimpleAdaptor<DataSourceAny>,
}

impl<DataSourceAny: HasPointData<ElementTypeAny = i32>> SO3Adaptor<DataSourceAny> {
    pub closed spec fn spec_source(&self) -> DataSourceAny {
        self.l2_simple.spec_source()
    }

    pub fn new(data_source: DataSourceAny) -> (r: Self)
        ensures
            r.spec_source() == data_source,
    {
        SO3Adaptor { l2_simple: L2SimpleAdaptor::new(data_source) }
    }

    /// The squared L2 distance over the first `size` coordinates.
    pub fn eval_metric(&self, a: &[i32], b_idx: usize, size: usize) -> (r: i64)
        requires
            size <= a@.len(),
            b_idx < self.spec_source().spec_points().len(),
            size <= self.spec_source().spec_points()[b_idx as int].len(),
            l2_prefix(a@, self.spec_source().spec_points()[b_idx as int], size as nat) <= i64::MAX,
        ensures
            r == l2_prefix(a@, self.spec_source().spec_points()[b_idx as int], size as nat),
    {
        self.l2_simple.eval_metric(a, b_idx, size)
    }

    /// `(a - b)^2`.
    pub fn accum_dist(&self, a: i32, b: i32, idx: usize) -> (r: i64)
        requires
            sq_diff(a, b) <= i64::MAX,
        ensures
            r == sq_diff(a, b),
    {
        self.l2_simple.accum_dist(a, b, idx)
    }
}

/// The family of distance metrics.
pub struct Metric;

/// The L1 metric.
pub struct MetricL1;

impl MetricL1 {
    /// The L1 adaptor for `data_source`.
    pub fn traits<DataSourceAny: HasPointData<ElementTypeAny = i32>>(data_source: DataSourceAny) -> (r: L1Adaptor<DataSourceAny>)
        ensures
            r.spec_source() == data_source,
    {
        L1Adaptor::new(data_source)
    }
}

/// The squared L2 metric.
pub struct MetricL2;

impl MetricL2 {
    /// The L2 adaptor for `data_source`.
    pub fn traits<DataSourceAny: HasPointData<ElementTypeAny = i32>>(data_source: DataSourceAny) -> (r: L2Adaptor<DataSourceAny>)
        ensures
            r.spec_source() == data_source,
    {
        L2Adaptor::new(data_source)
    }
}

/// The squared L2 metric for points of few dimensions.
pub struct MetricL2Simple;

impl MetricL2Simple {
    /// The simple L2 adaptor for `data_source`.
    pub fn traits<DataSourceAny: HasPointData<ElementTypeAny = i32>>(data_source: DataSourceAny) -> (r: L2SimpleAdaptor<DataSourceAny>)
        ensures
            r.spec_source() == data_source,
    {
        L2SimpleAdaptor::new(data_source)
    }
}

/// The metric of rotations in three dimensions.
pub struct MetricSO3;

impl MetricSO3 {
    /// The SO(3) adaptor for `data_source`.
    pub fn traits<DataSourceAny: HasPointData<ElementTypeAny = i32>>(data_source: DataSourceAny) -> (r: SO3Adaptor<DataSourceAny>)
        ensures
            r.spec_source() == data_source,
    {
        SO3Adaptor::new(data_source)
    }
}

} // verus!

//! A static kd-tree over the points of a data set: an index list that is
//! sorted range by range, and a tree of nodes whose leaves are ranges of that
//! list.
use vstd::prelude::*;
use crate::base::{Interval, Node, NodeType};
use crate::file::{
    intervals_at, lemma_intervals_roundtrip, lemma_node_reads_back, lemma_usizes_roundtrip,
    usizes_at, Cursor, Deserialize, IoError, Serialize,
};
use crate::sets::{KNNResultSet, SuperSet, count_after_add, knn_offer};
use crate::metric::{l2_prefix, lemma_l2_mono, sq_diff};
use crate::order::{
    greater, insert_pos, is_total_order, lemma_i64_total_order, lemma_insert_pos, lemma_insert_sorted, lemma_take_sorted,
    sorted_by_dist,
};
use crate::utils::MaxValue;
use crate::utils::HasPointData;

verus! {

/// The lowest coordinate `i` among the first `k` points that have one, or
/// `i32::MAX` when none has.
pub open spec fn low_upto(points: Seq<Seq<i32>>, i: int, k: int) -> i32
    decreases k,
{
    if k <= 0 {
        i32::MAX
    } else {
        let m = low_upto(points, i, k - 1);
        if i < points[k - 1].len() && points[k - 1][i] < m {
            points[k - 1][i]
        } else {
            m
        }
    }
}

/// The highest coordinate `i` among the first `k` points that have one, or
/// `i32::MIN` when none has.
pub open spec fn high_upto(points: Seq<Seq<i32>>, i: int, k: int) -> i32
    decreases k,
{
    if k <= 0 {
        i32::MIN
    } else {
        let m = high_upto(points, i, k - 1);
        if i < points[k - 1].len() && points[k - 1][i] > m {
            points[k - 1][i]
        } else {
            m
        }
    }
}

/// The bounding box of `points` in `dim` dimensions.
pub open spec fn bounding_box(points: Seq<Seq<i32>>, dim: nat) -> Seq<Interval> {
    Seq::new(
        dim,
        |i: int| Interval { low: low_upto(points, i, points.len() as int), high: high_upto(points, i, points.len() as int) },
    )
}

/// The coordinate along `cd` of the point that entry `k` of `index` names.
pub open spec fn key_at(points: Seq<Seq<i32>>, index: Seq<usize>, cd: int, k: int) -> i32 {
    points[index[k] as int][cd]
}

/// Entries `start..end` of `index` name points in ascending order of their
/// coordinate along `cd`.
pub open spec fn range_sorted(points: Seq<Seq<i32>>, index: Seq<usize>, cd: int, start: int, end: int) -> bool {
    forall|a: int, b: int|
        start <= a < b < end ==> key_at(points, index, cd, a) <= key_at(points, index, cd, b)
}

/// Every entry of `index` names a point that has a coordinate along `cd`.
pub open spec fn index_ok(points: Seq<Seq<i32>>, index: Seq<usize>, cd: int) -> bool {
    forall|k: int| 0 <= k < index.len() ==> (#[trigger] index[k] as int) < points.len() && cd < points[index[k] as int].len()
}

/// The middle of a range, rounded down.
pub open spec fn mid_of(start: int, end: int) -> int {
    start + (end - start) / 2
}

/// `node` is the tree that `divide_tree` builds over entries `start..end` of
/// the sorted `index`: a leaf for a range of at most `leaf_max` entries, else
/// an inner node on dimension `cd` with the lowest and highest coordinate of
/// the range, and the two halves as children.
pub open spec fn tree_ok(
    node: Node,
    points: Seq<Seq<i32>>,
    index: Seq<usize>,
    cd: int,
    leaf_max: int,
    start: int,
    end: int,
) -> bool
    decreases end - start,
{
    if end - start <= leaf_max {
        &&& node.node_type == (NodeType::Leaf { left: start as usize, right: end as usize })
        &&& node.child1 is None
        &&& node.child2 is None
    } else if leaf_max >= 1 {
        &&& node.node_type == (NodeType::NonLeaf {
            divfeat: cd as i32,
            divlow: key_at(points, index, cd, start),
            divhigh: key_at(points, index, cd, end - 1),
        })
        &&& node.child1 matches Some(c1) && tree_ok(*c1, points, index, cd, leaf_max, start, mid_of(start, end))
        &&& node.child2 matches Some(c2) && tree_ok(*c2, points, index, cd, leaf_max, mid_of(start, end), end)
    } else {
        false
    }
}

/// The bounding box holds every point: each coordinate lies between the
/// box's low and high end along its dimension.
pub proof fn lemma_bbox_holds_points(points: Seq<Seq<i32>>, i: int, k: int)
    requires
        0 <= k <= points.len(),
    ensures
        forall|q: int|
            0 <= q < k && 0 <= i < points[q].len() ==> low_upto(points, i, k) <= #[trigger] points[q][i] <= high_upto(
                points,
                i,
                k,
            ),
    decreases k,
{
    if k > 0 {
        lemma_bbox_holds_points(points, i, k - 1);
    }
}

/// Each end of the bounding box is attained: when some of the first `k`
/// points has coordinate `i`, one of them has exactly the lowest and one has
/// exactly the highest value there.
pub proof fn lemma_bbox_ends_attained(points: Seq<Seq<i32>>, i: int, k: int)
    requires
        0 <= i,
        0 <= k <= points.len(),
        exists|q: int| 0 <= q < k && i < points[q].len(),
    ensures
        exists|q: int| 0 <= q < k && i < points[q].len() && #[trigger] points[q][i] == low_upto(points, i, k),
        exists|q: int| 0 <= q < k && i < points[q].len() && #[trigger] points[q][i] == high_upto(points, i, k),
    decreases k,
{
    let last = k - 1;
    if exists|q: int| 0 <= q < k - 1 && i < points[q].len() {
        lemma_bbox_ends_attained(points, i, k - 1);
        lemma_bbox_holds_points(points, i, k - 1);
        let ql = choose|q: int| 0 <= q < k - 1 && i < points[q].len() && #[trigger] points[q][i] == low_upto(points, i, k - 1);
        let qh = choose|q: int| 0 <= q < k - 1 && i < points[q].len() && #[trigger] points[q][i] == high_upto(points, i, k - 1);
        if i < points[last].len() && points[last][i] < low_upto(points, i, k - 1) {
            assert(points[last][i] == low_upto(points, i, k));
        } else {
            assert(points[ql][i] == low_upto(points, i, k));
        }
        if i < points[last].len() && points[last][i] > high_upto(points, i, k - 1) {
            assert(points[last][i] == high_upto(points, i, k));
        } else {
            assert(points[qh][i] == high_upto(points, i, k));
        }
    } else {
        assert(i < points[last].len());
        assert(forall|q: int| 0 <= q < k - 1 ==> !(i < points[q].len()));
        lemma_no_coordinate(points, i, k - 1);
        assert(points[last][i] == low_upto(points, i, k));
        assert(points[last][i] == high_upto(points, i, k));
    }
}

/// Where none of the first `k` points has coordinate `i`, the box is empty
/// there.
proof fn lemma_no_coordinate(points: Seq<Seq<i32>>, i: int, k: int)
    requires
        0 <= k <= points.len(),
        forall|q: int| 0 <= q < k ==> !(i < points[q].len()),
    ensures
        low_upto(points, i, k) == i32::MAX,
        high_upto(points, i, k) == i32::MIN,
    decreases k,
{
    if k > 0 {
        lemma_no_coordinate(points, i, k - 1);
    }
}

/// The bounding box is the tightest box around the points: along every
/// dimension some point has, its low end is a coordinate of some point and
/// no point is below it, and likewise its high end.
pub proof fn lemma_bounding_box_tight(points: Seq<Seq<i32>>, dim: nat, i: int)
    requires
        0 <= i < dim,
        exists|q: int| 0 <= q < points.len() && i < points[q].len(),
    ensures
        exists|q: int| 0 <= q < points.len() && i < points[q].len() && #[trigger] points[q][i] == bounding_box(points, dim)[i].low,
        exists|q: int| 0 <= q < points.len() && i < points[q].len() && #[trigger] points[q][i] == bounding_box(points, dim)[i].high,
        forall|q: int|
            0 <= q < points.len() && i < points[q].len() ==> bounding_box(points, dim)[i].low <= #[trigger] points[q][i]
                <= bounding_box(points, dim)[i].high,
{
    lemma_bbox_ends_attained(points, i, points.len() as int);
    lemma_bbox_holds_points(points, i, points.len() as int);
}

/// The squared distance is the sum of the squared coordinate differences
/// over the coordinates both points have: it is 0 over no coordinates, and
/// each further shared coordinate adds `(q[n] - p[n])^2`.
pub proof fn lemma_point_distance_squared(q: Seq<i32>, p: Seq<i32>)
    ensures
        point_distance(q, p) == l2_prefix(q, p, if q.len() <= p.len() { q.len() } else { p.len() }),
        l2_prefix(q, p, 0) == 0,
        forall|n: nat|
            n < q.len() && n < p.len() ==> #[trigger] l2_prefix(q, p, n + 1) == l2_prefix(q, p, n) + (q[n as int]
                - p[n as int]) * (q[n as int] - p[n as int]),
{
    assert forall|n: nat| n < q.len() && n < p.len() implies #[trigger] l2_prefix(q, p, n + 1) == l2_prefix(q, p, n)
        + (q[n as int] - p[n as int]) * (q[n as int] - p[n as int]) by {
        assert((n + 1) as nat - 1 == n);
    }
}

/// The leaves of a tree from left to right, as ranges of the index list.
pub open spec fn leaves_of(node: Node) -> Seq<(usize, usize)>
    decreases node,
{
    match node.node_type {
        NodeType::Leaf { left, right } => seq![(left, right)],
        NodeType::NonLeaf { .. } => (match node.child1 {
            Some(c) => leaves_of(*c),
            None => Seq::empty(),
        }) + (match node.child2 {
            Some(c) => leaves_of(*c),
            None => Seq::empty(),
        }),
    }
}

/// Ranges that follow each other without gap or overlap from `start` to
/// `end`, each of at most `leaf_max` entries.
pub open spec fn ranges_cover(ls: Seq<(usize, usize)>, start: int, end: int, leaf_max: int) -> bool {
    &&& ls.len() >= 1
    &&& ls[0].0 == start
    &&& ls.last().1 == end
    &&& forall|j: int| 0 <= j < ls.len() - 1 ==> (#[trigger] ls[j]).1 == ls[j + 1].0
    &&& forall|j: int| 0 <= j < ls.len() ==> (#[trigger] ls[j]).0 <= ls[j].1 && ls[j].1 - ls[j].0 <= leaf_max
}

/// The leaves of a tree built over entries `start..end` cut that range into
/// consecutive pieces of at most `leaf_max` entries: every entry, and so
/// every point, is in exactly one leaf.
pub proof fn lemma_leaves_cover(
    node: Node,
    points: Seq<Seq<i32>>,
    index: Seq<usize>,
    cd: int,
    leaf_max: int,
    start: int,
    end: int,
)
    requires
        tree_ok(node, points, index, cd, leaf_max, start, end),
        0 <= start <= end <= usize::MAX,
    ensures
        ranges_cover(leaves_of(node), start, end, leaf_max),
    decreases end - start,
{
    if end - start > leaf_max {
        let m = mid_of(start, end);
        let c1 = *node.child1.unwrap();
        let c2 = *node.child2.unwrap();
        lemma_leaves_cover(c1, points, index, cd, leaf_max, start, m);
        lemma_leaves_cover(c2, points, index, cd, leaf_max, m, end);
        let l1 = leaves_of(c1);
        let l2 = leaves_of(c2);
        let ls = leaves_of(node);
        assert(ls == l1 + l2);
        assert forall|j: int| 0 <= j < ls.len() - 1 implies (#[trigger] ls[j]).1 == ls[j + 1].0 by {
            if j < l1.len() - 1 {
                assert(ls[j] == l1[j] && ls[j + 1] == l1[j + 1]);
            } else if j == l1.len() - 1 {
                assert(ls[j] == l1[j] && ls[j + 1] == l2[0]);
            } else {
                assert(ls[j] == l2[j - l1.len()] && ls[j + 1] == l2[j + 1 - l1.len()]);
            }
        }
        assert forall|j: int| 0 <= j < ls.len() implies (#[trigger] ls[j]).0 <= ls[j].1 && ls[j].1 - ls[j].0 <= leaf_max by {
            if j < l1.len() {
                assert(ls[j] == l1[j]);
            } else {
                assert(ls[j] == l2[j - l1.len()]);
            }
        }
    }
}

/// `new` holds the entries of `old` rearranged by `perm` (`new[k]` is
/// `old[perm[k]]`, each taken once), only entries `start..end` move and they
/// stay within that range, and entries naming points with equal coordinates
/// along `cd` keep their order.
pub open spec fn stable_rearrangement(
    points: Seq<Seq<i32>>,
    cd: int,
    old: Seq<usize>,
    new: Seq<usize>,
    perm: Seq<int>,
    start: int,
    end: int,
) -> bool {
    &&& perm.len() == new.len() == old.len()
    &&& forall|k: int| 0 <= k < perm.len() ==> 0 <= #[trigger] perm[k] < old.len() && new[k] == old[perm[k]]
    &&& forall|k: int| 0 <= k < perm.len() && !(start <= k < end) ==> #[trigger] perm[k] == k
    &&& forall|k: int| start <= k < end ==> start <= #[trigger] perm[k] < end
    &&& forall|a: int, b: int| 0 <= a < b < perm.len() ==> #[trigger] perm[a] != #[trigger] perm[b]
    &&& forall|a: int, b: int|
        #![trigger key_at(points, new, cd, a), key_at(points, new, cd, b)]
        start <= a < b < end && key_at(points, new, cd, a) == key_at(points, new, cd, b) ==> perm[a] < perm[b]
}

/// Leaving entries where they are is a stable rearrangement.
pub proof fn lemma_stable_identity(points: Seq<Seq<i32>>, cd: int, index: Seq<usize>, start: int, end: int)
    requires
        0 <= start <= end <= index.len(),
    ensures
        stable_rearrangement(points, cd, index, index, Seq::new(index.len(), |k: int| k), start, end),
{
}

/// Exchanging two neighbours whose keys are out of order keeps a stable
/// rearrangement stable.
proof fn lemma_swap_stable(
    points: Seq<Seq<i32>>,
    cd: int,
    orig: Seq<usize>,
    cur: Seq<usize>,
    perm: Seq<int>,
    start: int,
    end: int,
    j: int,
)
    requires
        stable_rearrangement(points, cd, orig, cur, perm, start, end),
        0 <= start,
        start + 1 <= j < end <= cur.len(),
        key_at(points, cur, cd, j - 1) > key_at(points, cur, cd, j),
    ensures
        stable_rearrangement(
            points,
            cd,
            orig,
            cur.update(j - 1, cur[j]).update(j, cur[j - 1]),
            perm.update(j - 1, perm[j]).update(j, perm[j - 1]),
            start,
            end,
        ),
{
    let new = cur.update(j - 1, cur[j]).update(j, cur[j - 1]);
    let np = perm.update(j - 1, perm[j]).update(j, perm[j - 1]);
    let src = |k: int| if k == j - 1 { j } else if k == j { j - 1 } else { k };
    assert forall|k: int| 0 <= k < np.len() implies 0 <= #[trigger] np[k] < orig.len() && new[k] == orig[np[k]] by {
        assert(np[k] == perm[src(k)] && new[k] == cur[src(k)]);
    }
    assert forall|k: int| 0 <= k < np.len() && !(start <= k < end) implies #[trigger] np[k] == k by {
        assert(np[k] == perm[k]);
    }
    assert forall|k: int| start <= k < end implies start <= #[trigger] np[k] < end by {
        assert(np[k] == perm[src(k)]);
    }
    assert forall|a: int, b: int| 0 <= a < b < np.len() implies #[trigger] np[a] != #[trigger] np[b] by {
        assert(np[a] == perm[src(a)] && np[b] == perm[src(b)]);
        if src(a) < src(b) {
            assert(perm[src(a)] != perm[src(b)]);
        } else {
            assert(perm[src(b)] != perm[src(a)]);
        }
    }
    assert forall|a: int, b: int|
        #![trigger key_at(points, new, cd, a), key_at(points, new, cd, b)]
        start <= a < b < end && key_at(points, new, cd, a) == key_at(points, new, cd, b) implies np[a] < np[b] by {
        assert(np[a] == perm[src(a)] && np[b] == perm[src(b)]);
        assert(new[a] == cur[src(a)] && new[b] == cur[src(b)]);
        assert(key_at(points, new, cd, a) == key_at(points, cur, cd, src(a)));
        assert(key_at(points, new, cd, b) == key_at(points, cur, cd, src(b)));
        if !(a == j - 1 && b == j) {
            assert(src(a) < src(b));
        }
    }
}

/// Sorts entries `start..end` of `index` by the coordinate along `cd` of the
/// points they name; entries with equal coordinates keep their order, so a
/// range that is already sorted stays as it is.
fn sort_range(index: &mut Vec<usize>, data: &SuperSet<i32, i64>, cd: usize, start: usize, end: usize)
    requires
        start <= end <= old(index)@.len(),
        index_ok(data.spec_points(), old(index)@, cd as int),
    ensures
        final(index)@.len() == old(index)@.len(),
        forall|k: int| 0 <= k < start || end <= k < final(index)@.len() ==> #[trigger] final(index)@[k] == old(index)@[k],
        final(index)@.subrange(start as int, end as int).to_multiset() == old(index)@.subrange(start as int, end as int).to_multiset(),
        index_ok(data.spec_points(), final(index)@, cd as int),
        range_sorted(data.spec_points(), final(index)@, cd as int, start as int, end as int),
        range_sorted(data.spec_points(), old(index)@, cd as int, start as int, end as int) ==> final(index)@ == old(index)@,
        exists|perm: Seq<int>|
            stable_rearrangement(data.spec_points(), cd as int, old(index)@, final(index)@, perm, start as int, end as int),
{
    let ghost pts = data.spec_points();
    let ghost orig = index@;
    let ghost was_sorted = range_sorted(pts, orig, cd as int, start as int, end as int);
    let ghost mut perm: Seq<int> = Seq::new(orig.len(), |k: int| k);
    assert(stable_rearrangement(pts, cd as int, orig, index@, perm, start as int, end as int));
    let mut i: usize = start;
    while i < end
        invariant
            start <= i <= end <= index@.len(),
            index@.len() == orig.len(),
            pts == data.spec_points(),
            was_sorted == range_sorted(pts, orig, cd as int, start as int, end as int),
            index_ok(pts, index@, cd as int),
            forall|k: int| 0 <= k < start || end <= k < index@.len() ==> #[trigger] index@[k] == orig[k],
            index@.subrange(start as int, end as int).to_multiset() == orig.subrange(start as int, end as int).to_multiset(),
            range_sorted(pts, index@, cd as int, start as int, i as int),
            was_sorted ==> index@ == orig,
            stable_rearrangement(pts, cd as int, orig, index@, perm, start as int, end as int),
        decreases end - i,
    {
        let mut j: usize = i;
        let ghost x = key_at(pts, index@, cd as int, i as int);
        while j > start && data.get_point_dim(index[j - 1], cd) > data.get_point_dim(index[j], cd)
            invariant
                start <= j <= i < end <= index@.len(),
                index@.len() == orig.len(),
                pts == data.spec_points(),
                was_sorted == range_sorted(pts, orig, cd as int, start as int, end as int),
                index_ok(pts, index@, cd as int),
                forall|k: int| 0 <= k < start || end <= k < index@.len() ==> #[trigger] index@[k] == orig[k],
                index@.subrange(start as int, end as int).to_multiset() == orig.subrange(start as int, end as int).to_multiset(),
                key_at(pts, index@, cd as int, j as int) == x,
                forall|a: int, b: int|
                    start <= a < b <= i && a != j && b != j ==> key_at(pts, index@, cd as int, a) <= key_at(pts, index@, cd as int, b),
                forall|b: int| j < b <= i ==> key_at(pts, index@, cd as int, b) > x,
                was_sorted ==> index@ == orig && j == i,
                stable_rearrangement(pts, cd as int, orig, index@, perm, start as int, end as int),
            decreases j,
        {
            let ghost before = index@;
            assert(key_at(pts, before, cd as int, j - 1) > key_at(pts, before, cd as int, j as int));
            let left = index[j - 1];
            let right = index[j];
            index.set(j - 1, right);
            index.set(j, left);
            proof {
                let sub = before.subrange(start as int, end as int);
                crate::sets::lemma_swap_multiset(sub, j - 1 - start, j - start);
                assert(index@.subrange(start as int, end as int) =~= sub.update(j - 1 - start, sub[j - start]).update(j - start, sub[j - 1 - start]));
                if was_sorted {
                    assert(key_at(pts, orig, cd as int, j - 1) <= key_at(pts, orig, cd as int, j as int));
                }
                let nj = j - 1;
                assert(index@ == before.update(j - 1, before[j as int]).update(j as int, before[j - 1]));
                assert forall|a: int, b: int|
                    start <= a < b <= i && a != nj && b != nj implies key_at(pts, index@, cd as int, a) <= key_at(pts, index@, cd as int, b) by {
                    if a == j as int {
                        assert(index@[a] == before[j - 1]);
                        assert(key_at(pts, before, cd as int, j - 1) > x);
                        assert(key_at(pts, index@, cd as int, a) == key_at(pts, before, cd as int, j - 1));
                        if b <= i {
                            assert(index@[b] == before[b]);
                            assert(key_at(pts, before, cd as int, b) > x);
                            assert(key_at(pts, before, cd as int, j - 1) <= key_at(pts, before, cd as int, b));
                        }
                    } else if b == j as int {
                        assert(index@[b] == before[j - 1]);
                        assert(index@[a] == before[a]);
                        assert(key_at(pts, before, cd as int, a) <= key_at(pts, before, cd as int, j - 1));
                    } else {
                        assert(index@[a] == before[a]);
                        assert(index@[b] == before[b]);
                    }
                }
                assert forall|b: int| nj < b <= i implies key_at(pts, index@, cd as int, b) > x by {
                    if b == j as int {
                        assert(index@[b] == before[j - 1]);
                        assert(key_at(pts, before, cd as int, j - 1) > key_at(pts, before, cd as int, j as int));
                        assert(key_at(pts, before, cd as int, j as int) == x);
                        assert(key_at(pts, index@, cd as int, b) == key_at(pts, before, cd as int, j - 1));
                    } else {
                        assert(index@[b] == before[b]);
                        assert(key_at(pts, before, cd as int, b) > x);
                    }
                }
                assert(index@[nj as int] == before[j as int]);
                lemma_swap_stable(pts, cd as int, orig, before, perm, start as int, end as int, j as int);
                perm = perm.update(j - 1, perm[j as int]).update(j as int, perm[j - 1]);
            }
            j = j - 1;
        }
        proof {
            let v = index@;
            assert forall|a: int, b: int| start <= a < b < i + 1 implies key_at(pts, v, cd as int, a) <= key_at(pts, v, cd as int, b) by {
                if a == j as int {
                } else if b == j as int {
                    if a < j - 1 {
                        assert(key_at(pts, v, cd as int, a) <= key_at(pts, v, cd as int, j - 1));
                    }
                }
            }
        }
        i = i + 1;
    }
}

/// A kd-tree over the points of a data set, built once.
pub struct StaticKDTree<'a> {
    dataset: &'a SuperSet<i32, i64>,
    dim: usize,
    root_node: Option<Box<Node>>,
    root_bbox: Vec<Interval>,
    index_acc: Vec<usize>,
    leaf_max_size: usize,
}

/// The dimension the tree splits on: `dim`, or the last coordinate of the
/// first point when that is lower.
pub open spec fn split_dim(points: Seq<Seq<i32>>, dim: int) -> int {
    if dim < points[0].len() - 1 {
        dim
    } else {
        points[0].len() - 1
    }
}

/// Points that a tree of `dim` dimensions with leaves of at most `leaf_max`
/// entries can be built over: no point has more than `dim` coordinates, and,
/// when there are more points than fit in one leaf, the first has a
/// coordinate and every point has one along the split dimension.
pub open spec fn buildable(points: Seq<Seq<i32>>, dim: int, leaf_max: int) -> bool {
    &&& forall|k: int| 0 <= k < points.len() ==> #[trigger] points[k].len() <= dim
    &&& points.len() > leaf_max ==> {
        &&& points[0].len() > 0
        &&& split_dim(points, dim) <= i32::MAX
        &&& forall|k: int| 0 <= k < points.len() ==> split_dim(points, dim) < #[trigger] points[k].len()
    }
}

/// The numbers `0..n` in order.
pub open spec fn identity_index(n: nat) -> Seq<usize> {
    Seq::new(n, |k: int| k as usize)
}

/// The squared distance between a query and a point, over the coordinates
/// that both have.
pub open spec fn point_distance(q: Seq<i32>, p: Seq<i32>) -> int {
    l2_prefix(q, p, if q.len() <= p.len() { q.len() } else { p.len() })
}

/// Every point is at a squared distance from `q` that fits in an `i64`.
pub open spec fn distances_fit(points: Seq<Seq<i32>>, q: Seq<i32>) -> bool {
    forall|k: int| 0 <= k < points.len() ==> point_distance(q, #[trigger] points[k]) <= i64::MAX
}

/// `(d, i)` was in the base result, or `i` names a point at distance `d`.
pub open spec fn kept_or_found(
    d: i64,
    i: usize,
    base_d: Seq<i64>,
    base_i: Seq<usize>,
    points: Seq<Seq<i32>>,
    q: Seq<i32>,
) -> bool {
    ||| exists|k: int| 0 <= k < base_d.len() && #[trigger] base_d[k] == d && base_i[k] == i
    ||| (i as int) < points.len() && d == point_distance(q, points[i as int])
}

/// Every item of the result `(dists, idx)` was in the base result or is a
/// point of the data set at its true distance from `q`.
pub open spec fn result_from(
    dists: Seq<i64>,
    idx: Seq<usize>,
    base_d: Seq<i64>,
    base_i: Seq<usize>,
    points: Seq<Seq<i32>>,
    q: Seq<i32>,
) -> bool {
    &&& dists.len() == idx.len()
    &&& forall|j: int| 0 <= j < dists.len() ==> #[trigger] kept_or_found(dists[j], idx[j], base_d, base_i, points, q)
}

pub proof fn lemma_result_from_refl(d: Seq<i64>, i: Seq<usize>, points: Seq<Seq<i32>>, q: Seq<i32>)
    requires
        d.len() == i.len(),
    ensures
        result_from(d, i, d, i, points, q),
{
    assert forall|j: int| 0 <= j < d.len() implies #[trigger] kept_or_found(d[j], i[j], d, i, points, q) by {
        assert(d[j] == d[j] && i[j] == i[j]);
    }
}

pub proof fn lemma_result_from_trans(
    a_d: Seq<i64>,
    a_i: Seq<usize>,
    b_d: Seq<i64>,
    b_i: Seq<usize>,
    c_d: Seq<i64>,
    c_i: Seq<usize>,
    points: Seq<Seq<i32>>,
    q: Seq<i32>,
)
    requires
        result_from(a_d, a_i, b_d, b_i, points, q),
        result_from(b_d, b_i, c_d, c_i, points, q),
    ensures
        result_from(a_d, a_i, c_d, c_i, points, q),
{
    assert forall|j: int| 0 <= j < a_d.len() implies #[trigger] kept_or_found(a_d[j], a_i[j], c_d, c_i, points, q) by {
        assert(kept_or_found(a_d[j], a_i[j], b_d, b_i, points, q));
        if exists|k: int| 0 <= k < b_d.len() && #[trigger] b_d[k] == a_d[j] && b_i[k] == a_i[j] {
            let k = choose|k: int| 0 <= k < b_d.len() && #[trigger] b_d[k] == a_d[j] && b_i[k] == a_i[j];
            assert(kept_or_found(b_d[k], b_i[k], c_d, c_i, points, q));
        }
    }
}

/// Inserting a found point keeps a result made of kept or found items.
pub proof fn lemma_result_from_insert(
    d: Seq<i64>,
    i: Seq<usize>,
    pos: int,
    x: i64,
    xi: usize,
    m: int,
    points: Seq<Seq<i32>>,
    q: Seq<i32>,
)
    requires
        d.len() == i.len(),
        0 <= pos <= d.len(),
        0 <= m <= d.len() + 1,
        (xi as int) < points.len() && x == point_distance(q, points[xi as int]),
    ensures
        result_from(d.insert(pos, x).take(m), i.insert(pos, xi).take(m), d, i, points, q),
{
    let nd = d.insert(pos, x).take(m);
    let ni = i.insert(pos, xi).take(m);
    assert forall|j: int| 0 <= j < nd.len() implies #[trigger] kept_or_found(nd[j], ni[j], d, i, points, q) by {
        if j < pos {
            assert(d[j] == nd[j] && i[j] == ni[j]);
        } else if j > pos {
            assert(d[j - 1] == nd[j] && i[j - 1] == ni[j]);
        }
    }
}

/// The distance a candidate has to beat in a KNN result over `i64`.
pub open spec fn knn_worst(dists: Seq<i64>, capacity: nat) -> i64 {
    crate::sets::worst_of(dists, capacity, i64::MAX)
}

/// `p` is one of the indices of a result.
pub open spec fn in_result(idx: Seq<usize>, p: usize) -> bool {
    exists|j: int| 0 <= j < idx.len() && idx[j] == p
}

/// `p` names the point at some entry in `visited` of the index list.
pub open spec fn came_from(index: Seq<usize>, visited: Set<int>, p: usize) -> bool {
    exists|v: int| visited.contains(v) && index[v] == p
}

/// The point at entry `v` of the index list is in the result, or the result
/// is full and the point is no closer than its farthest item.
pub open spec fn kept_or_far(
    points: Seq<Seq<i32>>,
    index: Seq<usize>,
    q: Seq<i32>,
    capacity: nat,
    dists: Seq<i64>,
    idx: Seq<usize>,
    v: int,
) -> bool {
    ||| in_result(idx, index[v])
    ||| dists.len() == capacity && point_distance(q, points[index[v] as int]) >= dists.last()
}

/// `(dists, idx)` holds the nearest of the points at the entries `visited`
/// of the index list: at most `capacity` distinct points, each at its true
/// distance from `q`, closest first, and every visited point not among them
/// is no closer than the farthest of them, which only happens once the
/// result is full.
pub open spec fn nearest_of(
    points: Seq<Seq<i32>>,
    index: Seq<usize>,
    q: Seq<i32>,
    capacity: nat,
    dists: Seq<i64>,
    idx: Seq<usize>,
    visited: Set<int>,
) -> bool {
    &&& dists.len() == idx.len()
    &&& dists.len() <= capacity
    &&& sorted_by_dist(dists)
    &&& forall|j: int|
        0 <= j < dists.len() ==> (#[trigger] idx[j] as int) < points.len() && dists[j] == point_distance(
            q,
            points[idx[j] as int],
        )
    &&& forall|j: int| 0 <= j < dists.len() ==> #[trigger] came_from(index, visited, idx[j])
    &&& forall|j: int, l: int| 0 <= j < l < idx.len() ==> #[trigger] idx[j] != #[trigger] idx[l]
    &&& forall|v: int| visited.contains(v) ==> #[trigger] kept_or_far(points, index, q, capacity, dists, idx, v)
}

/// `greater` on `i64` is `>`.
pub proof fn lemma_i64_greater()
    ensures
        forall|a: i64, b: i64| #[trigger] greater(a, b) <==> a > b,
{
}

/// No two entries of the index list name the same point.
pub open spec fn index_distinct(index: Seq<usize>) -> bool {
    forall|a: int, b: int| 0 <= a < index.len() && 0 <= b < index.len() && a != b ==> #[trigger] index[a] != #[trigger] index[b]
}

/// Offering the point at a new entry `i` keeps the result the nearest of the
/// visited points, `i` now among them.
proof fn lemma_offer_nearest(
    points: Seq<Seq<i32>>,
    index: Seq<usize>,
    q: Seq<i32>,
    capacity: nat,
    dists: Seq<i64>,
    idx: Seq<usize>,
    visited: Set<int>,
    i: int,
)
    requires
        capacity > 0,
        nearest_of(points, index, q, capacity, dists, idx, visited),
        !visited.contains(i),
        0 <= i < index.len(),
        (index[i] as int) < points.len(),
        index_distinct(index),
        forall|v: int| visited.contains(v) ==> 0 <= v < index.len(),
        0 <= point_distance(q, points[index[i] as int]) < i64::MAX,
    ensures
        ({
            let p = index[i];
            let x = point_distance(q, points[p as int]);
            let next = if x < knn_worst(dists, capacity) {
                knn_offer(dists, idx, capacity, x as i64, p)
            } else {
                (dists, idx)
            };
            nearest_of(points, index, q, capacity, next.0, next.1, visited.insert(i))
        }),
{
    lemma_i64_greater();
    lemma_i64_total_order();
    let p = index[i];
    let x = point_distance(q, points[p as int]);
    let xi = x as i64;
    let n0 = dists.len();
    let nv = visited.insert(i);
    assert forall|j: int| 0 <= j < n0 implies #[trigger] came_from(index, nv, idx[j]) by {
        assert(came_from(index, visited, idx[j]));
        let v = choose|v: int| visited.contains(v) && index[v] == idx[j];
        assert(nv.contains(v));
    }
    assert forall|j: int| 0 <= j < n0 implies idx[j] != p by {
        assert(came_from(index, visited, idx[j]));
        let v = choose|v: int| visited.contains(v) && index[v] == idx[j];
        assert(v != i);
    }
    if !(x < knn_worst(dists, capacity)) {
        assert(n0 == capacity);
        assert forall|v: int| nv.contains(v) implies #[trigger] kept_or_far(points, index, q, capacity, dists, idx, v) by {
            if v != i {
                assert(visited.contains(v));
            }
        }
    } else {
        let pos = insert_pos(dists, xi) as int;
        let nn = count_after_add(n0, capacity) as int;
        lemma_insert_pos(dists, xi);
        lemma_insert_sorted(dists, xi);
        let t = dists.insert(pos, xi);
        let ti = idx.insert(pos, p);
        lemma_take_sorted(t, nn);
        let nd = t.take(nn);
        let ni = ti.take(nn);
        if n0 == capacity {
            assert(dists.last() > xi);
            assert(pos < n0);
        }
        assert(pos < nn);
        assert forall|j: int| 0 <= j < nd.len() implies (#[trigger] ni[j] as int) < points.len() && nd[j]
            == point_distance(q, points[ni[j] as int]) by {
            if j < pos {
                assert(ni[j] == idx[j] && nd[j] == dists[j]);
            } else if j > pos {
                assert(ni[j] == idx[j - 1] && nd[j] == dists[j - 1]);
            }
        }
        assert forall|j: int| 0 <= j < nd.len() implies #[trigger] came_from(index, nv, ni[j]) by {
            if j < pos {
                assert(ni[j] == idx[j]);
            } else if j > pos {
                assert(ni[j] == idx[j - 1]);
            } else {
                assert(nv.contains(i) && index[i] == ni[j]);
            }
        }
        assert forall|j: int, l: int| 0 <= j < l < ni.len() implies #[trigger] ni[j] != #[trigger] ni[l] by {
            let sj = if j < pos { j } else { j - 1 };
            let sl = if l < pos { l } else { l - 1 };
            if j != pos && l != pos {
                assert(ni[j] == idx[sj] && ni[l] == idx[sl]);
            } else if j == pos {
                assert(ni[l] == idx[sl]);
            } else {
                assert(ni[j] == idx[sj]);
            }
        }
        if n0 == capacity {
            if pos == capacity - 1 {
                assert(nd.last() == xi);
            } else {
                assert(nd.last() == dists[capacity - 2]);
            }
            assert(nd.last() <= dists.last());
        }
        assert forall|v: int| nv.contains(v) implies #[trigger] kept_or_far(points, index, q, capacity, nd, ni, v) by {
            if v == i {
                assert(ni[pos] == p);
            } else {
                assert(visited.contains(v));
                assert(kept_or_far(points, index, q, capacity, dists, idx, v));
                if in_result(idx, index[v]) {
                    let j = choose|j: int| 0 <= j < idx.len() && idx[j] == index[v];
                    if j < pos {
                        assert(ni[j] == index[v]);
                    } else if j + 1 < nn {
                        assert(ni[j + 1] == index[v]);
                    } else {
                        assert(j == n0 - 1 && n0 == capacity);
                        assert(point_distance(q, points[index[v] as int]) == dists.last());
                    }
                }
            }
        }
    }
}

/// What searching leaf entries `i..right` does to the result `(dists,
/// indices)`: each point closer than the current worst distance is offered,
/// and the scan stops with `false` once the result holds more than
/// `leaf_max` items.
pub open spec fn leaf_scan(
    points: Seq<Seq<i32>>,
    index: Seq<usize>,
    q: Seq<i32>,
    leaf_max: nat,
    capacity: nat,
    dists: Seq<i64>,
    indices: Seq<usize>,
    i: int,
    right: int,
) -> (Seq<i64>, Seq<usize>, bool)
    decreases right - i,
{
    if i >= right {
        (dists, indices, true)
    } else {
        let p = index[i];
        let d = point_distance(q, points[p as int]);
        let next = if d < knn_worst(dists, capacity) {
            knn_offer(dists, indices, capacity, d as i64, p)
        } else {
            (dists, indices)
        };
        if next.0.len() > leaf_max {
            (next.0, next.1, false)
        } else {
            leaf_scan(points, index, q, leaf_max, capacity, next.0, next.1, i + 1, right)
        }
    }
}

/// The entries `a..b` of the index list.
pub open spec fn entries(a: int, b: int) -> Set<int> {
    Set::new(|x: int| a <= x < b)
}

/// Every point named by entries `a..b` of the index list is in the data set,
/// at a distance from `q` below the largest `i64`.
pub open spec fn entries_measurable(points: Seq<Seq<i32>>, index: Seq<usize>, q: Seq<i32>, a: int, b: int) -> bool {
    forall|x: int|
        a <= x < b ==> (#[trigger] index[x] as int) < points.len() && 0 <= point_distance(q, points[index[x] as int])
            < i64::MAX
}

/// Scanning a leaf visits each of its entries: the result stays the nearest
/// of the visited points, the leaf's entries now among them, and the scan
/// does not stop early while the result cannot outgrow the leaf size.
proof fn lemma_leaf_scan_nearest(
    points: Seq<Seq<i32>>,
    index: Seq<usize>,
    q: Seq<i32>,
    leaf_max: nat,
    capacity: nat,
    dists: Seq<i64>,
    idx: Seq<usize>,
    visited: Set<int>,
    i: int,
    right: int,
)
    requires
        0 < capacity <= leaf_max,
        nearest_of(points, index, q, capacity, dists, idx, visited),
        0 <= i <= right <= index.len(),
        forall|v: int| visited.contains(v) ==> 0 <= v < index.len() && !(i <= v < right),
        index_distinct(index),
        entries_measurable(points, index, q, i, right),
    ensures
        ({
            let r = leaf_scan(points, index, q, leaf_max, capacity, dists, idx, i, right);
            r.2 && nearest_of(points, index, q, capacity, r.0, r.1, visited.union(entries(i, right)))
        }),
    decreases right - i,
{
    if i >= right {
        assert(visited.union(entries(i, right)) =~= visited);
    } else {
        lemma_offer_nearest(points, index, q, capacity, dists, idx, visited, i);
        let p = index[i];
        let x = point_distance(q, points[p as int]);
        let next = if x < knn_worst(dists, capacity) {
            knn_offer(dists, idx, capacity, x as i64, p)
        } else {
            (dists, idx)
        };
        lemma_leaf_scan_nearest(points, index, q, leaf_max, capacity, next.0, next.1, visited.insert(i), i + 1, right);
        assert(visited.insert(i).union(entries(i + 1, right)) =~= visited.union(entries(i, right)));
    }
}

/// Searching a subtree built over entries `start..end` with no bound on the
/// distance to the split visits every entry of the range: the result stays
/// the nearest of the visited points, the range now among them.
proof fn lemma_search_nearest(
    node: Node,
    points: Seq<Seq<i32>>,
    index: Seq<usize>,
    q: Seq<i32>,
    cd: int,
    leaf_max: nat,
    capacity: nat,
    dists: Seq<i64>,
    idx: Seq<usize>,
    visited: Set<int>,
    start: int,
    end: int,
)
    requires
        tree_ok(node, points, index, cd, leaf_max as int, start, end),
        0 < capacity <= leaf_max,
        nearest_of(points, index, q, capacity, dists, idx, visited),
        0 <= start <= end <= index.len(),
        end <= usize::MAX,
        forall|v: int| visited.contains(v) ==> 0 <= v < index.len() && !(start <= v < end),
        index_distinct(index),
        entries_measurable(points, index, q, start, end),
        end - start > leaf_max ==> 0 <= cd < q.len() && cd <= i32::MAX,
    ensures
        ({
            let r = search_spec(node, points, index, q, leaf_max, i64::MAX, 0, capacity, dists, idx);
            r.2 && nearest_of(points, index, q, capacity, r.0, r.1, visited.union(entries(start, end)))
        }),
    decreases end - start,
{
    if end - start <= leaf_max {
        lemma_leaf_scan_nearest(points, index, q, leaf_max, capacity, dists, idx, visited, start, end);
        assert(search_spec(node, points, index, q, leaf_max, i64::MAX, 0, capacity, dists, idx) == leaf_scan(
            points,
            index,
            q,
            leaf_max,
            capacity,
            dists,
            idx,
            start,
            end,
        ));
    } else {
        let m = mid_of(start, end);
        let c1 = *node.child1.unwrap();
        let c2 = *node.child2.unwrap();
        let split = q[cd];
        let divlow = key_at(points, index, cd, start);
        assert((cd as i32) as int == cd);
        if split < divlow {
            lemma_search_nearest(c1, points, index, q, cd, leaf_max, capacity, dists, idx, visited, start, m);
            let first = search_spec(c1, points, index, q, leaf_max, i64::MAX, 0, capacity, dists, idx);
            let v1 = visited.union(entries(start, m));
            lemma_search_nearest(c2, points, index, q, cd, leaf_max, capacity, first.0, first.1, v1, m, end);
            assert(v1.union(entries(m, end)) =~= visited.union(entries(start, end)));
            let second = search_spec(c2, points, index, q, leaf_max, i64::MAX, 0, capacity, first.0, first.1);
            let to_split = if split >= divlow { split - divlow } else { divlow - split };
            assert(to_split < i64::MAX + 0);
            assert(search_spec(node, points, index, q, leaf_max, i64::MAX, 0, capacity, dists, idx) == (
                second.0,
                second.1,
                true,
            ));
        } else {
            lemma_search_nearest(c2, points, index, q, cd, leaf_max, capacity, dists, idx, visited, m, end);
            let first = search_spec(c2, points, index, q, leaf_max, i64::MAX, 0, capacity, dists, idx);
            let v1 = visited.union(entries(m, end));
            lemma_search_nearest(c1, points, index, q, cd, leaf_max, capacity, first.0, first.1, v1, start, m);
            assert(v1.union(entries(start, m)) =~= visited.union(entries(start, end)));
            let second = search_spec(c1, points, index, q, leaf_max, i64::MAX, 0, capacity, first.0, first.1);
            let to_split = if split >= divlow { split - divlow } else { divlow - split };
            assert(to_split < i64::MAX + 0);
            assert(search_spec(node, points, index, q, leaf_max, i64::MAX, 0, capacity, dists, idx) == (
                second.0,
                second.1,
                true,
            ));
        }
    }
}

/// What `search_level` does to the result `(dists, indices)` below `node`,
/// and what it returns.
pub open spec fn search_spec(
    node: Node,
    points: Seq<Seq<i32>>,
    index: Seq<usize>,
    q: Seq<i32>,
    leaf_max: nat,
    min_dist: i64,
    eps_error: i64,
    capacity: nat,
    dists: Seq<i64>,
    indices: Seq<usize>,
) -> (Seq<i64>, Seq<usize>, bool)
    decreases node,
{
    match node.node_type {
        NodeType::Leaf { left, right } => leaf_scan(
            points,
            index,
            q,
            leaf_max,
            capacity,
            dists,
            indices,
            left as int,
            right as int,
        ),
        NodeType::NonLeaf { divfeat, divlow, divhigh } => {
            let split = q[divfeat as int];
            let go_first = split < divlow;
            let best = if go_first { node.child1 } else { node.child2 };
            let other = if go_first { node.child2 } else { node.child1 };
            let first = match best {
                Some(c) => search_spec(*c, points, index, q, leaf_max, min_dist, eps_error, capacity, dists, indices),
                None => (dists, indices, true),
            };
            if !first.2 {
                first
            } else {
                let to_split = if split >= divlow { split - divlow } else { divlow - split };
                if to_split < min_dist + eps_error {
                    match other {
                        Some(c) => {
                            let second = search_spec(
                                *c,
                                points,
                                index,
                                q,
                                leaf_max,
                                min_dist,
                                eps_error,
                                capacity,
                                first.0,
                                first.1,
                            );
                            (second.0, second.1, true)
                        },
                        None => first,
                    }
                } else {
                    first
                }
            }
        },
    }
}

/// The tree below `node` is made as `divide_tree` makes it: every inner node
/// splits on `cd`, and every leaf is a range of the `n` entries.
pub open spec fn subtree_ok(node: Node, cd: int, n: nat) -> bool
    decreases node,
{
    match node.node_type {
        NodeType::Leaf { left, right } => left <= right <= n && node.child1 is None && node.child2 is None,
        NodeType::NonLeaf { divfeat, divlow, divhigh } => {
            &&& divfeat == cd
            &&& 0 <= cd
            &&& match node.child1 {
                Some(c) => subtree_ok(*c, cd, n),
                None => true,
            }
            &&& match node.child2 {
                Some(c) => subtree_ok(*c, cd, n),
                None => true,
            }
        },
    }
}

pub proof fn lemma_tree_ok_subtree(
    node: Node,
    points: Seq<Seq<i32>>,
    index: Seq<usize>,
    cd: int,
    leaf_max: int,
    start: int,
    end: int,
    n: nat,
)
    requires
        tree_ok(node, points, index, cd, leaf_max, start, end),
        0 <= start <= end <= n <= usize::MAX,
        end - start > leaf_max ==> 0 <= cd <= i32::MAX,
    ensures
        subtree_ok(node, cd, n),
    decreases end - start,
{
    if end - start > leaf_max {
        let m = mid_of(start, end);
        if let Some(c1) = node.child1 {
            lemma_tree_ok_subtree(*c1, points, index, cd, leaf_max, start, m, n);
        }
        if let Some(c2) = node.child2 {
            lemma_tree_ok_subtree(*c2, points, index, cd, leaf_max, m, end, n);
        }
    }
}

impl<'a> StaticKDTree<'a> {
    pub closed spec fn spec_points(&self) -> Seq<Seq<i32>> {
        self.dataset.spec_points()
    }

    pub closed spec fn spec_dim(&self) -> nat {
        self.dim as nat
    }

    pub closed spec fn spec_leaf_max(&self) -> nat {
        self.leaf_max_size as nat
    }

    /// The index list: the order of the points that the leaves' ranges
    /// refer to.
    pub closed spec fn spec_index(&self) -> Seq<usize> {
        self.index_acc@
    }

    pub closed spec fn spec_root(&self) -> Option<Box<Node>> {
        self.root_node
    }

    pub closed spec fn spec_bbox(&self) -> Seq<Interval> {
        self.root_bbox@
    }

    /// The dimension the tree splits on.
    pub open spec fn spec_split_dim(&self) -> int {
        split_dim(self.spec_points(), self.spec_dim() as int)
    }

    /// The box that holds every point: per dimension, the lowest and the
    /// highest coordinate (`i32::MAX` and `i32::MIN` where no point has one).
    pub fn compute_bounding_box(&self) -> (r: Option<Vec<Interval>>)
        requires
            forall|k: int| 0 <= k < self.spec_points().len() ==> #[trigger] self.spec_points()[k].len() <= self.spec_dim(),
        ensures
            r matches Some(b) && b@ == bounding_box(self.spec_points(), self.spec_dim()),
    {
        let ghost pts = self.spec_points();
        let mut bbox: Vec<Interval> = Vec::new();
        let mut d: usize = 0;
        while d < self.dim
            invariant
                d <= self.dim,
                bbox@ == Seq::new(d as nat, |i: int| Interval { low: i32::MAX, high: i32::MIN }),
            decreases self.dim - d,
        {
            bbox.push(Interval { low: i32::MAX, high: i32::MIN });
            d = d + 1;
            proof {
                assert(bbox@ =~= Seq::new(d as nat, |i: int| Interval { low: i32::MAX, high: i32::MIN }));
            }
        }
        let n = self.dataset.data_len();
        let mut k: usize = 0;
        while k < n
            invariant
                pts == self.spec_points(),
                n == pts.len(),
                forall|q: int| 0 <= q < pts.len() ==> #[trigger] pts[q].len() <= self.dim,
                0 <= k <= n,
                bbox@.len() == self.dim,
                forall|i: int| 0 <= i < self.dim ==> #[trigger] bbox@[i] == (Interval { low: low_upto(pts, i, k as int), high: high_upto(pts, i, k as int) }),
            decreases n - k,
        {
            let m = self.dataset.point_len(k);
            let mut i: usize = 0;
            while i < m
                invariant
                    pts == self.spec_points(),
                    n == pts.len(),
                    0 <= k < n,
                    m == pts[k as int].len() <= self.dim,
                    0 <= i <= m,
                    bbox@.len() == self.dim,
                    forall|c: int| 0 <= c < i ==> #[trigger] bbox@[c] == (Interval { low: low_upto(pts, c, k + 1), high: high_upto(pts, c, k + 1) }),
                    forall|c: int| i <= c < self.dim ==> #[trigger] bbox@[c] == (Interval { low: low_upto(pts, c, k as int), high: high_upto(pts, c, k as int) }),
                decreases m - i,
            {
                let value = self.dataset.get_point_dim(k, i);
                let mut iv = bbox[i];
                if value < iv.low {
                    iv.low = value;
                }
                if value > iv.high {
                    iv.high = value;
                }
                bbox.set(i, iv);
                i = i + 1;
            }
            proof {
                assert forall|c: int| 0 <= c < self.dim implies #[trigger] bbox@[c] == (Interval { low: low_upto(pts, c, k + 1), high: high_upto(pts, c, k + 1) }) by {
                    if c >= m {
                        assert(low_upto(pts, c, k + 1) == low_upto(pts, c, k as int));
                        assert(high_upto(pts, c, k + 1) == high_upto(pts, c, k as int));
                    }
                }
            }
            k = k + 1;
        }
        proof {
            assert(bbox@ =~= bounding_box(pts, self.dim as nat));
        }
        Some(bbox)
    }

    /// Builds the subtree over entries `start..end` of the index list:
    /// a leaf when the range holds at most `leaf_max_size` entries, else the
    /// range is sorted along the split dimension and halved.
    pub fn divide_tree(&mut self, start: usize, end: usize) -> (r: Node)
        requires
            start <= end <= old(self).spec_index().len(),
            old(self).spec_leaf_max() >= 1 || end - start <= old(self).spec_leaf_max(),
            end - start > old(self).spec_leaf_max() ==> {
                &&& old(self).spec_points().len() > 0
                &&& old(self).spec_points()[0].len() > 0
                &&& index_ok(old(self).spec_points(), old(self).spec_index(), old(self).spec_split_dim())
            },
        ensures
            final(self).spec_points() == old(self).spec_points(),
            final(self).spec_dim() == old(self).spec_dim(),
            final(self).spec_leaf_max() == old(self).spec_leaf_max(),
            final(self).spec_root() == old(self).spec_root(),
            final(self).spec_bbox() == old(self).spec_bbox(),
            final(self).spec_index().len() == old(self).spec_index().len(),
            forall|k: int|
                0 <= k < start || end <= k < old(self).spec_index().len() ==> #[trigger] final(self).spec_index()[k]
                    == old(self).spec_index()[k],
            final(self).spec_index().subrange(start as int, end as int).to_multiset()
                == old(self).spec_index().subrange(start as int, end as int).to_multiset(),
            end - start > old(self).spec_leaf_max() ==> {
                &&& index_ok(final(self).spec_points(), final(self).spec_index(), final(self).spec_split_dim())
                &&& range_sorted(final(self).spec_points(), final(self).spec_index(), final(self).spec_split_dim(), start as int, end as int)
            },
            (end - start <= old(self).spec_leaf_max() || range_sorted(
                old(self).spec_points(),
                old(self).spec_index(),
                old(self).spec_split_dim(),
                start as int,
                end as int,
            )) ==> final(self).spec_index() == old(self).spec_index(),
            tree_ok(
                r,
                final(self).spec_points(),
                final(self).spec_index(),
                final(self).spec_split_dim(),
                final(self).spec_leaf_max() as int,
                start as int,
                end as int,
            ),
            exists|perm: Seq<int>|
                stable_rearrangement(
                    old(self).spec_points(),
                    old(self).spec_split_dim(),
                    old(self).spec_index(),
                    final(self).spec_index(),
                    perm,
                    start as int,
                    end as int,
                ),
        decreases end - start,
    {
        proof {
            lemma_stable_identity(self.spec_points(), self.spec_split_dim(), self.index_acc@, start as int, end as int);
        }
        if end - start <= self.leaf_max_size {
            return Node { node_type: NodeType::Leaf { left: start, right: end }, child1: None, child2: None };
        }
        let first_len = self.dataset.point_len(0);
        let cd = if self.dim < first_len - 1 {
            self.dim
        } else {
            first_len - 1
        };
        let mid = start + (end - start) / 2;
        let ghost idx0 = self.index_acc@;
        sort_range(&mut self.index_acc, self.dataset, cd, start, end);
        let ghost idx1 = self.index_acc@;
        let divfeat = cd as i32;
        let divlow = self.dataset.get_point_dim(self.index_acc[start], cd);
        let divhigh = self.dataset.get_point_dim(self.index_acc[end - 1], cd);
        let c1 = self.divide_tree(start, mid);
        let ghost idx2 = self.index_acc@;
        proof {
            if mid - start > self.leaf_max_size {
                assert(range_sorted(self.spec_points(), idx1, cd as int, start as int, mid as int));
            }
            assert(idx2 == idx1);
        }
        let c2 = self.divide_tree(mid, end);
        proof {
            if end - mid > self.leaf_max_size {
                assert(range_sorted(self.spec_points(), idx1, cd as int, mid as int, end as int));
            }
            assert(self.index_acc@ == idx1);
        }
        Node {
            node_type: NodeType::NonLeaf { divfeat, divlow, divhigh },
            child1: Some(Box::new(c1)),
            child2: Some(Box::new(c2)),
        }
    }

    /// The tree is ready: its index list holds each point once, every
    /// point can be split on, and leaves hold at least one entry.
    pub closed spec fn wf(&self) -> bool {
        &&& self.leaf_max_size >= 1 || self.spec_points().len() == 0
        &&& buildable(self.spec_points(), self.dim as int, self.leaf_max_size as int)
        &&& self.index_acc@.len() == self.spec_points().len()
        &&& self.index_acc@.to_multiset() == identity_index(self.spec_points().len()).to_multiset()
        &&& forall|k: int| 0 <= k < self.index_acc@.len() ==> (#[trigger] self.index_acc@[k] as int) < self.spec_points().len()
        &&& self.spec_points().len() > self.leaf_max_size ==> index_ok(self.spec_points(), self.index_acc@, self.spec_split_dim())
    }

    /// Builds the tree over the points of `data_source`: the index list holds
    /// `0..n`, sorted along the split dimension, the bounding box is computed,
    /// and the root covers the whole list.
    pub fn new(data_source: &'a SuperSet<i32, i64>, dimension: usize, leaf_max_size: usize) -> (r: Self)
        requires
            leaf_max_size >= 1 || data_source.spec_points().len() == 0,
            buildable(data_source.spec_points(), dimension as int, leaf_max_size as int),
        ensures
            r.wf(),
            r.is_built(),
            r.spec_points() == data_source.spec_points(),
            r.spec_dim() == dimension,
            r.spec_leaf_max() == leaf_max_size,
            r.spec_index().len() == r.spec_points().len(),
            r.spec_index().to_multiset() == identity_index(r.spec_points().len()).to_multiset(),
            range_sorted(r.spec_points(), identity_index(r.spec_points().len()), r.spec_split_dim(), 0, r.spec_points().len() as int)
                ==> r.spec_index() == identity_index(r.spec_points().len()),
            r.spec_bbox() == bounding_box(data_source.spec_points(), dimension as nat),
            r.spec_root() matches Some(root) && tree_ok(
                *root,
                r.spec_points(),
                r.spec_index(),
                r.spec_split_dim(),
                leaf_max_size as int,
                0,
                r.spec_points().len() as int,
            ),
            r.spec_points().len() > leaf_max_size ==> range_sorted(
                r.spec_points(),
                r.spec_index(),
                r.spec_split_dim(),
                0,
                r.spec_points().len() as int,
            ),
            exists|perm: Seq<int>|
                stable_rearrangement(
                    r.spec_points(),
                    r.spec_split_dim(),
                    identity_index(r.spec_points().len()),
                    r.spec_index(),
                    perm,
                    0,
                    r.spec_points().len() as int,
                ),
    {
        let mut tree = StaticKDTree {
            dataset: data_source,
            dim: dimension,
            root_node: None,
            root_bbox: Vec::new(),
            index_acc: Vec::new(),
            leaf_max_size,
        };
        let n = tree.dataset.data_len();
        let mut k: usize = 0;
        while k < n
            invariant
                k <= n,
                n == data_source.spec_points().len(),
                tree.dataset == data_source,
                tree.dim == dimension,
                tree.leaf_max_size == leaf_max_size,
                tree.root_node is None,
                tree.index_acc@ == identity_index(k as nat),
            decreases n - k,
        {
            tree.index_acc.push(k);
            k = k + 1;
            proof {
                assert(tree.index_acc@ =~= identity_index(k as nat));
            }
        }
        let bbox = tree.compute_bounding_box();
        tree.root_bbox = match bbox {
            Some(b) => b,
            None => Vec::new(),
        };
        let ghost pts = tree.spec_points();
        proof {
            if n > leaf_max_size {
                assert forall|q: int| 0 <= q < tree.index_acc@.len() implies (#[trigger] tree.index_acc@[q] as int) < pts.len()
                    && tree.spec_split_dim() < pts[tree.index_acc@[q] as int].len() by {
                    assert(tree.index_acc@[q] == q);
                }
            }
            assert(tree.index_acc@.subrange(0, n as int) =~= tree.index_acc@);
        }
        let ghost before = tree.index_acc@;
        assert(before == identity_index(n as nat));
        let root = tree.divide_tree(0, n);
        proof {
            assert(tree.index_acc@.subrange(0, n as int) =~= tree.index_acc@);
        }
        let ghost perm = choose|perm: Seq<int>|
            stable_rearrangement(pts, tree.spec_split_dim(), before, tree.index_acc@, perm, 0, n as int);
        tree.root_node = Some(Box::new(root));
        assert(stable_rearrangement(
            tree.spec_points(),
            tree.spec_split_dim(),
            identity_index(tree.spec_points().len()),
            tree.spec_index(),
            perm,
            0,
            tree.spec_points().len() as int,
        ));
        tree
    }

    /// Builds the tree again over the current index list.
    pub fn _build_index(&mut self)
        requires
            old(self).wf(),
        ensures
            final(self).wf(),
            final(self).is_built(),
            final(self).spec_points() == old(self).spec_points(),
            final(self).spec_dim() == old(self).spec_dim(),
            final(self).spec_leaf_max() == old(self).spec_leaf_max(),
            final(self).spec_bbox() == old(self).spec_bbox(),
            final(self).spec_index().to_multiset() == old(self).spec_index().to_multiset(),
            final(self).spec_root() matches Some(root) && tree_ok(
                *root,
                final(self).spec_points(),
                final(self).spec_index(),
                final(self).spec_split_dim(),
                final(self).spec_leaf_max() as int,
                0,
                final(self).spec_points().len() as int,
            ),
            exists|perm: Seq<int>|
                stable_rearrangement(
                    old(self).spec_points(),
                    old(self).spec_split_dim(),
                    old(self).spec_index(),
                    final(self).spec_index(),
                    perm,
                    0,
                    old(self).spec_points().len() as int,
                ),
    {
        let n = self.dataset.data_len();
        proof {
            assert(self.index_acc@.subrange(0, n as int) =~= self.index_acc@);
        }
        let root = self.divide_tree(0, n);
        proof {
            assert(self.index_acc@.subrange(0, n as int) =~= self.index_acc@);
        }
        self.root_node = Some(Box::new(root));
    }

    /// Builds the tree again over the current index list.
    pub fn update_index(&mut self)
        requires
            old(self).wf(),
        ensures
            final(self).wf(),
            final(self).is_built(),
            final(self).spec_points() == old(self).spec_points(),
            final(self).spec_dim() == old(self).spec_dim(),
            final(self).spec_leaf_max() == old(self).spec_leaf_max(),
            final(self).spec_bbox() == old(self).spec_bbox(),
            final(self).spec_index().to_multiset() == old(self).spec_index().to_multiset(),
            final(self).spec_root() matches Some(root) && tree_ok(
                *root,
                final(self).spec_points(),
                final(self).spec_index(),
                final(self).spec_split_dim(),
                final(self).spec_leaf_max() as int,
                0,
                final(self).spec_points().len() as int,
            ),
            exists|perm: Seq<int>|
                stable_rearrangement(
                    old(self).spec_points(),
                    old(self).spec_split_dim(),
                    old(self).spec_index(),
                    final(self).spec_index(),
                    perm,
                    0,
                    old(self).spec_points().len() as int,
                ),
    {
        self._build_index();
    }

    /// The number of points.
    pub fn get_point_count(&self) -> (r: usize)
        ensures
            r == self.spec_points().len(),
    {
        self.dataset.data_len()
    }

    /// The number of dimensions.
    pub fn dim(&self) -> (r: usize)
        ensures
            r == self.spec_dim(),
    {
        self.dim
    }

    /// The largest number of entries in a leaf.
    pub fn leaf_max_size(&self) -> (r: usize)
        ensures
            r == self.spec_leaf_max(),
    {
        self.leaf_max_size
    }

    /// The root of the tree.
    pub fn root_node(&self) -> (r: &Option<Box<Node>>)
        ensures
            *r == self.spec_root(),
    {
        &self.root_node
    }

    /// The bounding box of the points.
    pub fn root_bbox(&self) -> (r: &Vec<Interval>)
        ensures
            r@ == self.spec_bbox(),
    {
        &self.root_bbox
    }

    /// The index list.
    pub fn index_acc(&self) -> (r: &Vec<usize>)
        ensures
            r@ == self.spec_index(),
    {
        &self.index_acc
    }

    /// The tree is built: ready, with a root over the whole index list.
    pub closed spec fn is_built(&self) -> bool {
        &&& self.wf()
        &&& self.root_node matches Some(root) && tree_ok(
            *root,
            self.spec_points(),
            self.index_acc@,
            self.spec_split_dim(),
            self.leaf_max_size as int,
            0,
            self.spec_points().len() as int,
        )
    }

    /// The squared distance between `query` and point `idx`.
    fn distance_to(&self, query: &Vec<i32>, idx: usize) -> (r: i64)
        requires
            idx < self.spec_points().len(),
            point_distance(query@, self.spec_points()[idx as int]) <= i64::MAX,
        ensures
            r == point_distance(query@, self.spec_points()[idx as int]),
    {
        let ghost p = self.spec_points()[idx as int];
        let plen = self.dataset.point_len(idx);
        let n = if query.len() <= plen {
            query.len()
        } else {
            plen
        };
        let mut result: i64 = 0;
        let mut i: usize = 0;
        while i < n
            invariant
                p == self.spec_points()[idx as int],
                idx < self.spec_points().len(),
                n <= query@.len(),
                n <= p.len(),
                n == (if query@.len() <= p.len() { query@.len() } else { p.len() }),
                i <= n,
                result == l2_prefix(query@, p, i as nat),
                l2_prefix(query@, p, n as nat) <= i64::MAX,
            decreases n - i,
        {
            proof {
                lemma_l2_mono(query@, p, (i + 1) as nat, n as nat);
                lemma_l2_mono(query@, p, i as nat, (i + 1) as nat);
            }
            let a = query[i];
            let b = self.dataset.get_point_dim(idx, i);
            let diff = a as i64 - b as i64;
            assert(diff * diff == sq_diff(a, b));
            result = result + diff * diff;
            i = i + 1;
        }
        result
    }

    /// Searches the subtree below `node` for neighbours of `query_point`:
    /// in a leaf, every point closer than the result's worst distance is
    /// offered to the result, and the search stops (returning false) once
    /// the result holds more than `leaf_max_size` items; in an inner node,
    /// the child on the query's side of `divlow` is searched first, and the
    /// other child too when the query is closer to `divlow` than
    /// `min_dist + eps_error`.
    pub fn search_level(
        &self,
        query_point: &Vec<i32>,
        node: &Node,
        min_dist: i64,
        eps_error: i64,
        result_set: &mut KNNResultSet<i64>,
    ) -> (r: bool)
        requires
            self.is_built(),
            subtree_ok(*node, self.spec_split_dim(), self.spec_points().len()),
            (node.node_type is NonLeaf) ==> self.spec_split_dim() < query_point@.len(),
            distances_fit(self.spec_points(), query_point@),
            i64::MIN <= min_dist + eps_error <= i64::MAX,
            old(result_set).is_ready(),
            old(result_set).spec_capacity() > 0,
        ensures
            final(result_set).is_ready(),
            final(result_set).spec_capacity() == old(result_set).spec_capacity(),
            result_from(
                final(result_set).spec_dists(),
                final(result_set).spec_indices(),
                old(result_set).spec_dists(),
                old(result_set).spec_indices(),
                self.spec_points(),
                query_point@,
            ),
            !r ==> final(result_set).spec_size() > self.spec_leaf_max(),
            (final(result_set).spec_dists(), final(result_set).spec_indices(), r) == search_spec(
                *node,
                self.spec_points(),
                self.spec_index(),
                query_point@,
                self.spec_leaf_max(),
                min_dist,
                eps_error,
                old(result_set).spec_capacity(),
                old(result_set).spec_dists(),
                old(result_set).spec_indices(),
            ),
        decreases node,
    {
        proof {
            lemma_i64_total_order();
            old(result_set).lemma_ready_sorted();
            lemma_result_from_refl(old(result_set).spec_dists(), old(result_set).spec_indices(), self.spec_points(), query_point@);
        }
        match &node.node_type {
            NodeType::Leaf { left, right } => {
                let mut i: usize = *left;
                while i < *right
                    invariant
                        self.is_built(),
                        node.node_type == (NodeType::Leaf { left: *left, right: *right }),
                        *left <= i <= *right <= self.spec_points().len(),
                        distances_fit(self.spec_points(), query_point@),
                        result_set.is_ready(),
                        result_set.spec_capacity() == old(result_set).spec_capacity(),
                        old(result_set).spec_capacity() > 0,
                        leaf_scan(
                            self.spec_points(),
                            self.spec_index(),
                            query_point@,
                            self.spec_leaf_max(),
                            old(result_set).spec_capacity(),
                            old(result_set).spec_dists(),
                            old(result_set).spec_indices(),
                            *left as int,
                            *right as int,
                        ) == leaf_scan(
                            self.spec_points(),
                            self.spec_index(),
                            query_point@,
                            self.spec_leaf_max(),
                            old(result_set).spec_capacity(),
                            result_set.spec_dists(),
                            result_set.spec_indices(),
                            i as int,
                            *right as int,
                        ),
                        result_from(
                            result_set.spec_dists(),
                            result_set.spec_indices(),
                            old(result_set).spec_dists(),
                            old(result_set).spec_indices(),
                            self.spec_points(),
                            query_point@,
                        ),
                    decreases *right - i,
                {
                    let ghost cur_d = result_set.spec_dists();
                    let ghost cur_i = result_set.spec_indices();
                    proof {
                        result_set.lemma_ready_sorted();
                    }
                    let point = self.index_acc[i];
                    let distance = self.distance_to(query_point, point);
                    if distance < result_set.worst_dist() {
                        let ghost mid_d = result_set.spec_dists();
                        let ghost mid_i = result_set.spec_indices();
                        proof {
                            result_set.lemma_ready_sorted();
                            crate::order::lemma_insert_pos(mid_d, distance);
                        }
                        result_set.add_point(distance, point);
                        proof {
                            lemma_result_from_insert(
                                mid_d,
                                mid_i,
                                insert_pos(mid_d, distance) as int,
                                distance,
                                point,
                                count_after_add(mid_d.len(), result_set.spec_capacity()) as int,
                                self.spec_points(),
                                query_point@,
                            );
                            lemma_result_from_trans(
                                result_set.spec_dists(),
                                result_set.spec_indices(),
                                mid_d,
                                mid_i,
                                old(result_set).spec_dists(),
                                old(result_set).spec_indices(),
                                self.spec_points(),
                                query_point@,
                            );
                        }
                    }
                    proof {
                        result_set.lemma_ready_sorted();
                        let cap = old(result_set).spec_capacity();
                        let d = point_distance(query_point@, self.spec_points()[point as int]);
                        assert(d as i64 == distance);
                        assert(knn_worst(cur_d, cap) == crate::sets::worst_of(cur_d, cap, <i64 as MaxValue>::spec_max_value()));
                        let next = if d < knn_worst(cur_d, cap) {
                            knn_offer(cur_d, cur_i, cap, d as i64, point)
                        } else {
                            (cur_d, cur_i)
                        };
                        assert(next.0 == result_set.spec_dists() && next.1 == result_set.spec_indices());
                        assert(leaf_scan(
                            self.spec_points(),
                            self.spec_index(),
                            query_point@,
                            self.spec_leaf_max(),
                            cap,
                            cur_d,
                            cur_i,
                            i as int,
                            *right as int,
                        ) == if next.0.len() > self.spec_leaf_max() {
                            (next.0, next.1, false)
                        } else {
                            leaf_scan(
                                self.spec_points(),
                                self.spec_index(),
                                query_point@,
                                self.spec_leaf_max(),
                                cap,
                                next.0,
                                next.1,
                                i + 1,
                                *right as int,
                            )
                        });
                    }
                    if result_set.size() > self.leaf_max_size {
                        return false;
                    }
                    i = i + 1;
                }
                return true;
            },
            NodeType::NonLeaf { divfeat, divlow, divhigh } => {
                let split_value = query_point[*divfeat as usize];
                let go_first = split_value < *divlow;
                let best_child = if go_first {
                    &node.child1
                } else {
                    &node.child2
                };
                let other_child = if go_first {
                    &node.child2
                } else {
                    &node.child1
                };
                if let Some(best) = best_child {
                    let ghost before_d = result_set.spec_dists();
                    let ghost before_i = result_set.spec_indices();
                    let ok = self.search_level(query_point, best, min_dist, eps_error, result_set);
                    proof {
                        lemma_result_from_trans(
                            result_set.spec_dists(),
                            result_set.spec_indices(),
                            before_d,
                            before_i,
                            old(result_set).spec_dists(),
                            old(result_set).spec_indices(),
                            self.spec_points(),
                            query_point@,
                        );
                    }
                    if !ok {
                        return false;
                    }
                }
                let distance_to_split: i64 = if split_value >= *divlow {
                    split_value as i64 - *divlow as i64
                } else {
                    *divlow as i64 - split_value as i64
                };
                if distance_to_split < min_dist + eps_error {
                    if let Some(other) = other_child {
                        let ghost before_d = result_set.spec_dists();
                        let ghost before_i = result_set.spec_indices();
                        let _ = self.search_level(query_point, other, min_dist, eps_error, result_set);
                        proof {
                            lemma_result_from_trans(
                                result_set.spec_dists(),
                                result_set.spec_indices(),
                                before_d,
                                before_i,
                                old(result_set).spec_dists(),
                                old(result_set).spec_indices(),
                                self.spec_points(),
                                query_point@,
                            );
                        }
                    }
                }
            },
        }
        true
    }

    /// Searches the whole tree for neighbours of `query_point`, then sorts
    /// the result; true when the query has coordinates, the tree has a root,
    /// and the result holds exactly `num_closest` items.
    pub fn find_neighbors(&self, query_point: &Vec<i32>, num_closest: usize, result_set: &mut KNNResultSet<i64>) -> (r: bool)
        requires
            self.is_built(),
            self.spec_points().len() > self.spec_leaf_max() && query_point@.len() > 0 ==> self.spec_split_dim()
                < query_point@.len(),
            distances_fit(self.spec_points(), query_point@),
            old(result_set).is_ready(),
            old(result_set).spec_capacity() > 0,
        ensures
            final(result_set).is_ready(),
            final(result_set).spec_capacity() == old(result_set).spec_capacity(),
            result_from(
                final(result_set).spec_dists(),
                final(result_set).spec_indices(),
                old(result_set).spec_dists(),
                old(result_set).spec_indices(),
                self.spec_points(),
                query_point@,
            ),
            (query_point@.len() == 0 || self.spec_root() is None) ==> final(result_set).spec_dists()
                == old(result_set).spec_dists() && final(result_set).spec_indices() == old(
                result_set,
            ).spec_indices(),
            query_point@.len() > 0 ==> match self.spec_root() {
                Some(root) => {
                    let s = search_spec(
                        *root,
                        self.spec_points(),
                        self.spec_index(),
                        query_point@,
                        self.spec_leaf_max(),
                        i64::MAX,
                        0,
                        old(result_set).spec_capacity(),
                        old(result_set).spec_dists(),
                        old(result_set).spec_indices(),
                    );
                    final(result_set).spec_dists() == s.0 && final(result_set).spec_indices() == s.1
                },
                None => true,
            },
            r == (query_point@.len() > 0 && self.spec_root() is Some && final(result_set).spec_size()
                == num_closest),
    {
        proof {
            old(result_set).lemma_ready_sorted();
            lemma_result_from_refl(old(result_set).spec_dists(), old(result_set).spec_indices(), self.spec_points(), query_point@);
        }
        if query_point.len() == 0 {
            return false;
        }
        let _count = self.dataset.data_len();
        match &self.root_node {
            None => {
                return false;
            },
            Some(root) => {
                proof {
                    lemma_tree_ok_subtree(
                        **root,
                        self.spec_points(),
                        self.index_acc@,
                        self.spec_split_dim(),
                        self.leaf_max_size as int,
                        0,
                        self.spec_points().len() as int,
                        self.spec_points().len(),
                    );
                }
                let min_dist = i64::MAX;
                let eps_error: i64 = 0;
                self.search_level(query_point, root, min_dist, eps_error, result_set);
            },
        }
        result_set.sort();
        result_set.size() == num_closest
    }

    /// The bytes that `save_index` writes: the root node, when there is one.
    pub fn save_index(&self, stream: &mut Vec<u8>) -> (r: Result<(), IoError>)
        ensures
            r is Ok,
            final(stream)@ == old(stream)@ + match self.spec_root() {
                Some(root) => root.spec_encoding(),
                None => Seq::<u8>::empty(),
            },
    {
        match &self.root_node {
            Some(root) => {
                let _ = root.serialize(stream);
            },
            None => {
                assert(stream@ =~= old(stream)@ + Seq::<u8>::empty());
            },
        }
        Ok(())
    }

    /// Reads a root node from `stream` and makes it the root; on an error
    /// the tree keeps its root.
    pub fn load_index(&mut self, stream: &mut Cursor) -> (r: Result<(), IoError>)
        ensures
            final(self).spec_points() == old(self).spec_points(),
            final(self).spec_dim() == old(self).spec_dim(),
            final(self).spec_leaf_max() == old(self).spec_leaf_max(),
            final(self).spec_index() == old(self).spec_index(),
            final(self).spec_bbox() == old(self).spec_bbox(),
            match Node::spec_decode_error(old(stream).remaining()) {
                Some(e) => r == Err::<(), IoError>(e) && final(self).spec_root() == old(self).spec_root(),
                None => {
                    &&& r is Ok
                    &&& final(self).spec_root() matches Some(root) && Node::spec_decoded(old(stream).remaining(), *root)
                    &&& final(stream).remaining() == old(stream).remaining().skip(
                        Node::spec_decode_len(old(stream).remaining()) as int,
                    )
                },
            },
    {
        let root = Node::deserialize(stream)?;
        self.root_node = Some(Box::new(root));
        Ok(())
    }

    /// The bytes that `save_tree` writes: the bounding box, the index list,
    /// and the root node when there is one.
    pub fn save_tree(&self, stream: &mut Vec<u8>) -> (r: Result<(), IoError>)
        ensures
            r is Ok,
            final(stream)@ == old(stream)@ + self.root_bbox_encoding() + self.index_encoding() + match self.spec_root() {
                Some(root) => root.spec_encoding(),
                None => Seq::<u8>::empty(),
            },
    {
        let _ = self.root_bbox.serialize(stream);
        let _ = self.index_acc.serialize(stream);
        let ghost mid = stream@;
        match &self.root_node {
            Some(root) => {
                let _ = root.serialize(stream);
            },
            None => {
                assert(stream@ =~= mid + Seq::<u8>::empty());
            },
        }
        Ok(())
    }

    /// The bytes of the bounding box.
    pub closed spec fn root_bbox_encoding(&self) -> Seq<u8> {
        self.root_bbox.spec_encoding()
    }

    /// The bytes of the index list.
    pub closed spec fn index_encoding(&self) -> Seq<u8> {
        self.index_acc.spec_encoding()
    }

    /// Reads the bounding box, the index list and the root node from
    /// `stream`, each replacing the tree's own as soon as it is read; the
    /// first error stops the load.
    pub fn load_tree(&mut self, stream: &mut Cursor) -> (r: Result<(), IoError>)
        ensures
            final(self).spec_points() == old(self).spec_points(),
            final(self).spec_dim() == old(self).spec_dim(),
            final(self).spec_leaf_max() == old(self).spec_leaf_max(),
            ({
                let s0 = old(stream).remaining();
                let s1 = s0.skip(Vec::<Interval>::spec_decode_len(s0) as int);
                let s2 = s1.skip(Vec::<usize>::spec_decode_len(s1) as int);
                match Vec::<Interval>::spec_decode_error(s0) {
                    Some(e) => {
                        &&& r == Err::<(), IoError>(e)
                        &&& final(self).spec_bbox() == old(self).spec_bbox()
                        &&& final(self).spec_index() == old(self).spec_index()
                        &&& final(self).spec_root() == old(self).spec_root()
                    },
                    None => {
                        &&& final(self).spec_bbox() == intervals_at(s0)
                        &&& match Vec::<usize>::spec_decode_error(s1) {
                            Some(e) => {
                                &&& r == Err::<(), IoError>(e)
                                &&& final(self).spec_index() == old(self).spec_index()
                                &&& final(self).spec_root() == old(self).spec_root()
                            },
                            None => {
                                &&& final(self).spec_index() == usizes_at(s1)
                                &&& match Node::spec_decode_error(s2) {
                                    Some(e) => r == Err::<(), IoError>(e) && final(self).spec_root() == old(
                                        self,
                                    ).spec_root(),
                                    None => {
                                        &&& r is Ok
                                        &&& final(self).spec_root() matches Some(root) && Node::spec_decoded(s2, *root)
                                        &&& final(stream).remaining() == s2.skip(Node::spec_decode_len(s2) as int)
                                    },
                                }
                            },
                        }
                    },
                }
            }),
    {
        self.root_bbox = Vec::<Interval>::deserialize(stream)?;
        self.index_acc = Vec::<usize>::deserialize(stream)?;
        let root = Node::deserialize(stream)?;
        self.root_node = Some(Box::new(root));
        Ok(())
    }
}

/// What `save_tree` writes, `load_tree` reads back: from those bytes,
/// followed by anything, the bounding box and the index list decode without
/// error to the tree's own, the root decodes to itself with all its
/// children, and exactly the rest is left.
pub proof fn lemma_tree_roundtrip<'a>(tree: &StaticKDTree<'a>, rest: Seq<u8>)
    requires
        tree.spec_bbox().len() <= usize::MAX,
        tree.spec_index().len() <= usize::MAX,
    ensures
        ({
            let root_bytes = match tree.spec_root() {
                Some(root) => root.spec_encoding(),
                None => Seq::<u8>::empty(),
            };
            let s0 = tree.root_bbox_encoding() + tree.index_encoding() + root_bytes + rest;
            let s1 = s0.skip(Vec::<Interval>::spec_decode_len(s0) as int);
            let s2 = s1.skip(Vec::<usize>::spec_decode_len(s1) as int);
            &&& Vec::<Interval>::spec_decode_error(s0) is None
            &&& intervals_at(s0) == tree.spec_bbox()
            &&& Vec::<usize>::spec_decode_error(s1) is None
            &&& usizes_at(s1) == tree.spec_index()
            &&& s2 == root_bytes + rest
            &&& match tree.spec_root() {
                Some(root) => {
                    &&& Node::spec_decode_error(s2) is None
                    &&& Node::spec_decoded(s2, *root)
                    &&& s2.skip(Node::spec_decode_len(s2) as int) == rest
                },
                None => s2 == rest,
            }
        }),
{
    let root_bytes = match tree.spec_root() {
        Some(root) => root.spec_encoding(),
        None => Seq::<u8>::empty(),
    };
    let a = tree.root_bbox.spec_encoding();
    let b = tree.index_acc.spec_encoding();
    let s0 = a + b + root_bytes + rest;
    assert(s0 =~= a + (b + root_bytes + rest));
    lemma_intervals_roundtrip(tree.root_bbox, b + root_bytes + rest);
    let s1 = s0.skip(a.len() as int);
    assert(s1 =~= b + (root_bytes + rest));
    lemma_usizes_roundtrip(tree.index_acc, root_bytes + rest);
    let s2 = s1.skip(b.len() as int);
    assert(s2 =~= root_bytes + rest);
    if let Some(root) = tree.spec_root() {
        lemma_node_reads_back(*root, rest);
        assert(s2.skip(root.spec_encoding().len() as int) =~= rest);
    }
}

/// Some entry of the index list names point `p`.
pub open spec fn named_by(index: Seq<usize>, p: int) -> bool {
    exists|v: int| 0 <= v < index.len() && index[v] as int == p
}

/// The index list of a tree holds each point exactly once.
proof fn lemma_index_is_permutation(index: Seq<usize>, n: nat)
    requires
        index.len() == n,
        n <= usize::MAX,
        index.to_multiset() == identity_index(n).to_multiset(),
    ensures
        index_distinct(index),
        forall|p: int| 0 <= p < n ==> #[trigger] named_by(index, p),
{
    broadcast use vstd::seq_lib::to_multiset_contains;

    let id = identity_index(n);
    assert forall|i: int, j: int| 0 <= i < id.len() && 0 <= j < id.len() && i != j implies id[i] != id[j] by {
        assert(id[i] as int == i && id[j] as int == j);
    }
    assert(id.no_duplicates());
    id.lemma_multiset_has_no_duplicates();
    index.lemma_multiset_has_no_duplicates_conv();
    assert forall|p: int| 0 <= p < n implies #[trigger] named_by(index, p) by {
        assert(id[p] == p as usize);
        assert(id.contains(p as usize));
        assert(id.to_multiset().count(p as usize) > 0);
        assert(index.to_multiset().count(p as usize) > 0);
        assert(index.contains(p as usize));
        let v = choose|v: int| 0 <= v < index.len() && index[v] == p as usize;
        assert(index[v] as int == p);
        assert(named_by(index, p));
    }
}

/// `r` is the answer to a search for the `capacity` nearest points to `q`:
/// the search ran to its end and holds distinct points of the data set, each
/// at its squared distance from `q`, closest first; every point not in it is
/// no closer than its farthest item, and it is full unless it holds every
/// point.
pub open spec fn nearest_points(points: Seq<Seq<i32>>, q: Seq<i32>, capacity: nat, r: (Seq<i64>, Seq<usize>, bool)) -> bool {
    &&& r.2
    &&& r.0.len() == r.1.len() <= capacity
    &&& forall|a: int, b: int| 0 <= a < b < r.0.len() ==> #[trigger] r.0[a] <= #[trigger] r.0[b]
    &&& forall|j: int|
        0 <= j < r.1.len() ==> (#[trigger] r.1[j] as int) < points.len() && r.0[j] == point_distance(q, points[r.1[j] as int])
    &&& forall|j: int, l: int| 0 <= j < l < r.1.len() ==> #[trigger] r.1[j] != #[trigger] r.1[l]
    &&& forall|p: int| 0 <= p < points.len() ==> #[trigger] point_kept_or_far(points, q, capacity, r.0, r.1, p)
}

/// Point `p` is in the result `(dists, idx)`, or the result is full and `p`
/// is no closer to `q` than its farthest item.
pub open spec fn point_kept_or_far(
    points: Seq<Seq<i32>>,
    q: Seq<i32>,
    capacity: nat,
    dists: Seq<i64>,
    idx: Seq<usize>,
    p: int,
) -> bool {
    ||| in_result(idx, p as usize)
    ||| dists.len() == capacity && point_distance(q, points[p]) >= dists.last()
}

/// A result of distinct points of the data set, full unless it holds every
/// point, holds `min(capacity, n)` of the `n` points.
pub proof fn lemma_nearest_count(points: Seq<Seq<i32>>, q: Seq<i32>, capacity: nat, r: (Seq<i64>, Seq<usize>, bool))
    requires
        nearest_points(points, q, capacity, r),
        points.len() <= usize::MAX,
    ensures
        r.1.len() == if points.len() < capacity { points.len() } else { capacity },
{
    let n = points.len();
    let s = r.1.map_values(|x: usize| x as int);
    assert(s.no_duplicates()) by {
        assert forall|i: int, j: int| 0 <= i < s.len() && 0 <= j < s.len() && i != j implies s[i] != s[j] by {
            if i < j {
                assert(r.1[i] != r.1[j]);
            } else {
                assert(r.1[j] != r.1[i]);
            }
        }
    }
    s.unique_seq_to_set();
    vstd::set_lib::lemma_int_range(0, n as int);
    let range = vstd::set_lib::set_int_range(0, n as int);
    assert(s.to_set().subset_of(range)) by {
        assert forall|x: int| s.to_set().contains(x) implies range.contains(x) by {
            assert(s.contains(x));
            let j = choose|j: int| 0 <= j < s.len() && s[j] == x;
            assert(r.1[j] as int == x);
        }
    }
    vstd::set_lib::lemma_len_subset(s.to_set(), range);
    if r.1.len() < capacity {
        assert(range.subset_of(s.to_set())) by {
            assert forall|x: int| range.contains(x) implies s.to_set().contains(x) by {
                assert(point_kept_or_far(points, q, capacity, r.0, r.1, x));
                let j = choose|j: int| 0 <= j < r.1.len() && r.1[j] == x as usize;
                assert(s[j] == x);
                assert(s.contains(x));
            }
        }
        vstd::seq_lib::seq_to_set_is_finite(s);
        vstd::set_lib::lemma_len_subset(range, s.to_set());
    }
}

/// What searching the whole of `tree` for `q` does to an empty result of
/// `capacity` slots, as `find_neighbors` searches: no bound on the distance
/// to a split.
pub open spec fn nearest_search<'a>(tree: &StaticKDTree<'a>, q: Seq<i32>, capacity: nat) -> (Seq<i64>, Seq<usize>, bool) {
    search_spec(
        *tree.spec_root().unwrap(),
        tree.spec_points(),
        tree.spec_index(),
        q,
        tree.spec_leaf_max(),
        i64::MAX,
        0,
        capacity,
        Seq::empty(),
        Seq::empty(),
    )
}

/// A search of a built tree from an empty result of `capacity` slots, with no
/// bound on the distance to a split (as `find_neighbors` searches), finds the
/// `capacity` nearest points: the result holds distinct points of the data
/// set, each at its squared distance from `q`, closest first; every point
/// not in it is no closer than its farthest item, and the result is full
/// unless it holds every point. This holds while the result cannot grow past
/// the leaf size (`capacity <= leaf_max_size`), since the search stops once
/// it does.
pub proof fn lemma_search_finds_nearest<'a>(tree: &StaticKDTree<'a>, q: Seq<i32>, capacity: nat)
    requires
        tree.is_built(),
        0 < capacity <= tree.spec_leaf_max(),
        tree.spec_points().len() <= usize::MAX,
        tree.spec_points().len() > tree.spec_leaf_max() ==> tree.spec_split_dim() < q.len(),
        forall|p: int|
            0 <= p < tree.spec_points().len() ==> 0 <= point_distance(q, #[trigger] tree.spec_points()[p]) < i64::MAX,
    ensures
        tree.spec_root() is Some,
        nearest_points(tree.spec_points(), q, capacity, nearest_search(tree, q, capacity)),
        nearest_search(tree, q, capacity).1.len() == if tree.spec_points().len() < capacity {
            tree.spec_points().len()
        } else {
            capacity
        },
{
    lemma_i64_greater();
    let points = tree.spec_points();
    let index = tree.spec_index();
    let n = points.len();
    let lm = tree.spec_leaf_max();
    let cd = tree.spec_split_dim();
    let root = *tree.spec_root().unwrap();
    lemma_index_is_permutation(index, n);
    let e0 = Seq::<i64>::empty();
    let e1 = Seq::<usize>::empty();
    assert(nearest_of(points, index, q, capacity, e0, e1, Set::empty()));
    assert(entries_measurable(points, index, q, 0, n as int)) by {
        assert forall|x: int| 0 <= x < n implies (#[trigger] index[x] as int) < points.len() && 0 <= point_distance(
            q,
            points[index[x] as int],
        ) < i64::MAX by {
            let p = index[x] as int;
            assert(0 <= point_distance(q, points[p]) < i64::MAX);
        }
    }
    lemma_search_nearest(root, points, index, q, cd, lm, capacity, e0, e1, Set::empty(), 0, n as int);
    let r = search_spec(root, points, index, q, lm, i64::MAX, 0, capacity, e0, e1);
    assert(Set::<int>::empty().union(entries(0, n as int)) =~= entries(0, n as int));
    assert forall|a: int, b: int| 0 <= a < b < r.0.len() implies #[trigger] r.0[a] <= #[trigger] r.0[b] by {
        assert(!greater(r.0[a], r.0[b]));
    }
    assert forall|p: int| 0 <= p < points.len() implies #[trigger] point_kept_or_far(points, q, capacity, r.0, r.1, p) by {
        assert(named_by(index, p));
        let v = choose|v: int| 0 <= v < index.len() && index[v] as int == p;
        assert(entries(0, n as int).contains(v));
        assert(kept_or_far(points, index, q, capacity, r.0, r.1, v));
        assert(index[v] == p as usize);
        if !in_result(r.1, p as usize) {
            assert(!in_result(r.1, index[v]));
            assert(r.0.len() == capacity);
        }
    }
    assert(nearest_points(points, q, capacity, r));
    lemma_nearest_count(points, q, capacity, r);
}

/// A kd-tree that points can be added to and removed from.
pub struct DynamicKDTree;

/// Adding points to and removing points from a kd-tree.
pub trait KDTreeOperations {
    /// Adds the points `start..end` of the data set.
    fn add_points(&mut self, start: usize, end: usize);

    /// Removes point `idx`.
    fn remove_point(&mut self, idx: usize);
}

} // verus!

//! Ordering of distances: the spec-level comparison that the result sets
//! and the sorter are stated over, and the laws of a total order.
use vstd::prelude::*;
use vstd::std_specs::cmp::PartialOrdSpec;
use core::cmp::Ordering;

verus! {

/// `a > b` as `PartialOrd` defines it.
pub open spec fn greater<D: PartialOrd>(a: D, b: D) -> bool {
    a.partial_cmp_spec(&b) == Some(Ordering::Greater)
}

/// `a < b` as `PartialOrd` defines it.
pub open spec fn less<D: PartialOrd>(a: D, b: D) -> bool {
    a.partial_cmp_spec(&b) == Some(Ordering::Less)
}

/// The distance type follows its `PartialOrd` spec, every two values are
/// comparable (no NaN-like value), and "not greater" is a total preorder.
pub open spec fn is_total_order<D: PartialOrd>() -> bool {
    &&& D::obeys_partial_cmp_spec()
    &&& forall|a: D, b: D| #[trigger] a.partial_cmp_spec(&b) is Some
    &&& forall|a: D, b: D| #![trigger greater(a, b)] #![trigger less(b, a)] greater(a, b) <==> less(b, a)
    &&& forall|a: D, b: D| #[trigger] greater(a, b) ==> !greater(b, a)
    &&& forall|a: D, b: D, c: D|
        #![trigger greater(a, b), greater(b, c), greater(a, c)]
        !greater(a, b) && !greater(b, c) ==> !greater(a, c)
}

/// `i64`, the distance type of the tree, is totally ordered.
pub proof fn lemma_i64_total_order()
    ensures
        is_total_order::<i64>(),
{
}

pub proof fn lemma_le_trans<D: PartialOrd>(a: D, b: D, c: D)
    requires
        is_total_order::<D>(),
        !greater(a, b),
        !greater(b, c),
    ensures
        !greater(a, c),
{
    assert(!greater(a, b) && !greater(b, c) ==> !greater(a, c));
}

pub proof fn lemma_asym<D: PartialOrd>(a: D, b: D)
    requires
        is_total_order::<D>(),
        greater(a, b),
    ensures
        !greater(b, a),
{
}

pub proof fn lemma_refl<D: PartialOrd>(a: D)
    requires
        is_total_order::<D>(),
    ensures
        !greater(a, a),
{
    if greater(a, a) {
        lemma_asym(a, a);
    }
}

/// A sequence is in ascending order: no element is greater than a later one.
pub open spec fn sorted_by_dist<D: PartialOrd>(s: Seq<D>) -> bool {
    forall|i: int, j: int| 0 <= i < j < s.len() ==> !greater(#[trigger] s[i], #[trigger] s[j])
}

/// Where a new distance `d` goes in `s`: scanning from the back, behind the
/// last element that is not greater than `d`.
pub open spec fn insert_pos<D: PartialOrd>(s: Seq<D>, d: D) -> nat
    decreases s.len(),
{
    if s.len() == 0 {
        0
    } else if greater(s.last(), d) {
        insert_pos(s.drop_last(), d)
    } else {
        s.len()
    }
}

pub proof fn lemma_insert_pos<D: PartialOrd>(s: Seq<D>, d: D)
    ensures
        insert_pos(s, d) <= s.len(),
        forall|k: int| insert_pos(s, d) <= k < s.len() ==> greater(#[trigger] s[k], d),
        insert_pos(s, d) > 0 ==> !greater(s[insert_pos(s, d) - 1], d),
    decreases s.len(),
{
    if s.len() > 0 && greater(s.last(), d) {
        lemma_insert_pos(s.drop_last(), d);
        assert forall|k: int| insert_pos(s, d) <= k < s.len() implies greater(#[trigger] s[k], d) by {
            if k < s.len() - 1 {
                assert(s[k] == s.drop_last()[k]);
            }
        }
    }
}

pub proof fn lemma_insert_pos_sorted<D: PartialOrd>(s: Seq<D>, d: D)
    requires
        is_total_order::<D>(),
        sorted_by_dist(s),
    ensures
        forall|k: int| 0 <= k < insert_pos(s, d) ==> !greater(#[trigger] s[k], d),
{
    lemma_insert_pos(s, d);
    let p = insert_pos(s, d) as int;
    assert forall|k: int| 0 <= k < p implies !greater(#[trigger] s[k], d) by {
        if k < p - 1 {
            lemma_le_trans(s[k], s[p - 1], d);
        }
    }
}

/// Inserting at `insert_pos` keeps a sorted sequence sorted.
pub proof fn lemma_insert_sorted<D: PartialOrd>(s: Seq<D>, d: D)
    requires
        is_total_order::<D>(),
        sorted_by_dist(s),
    ensures
        sorted_by_dist(s.insert(insert_pos(s, d) as int, d)),
{
    lemma_insert_pos(s, d);
    lemma_insert_pos_sorted(s, d);
    let p = insert_pos(s, d) as int;
    let t = s.insert(p, d);
    assert forall|i: int, j: int| 0 <= i < j < t.len() implies !greater(#[trigger] t[i], #[trigger] t[j]) by {
        if i < p && j < p {
            assert(t[i] == s[i] && t[j] == s[j]);
        } else if i < p && j == p {
            assert(t[i] == s[i]);
        } else if i < p {
            assert(t[i] == s[i] && t[j] == s[j - 1]);
        } else if i == p {
            assert(t[j] == s[j - 1]);
            assert(greater(s[j - 1], d));
            lemma_asym(s[j - 1], d);
        } else {
            assert(t[i] == s[i - 1] && t[j] == s[j - 1]);
        }
    }
}

pub proof fn lemma_take_sorted<D: PartialOrd>(s: Seq<D>, n: int)
    requires
        sorted_by_dist(s),
        0 <= n <= s.len(),
    ensures
        sorted_by_dist(s.take(n)),
{
    assert forall|i: int, j: int| 0 <= i < j < s.take(n).len() implies !greater(#[trigger] s.take(n)[i], #[trigger] s.take(n)[j]) by {
        assert(s.take(n)[i] == s[i] && s.take(n)[j] == s[j]);
    }
}

} // verus!

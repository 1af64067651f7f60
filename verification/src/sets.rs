//! Result sets of nearest-neighbour searches: the `k` closest candidates
//! (optionally below a distance bound) in ascending order, and all candidates
//! within a radius.
use vstd::prelude::*;
use vstd::std_specs::cmp::PartialOrdSpec;
use crate::order::{
    greater, less, insert_pos, is_total_order, lemma_asym, lemma_le_trans, lemma_refl, lemma_insert_pos,
    lemma_insert_pos_sorted, lemma_insert_sorted, lemma_take_sorted, sorted_by_dist,
};
use crate::utils::{HasDistance, HasPointData, MaxValue};

verus! {

/// Distances and indices of an ordered result of `count` items, held in the
/// first `count` slots of two buffers of at least `capacity` slots.
pub open spec fn buffers_ok<D: PartialOrd>(dists: Seq<D>, indices: Seq<usize>, count: nat, capacity: nat) -> bool {
    &&& count <= capacity
    &&& dists.len() >= capacity
    &&& indices.len() >= capacity
    &&& sorted_by_dist(dists.take(count as int))
}

/// The number of items after one more candidate was offered to a result of
/// `count` items that holds at most `capacity`.
pub open spec fn count_after_add(count: nat, capacity: nat) -> nat {
    if count < capacity {
        count + 1
    } else {
        capacity
    }
}

/// Inserts `(dist, index)` into the ordered buffers, behind every item that is
/// not farther than `dist`, and drops what no longer fits in `capacity`.
fn insert_ordered<D: PartialOrd + Copy>(
    dists: &mut Vec<D>,
    indices: &mut Vec<usize>,
    count: usize,
    capacity: usize,
    dist: D,
    index: usize,
) -> (pos: usize)
    requires
        is_total_order::<D>(),
        buffers_ok(old(dists)@, old(indices)@, count as nat, capacity as nat),
    ensures
        pos == insert_pos(old(dists)@.take(count as int), dist),
        final(dists)@.len() == old(dists)@.len(),
        final(indices)@.len() == old(indices)@.len(),
        final(dists)@.take(count_after_add(count as nat, capacity as nat) as int)
            == old(dists)@.take(count as int).insert(pos as int, dist).take(
            count_after_add(count as nat, capacity as nat) as int,
        ),
        final(indices)@.take(count_after_add(count as nat, capacity as nat) as int)
            == old(indices)@.take(count as int).insert(pos as int, index).take(
            count_after_add(count as nat, capacity as nat) as int,
        ),
        forall|k: int|
            count_after_add(count as nat, capacity as nat) <= k < final(dists)@.len() ==> #[trigger] final(dists)@[k]
                == old(dists)@[k],
        buffers_ok(
            final(dists)@,
            final(indices)@,
            count_after_add(count as nat, capacity as nat),
            capacity as nat,
        ),
{
    let ghost od = dists@;
    let ghost oi = indices@;
    let ghost s = od.take(count as int);
    proof {
        lemma_insert_pos(s, dist);
        assert(s.take(count as int) =~= s);
    }
    let mut i: usize = count;
    while i > 0
        invariant_except_break
            insert_pos(s, dist) == insert_pos(s.take(i as int), dist),
        invariant
            is_total_order::<D>(),
            s == od.take(count as int),
            0 <= i <= count <= capacity,
            od.len() >= capacity,
            oi.len() >= capacity,
            dists@.len() == od.len(),
            indices@.len() == oi.len(),
            forall|k: int| 0 <= k <= i ==> k < dists@.len() ==> #[trigger] dists@[k] == od[k],
            forall|k: int| 0 <= k <= i ==> k < indices@.len() ==> #[trigger] indices@[k] == oi[k],
            forall|k: int| i < k <= count && k < capacity ==> #[trigger] dists@[k] == od[k - 1],
            forall|k: int| i < k <= count && k < capacity ==> #[trigger] indices@[k] == oi[k - 1],
            forall|k: int| count < k < dists@.len() ==> #[trigger] dists@[k] == od[k],
            forall|k: int| count < k < indices@.len() ==> #[trigger] indices@[k] == oi[k],
            forall|k: int| capacity <= k < dists@.len() ==> #[trigger] dists@[k] == od[k],
            forall|k: int| i <= k < count ==> greater(#[trigger] od[k], dist),
        ensures
            0 <= i <= count,
            insert_pos(s, dist) == i,
            forall|k: int| 0 <= k <= i ==> k < dists@.len() ==> #[trigger] dists@[k] == od[k],
            forall|k: int| 0 <= k <= i ==> k < indices@.len() ==> #[trigger] indices@[k] == oi[k],
            forall|k: int| i < k <= count && k < capacity ==> #[trigger] dists@[k] == od[k - 1],
            forall|k: int| i < k <= count && k < capacity ==> #[trigger] indices@[k] == oi[k - 1],
            forall|k: int| count < k < dists@.len() ==> #[trigger] dists@[k] == od[k],
            forall|k: int| count < k < indices@.len() ==> #[trigger] indices@[k] == oi[k],
            forall|k: int| capacity <= k < dists@.len() ==> #[trigger] dists@[k] == od[k],
            forall|k: int| i <= k < count ==> greater(#[trigger] od[k], dist),
        decreases i,
    {
        let prev = dists[i - 1];
        if prev > dist {
            if i < capacity {
                dists.set(i, prev);
                let prev_index = indices[i - 1];
                indices.set(i, prev_index);
            }
            proof {
                let t = s.take(i as int);
                assert(t.last() == od[i - 1]);
                assert(t.drop_last() == s.take(i - 1));
            }
        } else {
            proof {
                let t = s.take(i as int);
                assert(t.last() == od[i - 1]);
                assert(t.len() == i);
            }
            break;
        }
        i = i - 1;
    }
    if i < capacity {
        dists.set(i, dist);
        indices.set(i, index);
    }
    proof {
        let n = count_after_add(count as nat, capacity as nat) as int;
        let t = s.insert(i as int, dist);
        let ti = oi.take(count as int).insert(i as int, index);
        assert(dists@.take(n) =~= t.take(n)) by {
            assert forall|k: int| 0 <= k < n implies dists@.take(n)[k] == t.take(n)[k] by {
                if k < i {
                } else if k == i {
                } else {
                }
            }
        }
        assert(indices@.take(n) =~= ti.take(n)) by {
            assert forall|k: int| 0 <= k < n implies indices@.take(n)[k] == ti.take(n)[k] by {
                if k < i {
                } else if k == i {
                } else {
                }
            }
        }
        lemma_insert_sorted(s, dist);
        lemma_take_sorted(t, n);
        assert(dists@.take(n).take(n) == dists@.take(n));
    }
    i
}


/// A result `(dists, indices)` of `capacity` slots after offering `(d, i)`,
/// as `add_point` of the nearest-neighbour result sets changes it.
pub open spec fn knn_offer<D: PartialOrd>(dists: Seq<D>, indices: Seq<usize>, capacity: nat, d: D, i: usize) -> (
    Seq<D>,
    Seq<usize>,
) {
    let pos = insert_pos(dists, d) as int;
    let n = count_after_add(dists.len(), capacity) as int;
    (dists.insert(pos, d).take(n), indices.insert(pos, i).take(n))
}

/// The result of offering `offers` (distance, index) in turn to an empty
/// result of `capacity` slots.
pub open spec fn knn_offers<D: PartialOrd>(offers: Seq<(D, usize)>, capacity: nat) -> (Seq<D>, Seq<usize>)
    decreases offers.len(),
{
    if offers.len() == 0 {
        (Seq::empty(), Seq::empty())
    } else {
        let r = knn_offers(offers.drop_last(), capacity);
        knn_offer(r.0, r.1, capacity, offers.last().0, offers.last().1)
    }
}

/// The distances of offers.
pub open spec fn offer_dists<D>(offers: Seq<(D, usize)>) -> Seq<D> {
    offers.map_values(|o: (D, usize)| o.0)
}

/// The indices of offers.
pub open spec fn offer_indices<D>(offers: Seq<(D, usize)>) -> Seq<usize> {
    offers.map_values(|o: (D, usize)| o.1)
}

/// All offers in ascending order of distance, offers at the same distance in
/// the order they were made.
pub open spec fn sorted_offers<D: PartialOrd>(offers: Seq<(D, usize)>) -> Seq<(D, usize)>
    decreases offers.len(),
{
    if offers.len() == 0 {
        Seq::empty()
    } else {
        let r = sorted_offers(offers.drop_last());
        r.insert(insert_pos(offer_dists(r), offers.last().0) as int, offers.last())
    }
}

/// Inserting into offers inserts into their distances and indices.
proof fn lemma_offers_insert<D>(r: Seq<(D, usize)>, p: int, x: (D, usize))
    requires
        0 <= p <= r.len(),
    ensures
        offer_dists(r.insert(p, x)) == offer_dists(r).insert(p, x.0),
        offer_indices(r.insert(p, x)) == offer_indices(r).insert(p, x.1),
{
    assert(offer_dists(r.insert(p, x)) =~= offer_dists(r).insert(p, x.0));
    assert(offer_indices(r.insert(p, x)) =~= offer_indices(r).insert(p, x.1));
}

/// Where `d` goes in a prefix of a sorted sequence: where it goes in the
/// whole sequence, or at the end of the prefix.
proof fn lemma_insert_pos_prefix<D: PartialOrd>(s: Seq<D>, m: int, d: D)
    requires
        is_total_order::<D>(),
        sorted_by_dist(s),
        0 <= m <= s.len(),
    ensures
        insert_pos(s.take(m), d) == if insert_pos(s, d) <= m { insert_pos(s, d) } else { m as nat },
{
    lemma_insert_pos(s, d);
    lemma_insert_pos(s.take(m), d);
    lemma_insert_pos_sorted(s, d);
    lemma_take_sorted(s, m);
    lemma_insert_pos_sorted(s.take(m), d);
    let p = insert_pos(s, d) as int;
    let q = insert_pos(s.take(m), d) as int;
    if q < p && q < m {
        assert(s.take(m)[q] == s[q]);
    }
    if p < q {
        assert(s.take(m)[p] == s[p]);
    }
}

/// Offering candidates in turn to a nearest-neighbour result of `capacity`
/// slots keeps the closest of them: the result is the first
/// `min(offers, capacity)` offers in ascending order of distance (offers at
/// the same distance in the order they were made), and that order holds
/// every offer exactly once.
pub proof fn lemma_knn_offers_closest<D: PartialOrd>(offers: Seq<(D, usize)>, capacity: nat)
    requires
        is_total_order::<D>(),
    ensures
        ({
            let s = sorted_offers(offers);
            let n = if offers.len() < capacity { offers.len() } else { capacity };
            &&& s.to_multiset() == offers.to_multiset()
            &&& sorted_by_dist(offer_dists(s))
            &&& knn_offers(offers, capacity) == (offer_dists(s).take(n as int), offer_indices(s).take(n as int))
        }),
    decreases offers.len(),
{
    broadcast use {vstd::seq_lib::to_multiset_insert, vstd::seq_lib::to_multiset_len};

    if offers.len() == 0 {
        assert(offer_dists(Seq::<(D, usize)>::empty()) =~= Seq::<D>::empty());
        assert(offer_indices(Seq::<(D, usize)>::empty()) =~= Seq::<usize>::empty());
        assert(offers =~= Seq::<(D, usize)>::empty());
    } else {
        let prev = offers.drop_last();
        let x = offers.last();
        lemma_knn_offers_closest(prev, capacity);
        let r = sorted_offers(prev);
        let rd = offer_dists(r);
        let ri = offer_indices(r);
        let p = insert_pos(rd, x.0);
        lemma_insert_pos(rd, x.0);
        lemma_offers_insert(r, p as int, x);
        lemma_insert_sorted(rd, x.0);
        assert(offers =~= prev.push(x));
        assert(prev.push(x).to_multiset() == prev.to_multiset().insert(x)) by {
            assert(prev.push(x) =~= prev.insert(prev.len() as int, x));
        }
        let m = if prev.len() < capacity { prev.len() } else { capacity };
        let n = if offers.len() < capacity { offers.len() } else { capacity };
        let k = knn_offers(prev, capacity);
        assert(k.0 == rd.take(m as int));
        assert(rd.len() == prev.len()) by {
            assert(r.to_multiset().len() == prev.to_multiset().len());
        }
        lemma_insert_pos_prefix(rd, m as int, x.0);
        assert(count_after_add(k.0.len(), capacity) == n);
        let sd = rd.insert(p as int, x.0);
        let si = ri.insert(p as int, x.1);
        if p <= m {
            assert(rd.take(m as int).insert(p as int, x.0).take(n as int) =~= sd.take(n as int));
            assert(ri.take(m as int).insert(p as int, x.1).take(n as int) =~= si.take(n as int));
        } else {
            assert(m == capacity);
            assert(rd.take(m as int).insert(m as int, x.0).take(n as int) =~= sd.take(n as int));
            assert(ri.take(m as int).insert(m as int, x.1).take(n as int) =~= si.take(n as int));
        }
    }
}

/// The distance a candidate has to beat to enter a result of `capacity`
/// slots: the farthest kept distance once the result is full, else `bound`.
pub open spec fn worst_of<D>(dists: Seq<D>, capacity: nat, bound: D) -> D {
    if dists.len() == capacity && capacity > 0 {
        dists.last()
    } else {
        bound
    }
}

/// The `capacity` nearest candidates offered so far, closest first.
pub struct KNNResultSet<DistanceTypeAny> {
    indices: Vec<usize>,
    dists: Vec<DistanceTypeAny>,
    capacity: usize,
    count: usize,
}

impl<DistanceTypeAny: PartialOrd + Copy + MaxValue> KNNResultSet<DistanceTypeAny> {
    /// Distances of the kept candidates, in the order they are held.
    pub closed spec fn spec_dists(&self) -> Seq<DistanceTypeAny> {
        self.dists@.take(self.count as int)
    }

    /// Indices of the kept candidates, parallel to `spec_dists`.
    pub closed spec fn spec_indices(&self) -> Seq<usize> {
        self.indices@.take(self.count as int)
    }

    /// The whole index buffer handed to `init`, slots past the count included.
    pub closed spec fn spec_index_buffer(&self) -> Seq<usize> {
        self.indices@
    }

    /// The whole distance buffer handed to `init`, slots past the count
    /// included.
    pub closed spec fn spec_dist_buffer(&self) -> Seq<DistanceTypeAny> {
        self.dists@
    }

    pub closed spec fn spec_capacity(&self) -> nat {
        self.capacity as nat
    }

    /// The number of kept candidates.
    pub closed spec fn spec_size(&self) -> nat {
        self.count as nat
    }

    /// The buffers handed to `init` are large enough, and the kept distances
    /// are in ascending order.
    pub closed spec fn is_ready(&self) -> bool {
        &&& buffers_ok(self.dists@, self.indices@, self.count as nat, self.capacity as nat)
        &&& self.count < self.capacity ==> self.dists@[self.capacity - 1] == DistanceTypeAny::spec_max_value()
    }

    pub proof fn lemma_ready_sorted(&self)
        requires
            self.is_ready(),
        ensures
            sorted_by_dist(self.spec_dists()),
            self.spec_dists().len() == self.spec_indices().len(),
            self.spec_dists().len() <= self.spec_capacity(),
            self.spec_dists().len() == self.spec_size(),
    {
    }

    /// An empty result with room for `capacity` candidates; `init` hands it
    /// its buffers.
    pub fn new(capacity: usize) -> (r: Self)
        ensures
            r.spec_capacity() == capacity,
            r.spec_dists() == Seq::<DistanceTypeAny>::empty(),
            r.spec_indices() == Seq::<usize>::empty(),
            r.spec_size() == 0,
            r.is_ready() <==> capacity == 0,
    {
        let r = KNNResultSet {
            indices: Vec::with_capacity(capacity),
            dists: Vec::with_capacity(capacity),
            capacity,
            count: 0,
        };
        assert(r.dists@.take(0) =~= Seq::<DistanceTypeAny>::empty());
        assert(r.indices@.take(0) =~= Seq::<usize>::empty());
        r
    }

    /// Takes `indices` and `dists` as the result's buffers and empties the
    /// result; the last slot of `dists` is set to the largest distance.
    pub fn init(&mut self, indices: Vec<usize>, dists: Vec<DistanceTypeAny>)
        requires
            old(self).spec_capacity() > 0 ==> dists@.len() >= old(self).spec_capacity(),
        ensures
            final(self).spec_capacity() == old(self).spec_capacity(),
            final(self).spec_dists() == Seq::<DistanceTypeAny>::empty(),
            final(self).spec_indices() == Seq::<usize>::empty(),
            final(self).spec_size() == 0,
            final(self).is_ready() <==> indices@.len() >= old(self).spec_capacity(),
            final(self).spec_index_buffer() == indices@,
            final(self).spec_dist_buffer() == if old(self).spec_capacity() > 0 {
                dists@.update(old(self).spec_capacity() - 1, DistanceTypeAny::spec_max_value())
            } else {
                dists@
            },
    {
        self.count = 0;
        let mut dists = dists;
        if self.capacity > 0 {
            dists.set(self.capacity - 1, DistanceTypeAny::max_value());
        }
        self.indices = indices;
        self.dists = dists;
        assert(self.dists@.take(0) =~= Seq::<DistanceTypeAny>::empty());
        assert(self.indices@.take(0) =~= Seq::<usize>::empty());
    }

    /// The number of kept candidates.
    pub fn size(&self) -> (r: usize)
        ensures
            r == self.spec_size(),
    {
        self.count
    }

    pub fn empty(&self) -> (r: bool)
        ensures
            r <==> self.spec_size() == 0,
    {
        self.count == 0
    }

    pub fn full(&self) -> (r: bool)
        ensures
            r <==> self.spec_size() == self.spec_capacity(),
    {
        self.count == self.capacity
    }

    /// Offers a candidate: it goes behind every kept candidate that is not
    /// farther, and the farthest one falls out when the result was full.
    pub fn add_point(&mut self, dist: DistanceTypeAny, index: usize) -> (r: bool)
        requires
            is_total_order::<DistanceTypeAny>(),
            old(self).is_ready(),
        ensures
            r,
            final(self).is_ready(),
            final(self).spec_capacity() == old(self).spec_capacity(),
            final(self).spec_size() == count_after_add(old(self).spec_size(), old(self).spec_capacity()),
            final(self).spec_dists() == old(self).spec_dists().insert(
                insert_pos(old(self).spec_dists(), dist) as int,
                dist,
            ).take(count_after_add(old(self).spec_dists().len(), old(self).spec_capacity()) as int),
            final(self).spec_indices() == old(self).spec_indices().insert(
                insert_pos(old(self).spec_dists(), dist) as int,
                index,
            ).take(count_after_add(old(self).spec_dists().len(), old(self).spec_capacity()) as int),
            (final(self).spec_dists(), final(self).spec_indices()) == knn_offer(
                old(self).spec_dists(),
                old(self).spec_indices(),
                old(self).spec_capacity(),
                dist,
                index,
            ),
    {
        let count = self.count;
        let capacity = self.capacity;
        insert_ordered(&mut self.dists, &mut self.indices, count, capacity, dist, index);
        if self.count < self.capacity {
            self.count = self.count + 1;
        }
        true
    }

    /// The distance a new candidate has to beat: the farthest kept one once
    /// the result is full, the largest distance before.
    pub fn worst_dist(&self) -> (r: DistanceTypeAny)
        requires
            self.is_ready(),
            self.spec_capacity() > 0,
        ensures
            r == worst_of(self.spec_dists(), self.spec_capacity(), DistanceTypeAny::spec_max_value()),
    {
        self.dists[self.capacity - 1]
    }

    /// The result is kept in ascending order, so there is nothing to do.
    pub fn sort(&self)
        requires
            self.is_ready(),
        ensures
            sorted_by_dist(self.spec_dists()),
    {
    }

    /// The distance of the `i`-th kept candidate.
    pub fn dist_at(&self, i: usize) -> (r: DistanceTypeAny)
        requires
            self.is_ready(),
            i < self.spec_dists().len(),
        ensures
            r == self.spec_dists()[i as int],
    {
        self.dists[i]
    }

    /// The index of the `i`-th kept candidate.
    pub fn index_at(&self, i: usize) -> (r: usize)
        requires
            self.is_ready(),
            i < self.spec_indices().len(),
        ensures
            r == self.spec_indices()[i as int],
    {
        self.indices[i]
    }
}

/// The `capacity` nearest candidates offered so far, closest first, for a
/// search bounded by a largest squared distance.
pub struct RKNNResultSet<DistanceTypeAny> {
    indices: Vec<usize>,
    dists: Vec<DistanceTypeAny>,
    capacity: usize,
    count: usize,
    maximum_search_distance_squared: DistanceTypeAny,
}

impl<DistanceTypeAny: PartialOrd + Copy> RKNNResultSet<DistanceTypeAny> {
    /// Distances of the kept candidates, in the order they are held.
    pub closed spec fn spec_dists(&self) -> Seq<DistanceTypeAny> {
        self.dists@.take(self.count as int)
    }

    /// Indices of the kept candidates, parallel to `spec_dists`.
    pub closed spec fn spec_indices(&self) -> Seq<usize> {
        self.indices@.take(self.count as int)
    }

    /// The whole index buffer handed to `init`, slots past the count included.
    pub closed spec fn spec_index_buffer(&self) -> Seq<usize> {
        self.indices@
    }

    /// The whole distance buffer handed to `init`, slots past the count
    /// included.
    pub closed spec fn spec_dist_buffer(&self) -> Seq<DistanceTypeAny> {
        self.dists@
    }

    pub closed spec fn spec_capacity(&self) -> nat {
        self.capacity as nat
    }

    /// The largest distance the search looks at.
    pub closed spec fn spec_bound(&self) -> DistanceTypeAny {
        self.maximum_search_distance_squared
    }

    /// The number of kept candidates.
    pub closed spec fn spec_size(&self) -> nat {
        self.count as nat
    }

    /// The buffers handed to `init` are large enough, and the kept distances
    /// are in ascending order.
    pub closed spec fn is_ready(&self) -> bool {
        &&& buffers_ok(self.dists@, self.indices@, self.count as nat, self.capacity as nat)
        &&& self.count < self.capacity ==> self.dists@[self.capacity - 1] == self.spec_bound()
    }

    pub proof fn lemma_ready_sorted(&self)
        requires
            self.is_ready(),
        ensures
            sorted_by_dist(self.spec_dists()),
            self.spec_dists().len() == self.spec_indices().len(),
            self.spec_dists().len() <= self.spec_capacity(),
            self.spec_dists().len() == self.spec_size(),
    {
    }

    /// An empty result with room for `capacity` candidates within
    /// `maximum_search_distance_squared`; `init` hands it its buffers.
    pub fn new(capacity: usize, maximum_search_distance_squared: DistanceTypeAny) -> (r: Self)
        ensures
            r.spec_capacity() == capacity,
            r.spec_bound() == maximum_search_distance_squared,
            r.spec_dists() == Seq::<DistanceTypeAny>::empty(),
            r.spec_indices() == Seq::<usize>::empty(),
            r.spec_size() == 0,
            r.is_ready() <==> capacity == 0,
    {
        let r = RKNNResultSet {
            indices: Vec::with_capacity(capacity),
            dists: Vec::with_capacity(capacity),
            capacity,
            count: 0,
            maximum_search_distance_squared,
        };
        assert(r.dists@.take(0) =~= Seq::<DistanceTypeAny>::empty());
        assert(r.indices@.take(0) =~= Seq::<usize>::empty());
        r
    }

    /// Takes `indices` and `dists` as the result's buffers and empties the
    /// result; the last slot of `dists` is set to the search bound.
    pub fn init(&mut self, indices: Vec<usize>, dists: Vec<DistanceTypeAny>)
        requires
            old(self).spec_capacity() > 0 ==> dists@.len() >= old(self).spec_capacity(),
        ensures
            final(self).spec_capacity() == old(self).spec_capacity(),
            final(self).spec_bound() == old(self).spec_bound(),
            final(self).spec_dists() == Seq::<DistanceTypeAny>::empty(),
            final(self).spec_indices() == Seq::<usize>::empty(),
            final(self).spec_size() == 0,
            final(self).is_ready() <==> indices@.len() >= old(self).spec_capacity(),
            final(self).spec_index_buffer() == indices@,
            final(self).spec_dist_buffer() == if old(self).spec_capacity() > 0 {
                dists@.update(old(self).spec_capacity() - 1, old(self).spec_bound())
            } else {
                dists@
            },
    {
        self.count = 0;
        let mut dists = dists;
        if self.capacity > 0 {
            dists.set(self.capacity - 1, self.maximum_search_distance_squared);
        }
        self.indices = indices;
        self.dists = dists;
        assert(self.dists@.take(0) =~= Seq::<DistanceTypeAny>::empty());
        assert(self.indices@.take(0) =~= Seq::<usize>::empty());
    }

    /// The number of kept candidates.
    pub fn size(&self) -> (r: usize)
        ensures
            r == self.spec_size(),
    {
        self.count
    }

    pub fn empty(&self) -> (r: bool)
        ensures
            r <==> self.spec_size() == 0,
    {
        self.count == 0
    }

    pub fn full(&self) -> (r: bool)
        ensures
            r <==> self.spec_size() == self.spec_capacity(),
    {
        self.count == self.capacity
    }

    /// Offers a candidate: it goes behind every kept candidate that is not
    /// farther, and the farthest one falls out when the result was full.
    pub fn add_point(&mut self, dist: DistanceTypeAny, index: usize) -> (r: bool)
        requires
            is_total_order::<DistanceTypeAny>(),
            old(self).is_ready(),
        ensures
            r,
            final(self).is_ready(),
            final(self).spec_capacity() == old(self).spec_capacity(),
            final(self).spec_bound() == old(self).spec_bound(),
            final(self).spec_size() == count_after_add(old(self).spec_size(), old(self).spec_capacity()),
            final(self).spec_dists() == old(self).spec_dists().insert(
                insert_pos(old(self).spec_dists(), dist) as int,
                dist,
            ).take(count_after_add(old(self).spec_dists().len(), old(self).spec_capacity()) as int),
            final(self).spec_indices() == old(self).spec_indices().insert(
                insert_pos(old(self).spec_dists(), dist) as int,
                index,
            ).take(count_after_add(old(self).spec_dists().len(), old(self).spec_capacity()) as int),
            (final(self).spec_dists(), final(self).spec_indices()) == knn_offer(
                old(self).spec_dists(),
                old(self).spec_indices(),
                old(self).spec_capacity(),
                dist,
                index,
            ),
    {
        let count = self.count;
        let capacity = self.capacity;
        insert_ordered(&mut self.dists, &mut self.indices, count, capacity, dist, index);
        if self.count < self.capacity {
            self.count = self.count + 1;
        }
        true
    }

    /// The distance a new candidate has to beat: the farthest kept one once
    /// the result is full, the search bound before.
    pub fn worst_dist(&self) -> (r: DistanceTypeAny)
        requires
            self.is_ready(),
            self.spec_capacity() > 0,
        ensures
            r == worst_of(self.spec_dists(), self.spec_capacity(), self.spec_bound()),
    {
        self.dists[self.capacity - 1]
    }

    /// The result is kept in ascending order, so there is nothing to do.
    pub fn sort(&self)
        requires
            self.is_ready(),
        ensures
            sorted_by_dist(self.spec_dists()),
    {
    }

    /// The distance of the `i`-th kept candidate.
    pub fn dist_at(&self, i: usize) -> (r: DistanceTypeAny)
        requires
            self.is_ready(),
            i < self.spec_dists().len(),
        ensures
            r == self.spec_dists()[i as int],
    {
        self.dists[i]
    }

    /// The index of the `i`-th kept candidate.
    pub fn index_at(&self, i: usize) -> (r: usize)
        requires
            self.is_ready(),
            i < self.spec_indices().len(),
        ensures
            r == self.spec_indices()[i as int],
    {
        self.indices[i]
    }
}


/// One search result: the index of a point and its distance to the query.
#[derive(Debug, Clone, Copy, PartialEq)]
pub struct ResultSet<IndexTypeAny, DistanceTypeAny> {
    pub index: IndexTypeAny,
    pub distance: DistanceTypeAny,
}

/// Another name for a single search result.
pub type ResultItem<IndexTypeAny, DistanceTypeAny> = ResultSet<IndexTypeAny, DistanceTypeAny>;

impl<IndexTypeAny: Copy, DistanceTypeAny: Copy> ResultSet<IndexTypeAny, DistanceTypeAny> {
    pub open spec fn spec_index(&self) -> IndexTypeAny {
        self.index
    }

    pub open spec fn spec_distance(&self) -> DistanceTypeAny {
        self.distance
    }

    pub fn new(index: IndexTypeAny, distance: DistanceTypeAny) -> (r: Self)
        ensures
            r.spec_index() == index,
            r.spec_distance() == distance,
    {
        ResultSet { index, distance }
    }

    /// The distance of this result.
    pub fn distance(&self) -> (r: DistanceTypeAny)
        ensures
            r == self.spec_distance(),
    {
        self.distance
    }

    /// The point index of this result.
    pub fn index(&self) -> (r: IndexTypeAny)
        ensures
            r == self.spec_index(),
    {
        self.index
    }
}

/// The distances of a sequence of results.
pub open spec fn result_dists<D: Copy>(s: Seq<ResultSet<usize, D>>) -> Seq<D> {
    s.map_values(|r: ResultSet<usize, D>| r.spec_distance())
}

/// `j` holds the farthest result of `s`, and no later result is as far.
pub open spec fn is_last_farthest<D: PartialOrd + Copy>(s: Seq<ResultSet<usize, D>>, j: int) -> bool {
    &&& 0 <= j < s.len()
    &&& forall|k: int| 0 <= k < s.len() ==> !greater(#[trigger] s[k].spec_distance(), s[j].spec_distance())
    &&& forall|k: int| j < k < s.len() ==> greater(s[j].spec_distance(), #[trigger] s[k].spec_distance())
}

/// Every candidate closer than a fixed radius, in the order offered (until
/// A result bounded by a search distance and a plain one that hold the same
/// candidates stay alike: the same offer changes both the same way (neither
/// filters by the bound), and before they are full the bounded one has to be
/// beaten by its bound where the plain one has the largest distance; once
/// full, both by their farthest candidate.
pub proof fn lemma_bounded_matches_plain<D: PartialOrd + Copy + MaxValue>(
    plain: KNNResultSet<D>,
    bounded: RKNNResultSet<D>,
    d: D,
    i: usize,
)
    requires
        plain.is_ready(),
        bounded.is_ready(),
        plain.spec_capacity() == bounded.spec_capacity(),
        plain.spec_dists() == bounded.spec_dists(),
        plain.spec_indices() == bounded.spec_indices(),
    ensures
        plain.spec_size() == bounded.spec_size(),
        knn_offer(plain.spec_dists(), plain.spec_indices(), plain.spec_capacity(), d, i) == knn_offer(
            bounded.spec_dists(),
            bounded.spec_indices(),
            bounded.spec_capacity(),
            d,
            i,
        ),
        bounded.spec_size() < bounded.spec_capacity() ==> {
            &&& worst_of(bounded.spec_dists(), bounded.spec_capacity(), bounded.spec_bound()) == bounded.spec_bound()
            &&& worst_of(plain.spec_dists(), plain.spec_capacity(), D::spec_max_value()) == D::spec_max_value()
        },
        bounded.spec_size() == bounded.spec_capacity() > 0 ==> worst_of(
            bounded.spec_dists(),
            bounded.spec_capacity(),
            bounded.spec_bound(),
        ) == worst_of(plain.spec_dists(), plain.spec_capacity(), D::spec_max_value()),
{
    plain.lemma_ready_sorted();
    bounded.lemma_ready_sorted();
}

/// `sort`).
pub struct RadiusResultSet<DistanceTypeAny> {
    radius: DistanceTypeAny,
    indices_dists: Vec<ResultSet<usize, DistanceTypeAny>>,
}

impl<DistanceTypeAny: PartialOrd + Copy> RadiusResultSet<DistanceTypeAny> {
    /// The kept results.
    pub closed spec fn spec_items(&self) -> Seq<ResultSet<usize, DistanceTypeAny>> {
        self.indices_dists@
    }

    pub closed spec fn spec_radius(&self) -> DistanceTypeAny {
        self.radius
    }

    /// A result for `radius` that starts out with `indices_dists`.
    pub fn new(radius: DistanceTypeAny, indices_dists: Vec<ResultSet<usize, DistanceTypeAny>>) -> (r: Self)
        ensures
            r.spec_radius() == radius,
            r.spec_items() == indices_dists@,
    {
        RadiusResultSet { radius, indices_dists }
    }

    /// Empties the result.
    pub fn init(&mut self)
        ensures
            final(self).spec_radius() == old(self).spec_radius(),
            final(self).spec_items() == Seq::<ResultSet<usize, DistanceTypeAny>>::empty(),
    {
        self.clear();
    }

    /// Empties the result.
    pub fn clear(&mut self)
        ensures
            final(self).spec_radius() == old(self).spec_radius(),
            final(self).spec_items() == Seq::<ResultSet<usize, DistanceTypeAny>>::empty(),
    {
        self.indices_dists.clear();
    }

    pub fn size(&self) -> (r: usize)
        ensures
            r == self.spec_items().len(),
    {
        self.indices_dists.len()
    }

    pub fn empty(&self) -> (r: bool)
        ensures
            r <==> self.spec_items().len() == 0,
    {
        self.indices_dists.len() == 0
    }

    /// A radius result never refuses a candidate for lack of room.
    pub fn full(&self) -> (r: bool)
        ensures
            r,
    {
        true
    }

    /// Keeps the candidate when it is closer than the radius.
    pub fn add_point(&mut self, dist: DistanceTypeAny, index: usize) -> (r: bool)
        requires
            DistanceTypeAny::obeys_partial_cmp_spec(),
        ensures
            r,
            final(self).spec_radius() == old(self).spec_radius(),
            final(self).spec_items() == if less(dist, old(self).spec_radius()) {
                old(self).spec_items().push(ResultSet { index: index, distance: dist })
            } else {
                old(self).spec_items()
            },
    {
        if dist < self.radius {
            self.indices_dists.push(ResultSet::new(index, dist));
        }
        true
    }

    /// The `k`-th kept result.
    pub fn item_at(&self, k: usize) -> (r: ResultSet<usize, DistanceTypeAny>)
        requires
            k < self.spec_items().len(),
        ensures
            r == self.spec_items()[k as int],
    {
        self.indices_dists[k]
    }

    /// The radius: no kept candidate is farther.
    pub fn worst_dist(&self) -> (r: DistanceTypeAny)
        ensures
            r == self.spec_radius(),
    {
        self.radius
    }

    /// The farthest kept result; of several equally far, the last one.
    pub fn worst_item(&self) -> (r: ResultSet<usize, DistanceTypeAny>)
        requires
            is_total_order::<DistanceTypeAny>(),
            self.spec_items().len() > 0,
        ensures
            exists|j: int| is_last_farthest(self.spec_items(), j) && r == self.spec_items()[j],
    {
        let n = self.indices_dists.len();
        let mut best: usize = 0;
        let mut k: usize = 1;
        let ghost s = self.indices_dists@;
        while k < n
            invariant
                is_total_order::<DistanceTypeAny>(),
                s == self.indices_dists@,
                n == s.len(),
                1 <= k <= n,
                best < k,
                forall|m: int| 0 <= m < k ==> !greater(#[trigger] s[m].spec_distance(), s[best as int].spec_distance()),
                forall|m: int| best < m < k ==> greater(s[best as int].spec_distance(), #[trigger] s[m].spec_distance()),
            decreases n - k,
        {
            let cur = self.indices_dists[k].distance;
            let top = self.indices_dists[best].distance;
            if top > cur {
            } else {
                proof {
                    assert forall|m: int| 0 <= m < k implies !greater(#[trigger] s[m].spec_distance(), s[k as int].spec_distance()) by {
                        lemma_le_trans(s[m].spec_distance(), top, cur);
                    }
                    lemma_refl(cur);
                }
                best = k;
            }
            k = k + 1;
        }
        self.indices_dists[best]
    }

    /// Orders the results by ascending distance.
    pub fn sort(&mut self)
        requires
            is_total_order::<DistanceTypeAny>(),
        ensures
            final(self).spec_radius() == old(self).spec_radius(),
            final(self).spec_items().to_multiset() == old(self).spec_items().to_multiset(),
            sorted_by_dist(result_dists(final(self).spec_items())),
            exists|perm: Seq<int>| is_stable_order(old(self).spec_items(), final(self).spec_items(), perm),
    {
        proof {
            assert(is_stable_order(self.indices_dists@, self.indices_dists@, Seq::new(self.indices_dists@.len(), |k: int| k)));
        }
        let n = self.indices_dists.len();
        let ghost orig = self.indices_dists@;
        let ghost mut perm: Seq<int> = Seq::new(n as nat, |k: int| k);
        let mut i: usize = 0;
        while i < n
            invariant
                is_total_order::<DistanceTypeAny>(),
                n == self.indices_dists@.len(),
                0 <= i <= n,
                self.indices_dists@.to_multiset() == orig.to_multiset(),
                self.radius == old(self).radius,
                orig == old(self).spec_items(),
                is_stable_order(orig, self.indices_dists@, perm),
                forall|a: int, b: int|
                    0 <= a < b < i ==> !greater(
                        #[trigger] self.indices_dists@[a].distance,
                        #[trigger] self.indices_dists@[b].distance,
                    ),
            decreases n - i,
        {
            let mut j: usize = i;
            let ghost x = self.indices_dists@[i as int].distance;
            while j > 0 && self.indices_dists[j - 1].distance > self.indices_dists[j].distance
                invariant
                    is_total_order::<DistanceTypeAny>(),
                    n == self.indices_dists@.len(),
                    0 <= j <= i < n,
                    self.indices_dists@.to_multiset() == orig.to_multiset(),
                    self.radius == old(self).radius,
                    orig == old(self).spec_items(),
                    is_stable_order(orig, self.indices_dists@, perm),
                    self.indices_dists@[j as int].distance == x,
                    forall|a: int, b: int|
                        0 <= a < b <= i && a != j && b != j ==> !greater(
                            #[trigger] self.indices_dists@[a].distance,
                            #[trigger] self.indices_dists@[b].distance,
                        ),
                    forall|b: int| j < b <= i ==> greater(#[trigger] self.indices_dists@[b].distance, x),
                decreases j,
            {
                let ghost before = self.indices_dists@;
                let left = self.indices_dists[j - 1];
                let right = self.indices_dists[j];
                self.indices_dists.set(j - 1, right);
                self.indices_dists.set(j, left);
                proof {
                    lemma_swap_multiset(before, j - 1, j as int);
                    assert(self.indices_dists@ == before.update(j - 1, before[j as int]).update(j as int, before[j - 1]));
                    let np = perm.update(j - 1, perm[j as int]).update(j as int, perm[j - 1]);
                    lemma_swap_keeps_stable(orig, before, perm, j as int);
                    perm = np;
                }
                j = j - 1;
            }
            proof {
                let v = self.indices_dists@;
                assert forall|a: int, b: int| 0 <= a < b < i + 1 implies !greater(
                    #[trigger] v[a].distance,
                    #[trigger] v[b].distance,
                ) by {
                    if a == j as int {
                        lemma_asym(v[b].distance, x);
                    } else if b == j as int {
                        if a < j - 1 {
                            lemma_le_trans(v[a].distance, v[j - 1].distance, x);
                        }
                    }
                }
            }
            i = i + 1;
        }
        proof {
            let v = self.indices_dists@;
            let ds = result_dists(v);
            assert forall|a: int, b: int| 0 <= a < b < ds.len() implies !greater(#[trigger] ds[a], #[trigger] ds[b]) by {
                assert(ds[a] == v[a].distance && ds[b] == v[b].distance);
            }
        }
    }
}

impl<IndexTypeAny: Copy, DistanceTypeAny: PartialOrd + Copy> HasDistance for ResultSet<IndexTypeAny, DistanceTypeAny> {
    type DistanceTypeAny = DistanceTypeAny;

    open spec fn spec_distance_of(&self) -> DistanceTypeAny {
        self.distance
    }

    fn distance(&self) -> (r: DistanceTypeAny) {
        self.distance
    }
}

/// Copies a sequence of points.
fn copy_points<E: Copy>(src: &Vec<Vec<E>>) -> (r: Vec<Vec<E>>)
    ensures
        r@.len() == src@.len(),
        forall|i: int| 0 <= i < r@.len() ==> #[trigger] r@[i]@ == src@[i]@,
{
    let mut r: Vec<Vec<E>> = Vec::new();
    let mut i: usize = 0;
    while i < src.len()
        invariant
            0 <= i <= src@.len(),
            r@.len() == i,
            forall|k: int| 0 <= k < i ==> #[trigger] r@[k]@ == src@[k]@,
        decreases src@.len() - i,
    {
        r.push(copy_point(&src[i]));
        i = i + 1;
    }
    r
}

/// Copies one point.
fn copy_point<E: Copy>(src: &Vec<E>) -> (r: Vec<E>)
    ensures
        r@ == src@,
{
    let mut r: Vec<E> = Vec::new();
    let mut i: usize = 0;
    while i < src.len()
        invariant
            0 <= i <= src@.len(),
            r@ == src@.take(i as int),
        decreases src@.len() - i,
    {
        r.push(src[i]);
        i = i + 1;
        proof {
            assert(r@ =~= src@.take(i as int));
        }
    }
    assert(src@.take(src@.len() as int) =~= src@);
    r
}

/// Points together with one distance per point.
#[derive(Debug, Clone, PartialEq)]
pub struct SuperSet<ElementTypeAny, DistanceTypeAny> {
    data_vec: Vec<Vec<ElementTypeAny>>,
    distance_vec: Vec<DistanceTypeAny>,
}

impl<ElementTypeAny: Copy, DistanceTypeAny: Copy> SuperSet<ElementTypeAny, DistanceTypeAny> {
    pub closed spec fn spec_data(&self) -> Seq<Seq<ElementTypeAny>> {
        self.data_vec@.map_values(|p: Vec<ElementTypeAny>| p@)
    }

    pub closed spec fn spec_distances(&self) -> Seq<DistanceTypeAny> {
        self.distance_vec@
    }

    pub fn new(data_vec: Vec<Vec<ElementTypeAny>>, distance_vec: Vec<DistanceTypeAny>) -> (r: Self)
        ensures
            r.spec_data() == data_vec@.map_values(|p: Vec<ElementTypeAny>| p@),
            r.spec_distances() == distance_vec@,
    {
        SuperSet { data_vec, distance_vec }
    }

    /// The distance stored for point `idx`.
    pub fn distance(&self, idx: usize) -> (r: DistanceTypeAny)
        requires
            idx < self.spec_distances().len(),
        ensures
            r == self.spec_distances()[idx as int],
    {
        self.distance_vec[idx]
    }

    /// The number of points.
    pub fn data_len(&self) -> (r: usize)
        ensures
            r == self.spec_data().len(),
    {
        self.data_vec.len()
    }

    /// The number of coordinates of point `idx`.
    pub fn point_len(&self, idx: usize) -> (r: usize)
        requires
            idx < self.spec_data().len(),
        ensures
            r == self.spec_data()[idx as int].len(),
    {
        self.data_vec[idx].len()
    }

    /// A copy of all stored distances.
    pub fn distance_vec(&self) -> (r: Vec<DistanceTypeAny>)
        ensures
            r@ == self.spec_distances(),
    {
        copy_point(&self.distance_vec)
    }
}

impl<ElementTypeAny: Copy, DistanceTypeAny: Copy> HasPointData for SuperSet<ElementTypeAny, DistanceTypeAny> {
    type ElementTypeAny = ElementTypeAny;

    open spec fn spec_points(&self) -> Seq<Seq<ElementTypeAny>> {
        self.spec_data()
    }

    fn get_point_dim(&self, idx: usize, dim: usize) -> (r: ElementTypeAny) {
        self.data_vec[idx][dim]
    }

    fn get_point(&self, idx: usize) -> (r: Vec<ElementTypeAny>) {
        copy_point(&self.data_vec[idx])
    }

    fn get_point_vec(&self) -> (r: Vec<Vec<ElementTypeAny>>) {
        copy_points(&self.data_vec)
    }
}

/// Raw points of a data set.
#[derive(Debug, Clone, PartialEq)]
pub struct DataSet<ElementTypeAny> {
    data_vec: Vec<Vec<ElementTypeAny>>,
}

impl<ElementTypeAny: Copy> DataSet<ElementTypeAny> {
    pub closed spec fn spec_data(&self) -> Seq<Seq<ElementTypeAny>> {
        self.data_vec@.map_values(|p: Vec<ElementTypeAny>| p@)
    }

    pub fn new(data_vec: Vec<Vec<ElementTypeAny>>) -> (r: Self)
        ensures
            r.spec_data() == data_vec@.map_values(|p: Vec<ElementTypeAny>| p@),
    {
        DataSet { data_vec }
    }
}

impl<ElementTypeAny: Copy> HasPointData for DataSet<ElementTypeAny> {
    type ElementTypeAny = ElementTypeAny;

    open spec fn spec_points(&self) -> Seq<Seq<ElementTypeAny>> {
        self.spec_data()
    }

    fn get_point_dim(&self, idx: usize, dim: usize) -> (r: ElementTypeAny) {
        self.data_vec[idx][dim]
    }

    fn get_point(&self, idx: usize) -> (r: Vec<ElementTypeAny>) {
        copy_point(&self.data_vec[idx])
    }

    fn get_point_vec(&self) -> (r: Vec<Vec<ElementTypeAny>>) {
        copy_points(&self.data_vec)
    }
}

/// Two distances are equally far: neither is greater.
pub open spec fn same_dist<D: PartialOrd>(a: D, b: D) -> bool {
    !greater(a, b) && !greater(b, a)
}

/// `new` holds the results of `old` rearranged by `perm` (`new[k]` is
/// `old[perm[k]]`, each taken once), and results at the same distance keep
/// their order.
pub open spec fn is_stable_order<D: PartialOrd + Copy>(
    old: Seq<ResultSet<usize, D>>,
    new: Seq<ResultSet<usize, D>>,
    perm: Seq<int>,
) -> bool {
    &&& perm.len() == new.len() == old.len()
    &&& forall|k: int| 0 <= k < perm.len() ==> 0 <= #[trigger] perm[k] < old.len() && new[k] == old[perm[k]]
    &&& forall|a: int, b: int| 0 <= a < b < perm.len() ==> #[trigger] perm[a] != #[trigger] perm[b]
    &&& forall|a: int, b: int|
        0 <= a < b < perm.len() && same_dist(#[trigger] new[a].distance, #[trigger] new[b].distance) ==> perm[a] < perm[b]
}

/// Exchanging two neighbours that are out of order keeps a stable
/// rearrangement stable.
pub proof fn lemma_swap_keeps_stable<D: PartialOrd + Copy>(
    orig: Seq<ResultSet<usize, D>>,
    cur: Seq<ResultSet<usize, D>>,
    perm: Seq<int>,
    j: int,
)
    requires
        is_total_order::<D>(),
        is_stable_order(orig, cur, perm),
        1 <= j < cur.len(),
        greater(cur[j - 1].distance, cur[j].distance),
    ensures
        is_stable_order(
            orig,
            cur.update(j - 1, cur[j]).update(j, cur[j - 1]),
            perm.update(j - 1, perm[j]).update(j, perm[j - 1]),
        ),
{
    let new = cur.update(j - 1, cur[j]).update(j, cur[j - 1]);
    let np = perm.update(j - 1, perm[j]).update(j, perm[j - 1]);
    let src = |k: int| if k == j - 1 { j } else if k == j { j - 1 } else { k };
    assert forall|k: int| 0 <= k < np.len() implies 0 <= #[trigger] np[k] < orig.len() && new[k] == orig[np[k]] by {
        assert(np[k] == perm[src(k)] && new[k] == cur[src(k)]);
    }
    assert forall|a: int, b: int| 0 <= a < b < np.len() implies #[trigger] np[a] != #[trigger] np[b] by {
        assert(np[a] == perm[src(a)] && np[b] == perm[src(b)]);
        assert(src(a) != src(b));
        if src(a) < src(b) {
            assert(perm[src(a)] != perm[src(b)]);
        } else {
            assert(perm[src(b)] != perm[src(a)]);
        }
    }
    assert forall|a: int, b: int|
        0 <= a < b < np.len() && same_dist(#[trigger] new[a].distance, #[trigger] new[b].distance) implies np[a] < np[b] by {
        assert(np[a] == perm[src(a)] && np[b] == perm[src(b)]);
        assert(new[a] == cur[src(a)] && new[b] == cur[src(b)]);
        if a == j - 1 && b == j {
            lemma_asym(cur[j - 1].distance, cur[j].distance);
        } else {
            assert(src(a) < src(b));
        }
    }
}

/// Exchanging two elements keeps the multiset of a sequence.
pub proof fn lemma_swap_multiset<A>(s: Seq<A>, i: int, j: int)
    requires
        0 <= i < s.len(),
        0 <= j < s.len(),
    ensures
        s.update(i, s[j]).update(j, s[i]).to_multiset() == s.to_multiset(),
{
    broadcast use vstd::multiset::group_multiset_axioms;
    let t = s.update(i, s[j]);
    assert(t.len() == s.len());
    vstd::seq_lib::to_multiset_update(s, i, s[j]);
    vstd::seq_lib::to_multiset_update(t, j, s[i]);
    if i == j {
        assert(t.update(j, s[i]) =~= s);
    } else {
        assert(t[j] == s[j]);
        let m = s.to_multiset();
        s.to_multiset_ensures();
        assert(s.contains(s[i]));
        assert(m.count(s[i]) > 0);
        let m1 = m.insert(s[j]).remove(s[i]);
        let m2 = m1.insert(s[i]).remove(s[j]);
        assert(m2 =~= m);
    }
}

/// Offering a candidate to a sorted result of at most `capacity` items keeps
/// it sorted, and nothing that falls out is closer than anything kept: the
/// result holds the closest of what it held and the new candidate.
pub proof fn lemma_knn_keeps_closest<D: PartialOrd>(s: Seq<D>, d: D, capacity: nat)
    requires
        is_total_order::<D>(),
        sorted_by_dist(s),
        s.len() <= capacity,
    ensures
        ({
            let t = s.insert(insert_pos(s, d) as int, d);
            let n = count_after_add(s.len(), capacity) as int;
            &&& sorted_by_dist(t.take(n))
            &&& t.take(n).len() == n
            &&& forall|j: int, k: int| 0 <= j < n <= k < t.len() ==> !greater(#[trigger] t[j], #[trigger] t[k])
        }),
{
    lemma_insert_pos(s, d);
    lemma_insert_sorted(s, d);
    let t = s.insert(insert_pos(s, d) as int, d);
    let n = count_after_add(s.len(), capacity) as int;
    lemma_take_sorted(t, n);
}

} // verus!

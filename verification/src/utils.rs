//! Helpers shared by the result sets and the metrics: the largest value of a
//! distance type, container sizing, and the sorter of result items.
use vstd::prelude::*;
use vstd::std_specs::cmp::PartialOrdSpec;
use crate::order::less;

verus! {

/// A distance type with a greatest value, used as "no candidate yet".
pub trait MaxValue: Sized {
    spec fn spec_max_value() -> Self;

    fn max_value() -> (r: Self)
        ensures
            r == Self::spec_max_value(),
    ;
}

impl MaxValue for i32 {
    open spec fn spec_max_value() -> i32 {
        i32::MAX
    }

    fn max_value() -> (r: i32) {
        i32::MAX
    }
}

impl MaxValue for i64 {
    open spec fn spec_max_value() -> i64 {
        i64::MAX
    }

    fn max_value() -> (r: i64) {
        i64::MAX
    }
}

impl MaxValue for u32 {
    open spec fn spec_max_value() -> u32 {
        u32::MAX
    }

    fn max_value() -> (r: u32) {
        u32::MAX
    }
}

impl MaxValue for u64 {
    open spec fn spec_max_value() -> u64 {
        u64::MAX
    }

    fn max_value() -> (r: u64) {
        u64::MAX
    }
}

impl MaxValue for usize {
    open spec fn spec_max_value() -> usize {
        usize::MAX
    }

    fn max_value() -> (r: usize) {
        usize::MAX
    }
}

/// A data source whose points can be read coordinate by coordinate.
pub trait HasPointData {
    type ElementTypeAny;

    /// The points of the source, each a sequence of coordinates.
    spec fn spec_points(&self) -> Seq<Seq<Self::ElementTypeAny>>;

    /// Coordinate `dim` of point `idx`.
    fn get_point_dim(&self, idx: usize, dim: usize) -> (r: Self::ElementTypeAny)
        requires
            idx < self.spec_points().len(),
            dim < self.spec_points()[idx as int].len(),
        ensures
            r == self.spec_points()[idx as int][dim as int],
    ;

    /// A copy of point `idx`.
    fn get_point(&self, idx: usize) -> (r: Vec<Self::ElementTypeAny>)
        requires
            idx < self.spec_points().len(),
        ensures
            r@ == self.spec_points()[idx as int],
    ;

    /// A copy of all points.
    fn get_point_vec(&self) -> (r: Vec<Vec<Self::ElementTypeAny>>)
        ensures
            r@.len() == self.spec_points().len(),
            forall|i: int| 0 <= i < r@.len() ==> #[trigger] r@[i]@ == self.spec_points()[i],
    ;
}

/// Something that has a distance, such as a search result.
pub trait HasDistance {
    type DistanceTypeAny: PartialOrd + Copy;

    spec fn spec_distance_of(&self) -> Self::DistanceTypeAny;

    fn distance(&self) -> (r: Self::DistanceTypeAny)
        ensures
            r == self.spec_distance_of(),
    ;
}

/// Orders results by distance.
pub struct IndexDistSorter;

impl IndexDistSorter {
    /// Whether `p1` is closer than `p2`.
    pub fn compare<PairType: HasDistance>(p1: &PairType, p2: &PairType) -> (r: bool)
        requires
            PairType::DistanceTypeAny::obeys_partial_cmp_spec(),
        ensures
            r <==> less(p1.spec_distance_of(), p2.spec_distance_of()),
    {
        p1.distance() < p2.distance()
    }
}

/// A container whose number of elements can be changed.
pub trait HasResize: Sized {
    /// `self` is `old` resized to `n` elements.
    spec fn spec_resized(&self, old: Self, n: nat) -> bool;

    fn resize(&mut self, n: usize)
        ensures
            final(self).spec_resized(*old(self), n as nat),
    ;
}

impl<T: Default> HasResize for Vec<T> {
    /// The first `n` old elements stay, and new ones are default values.
    open spec fn spec_resized(&self, old: Vec<T>, n: nat) -> bool {
        &&& self@.len() == n
        &&& forall|i: int| 0 <= i < n && i < old@.len() ==> #[trigger] self@[i] == old@[i]
        &&& forall|i: int| old@.len() <= i < n ==> call_ensures(T::default, (), #[trigger] self@[i])
    }

    fn resize(&mut self, n: usize) {
        let ghost start = self@;
        while self.len() > n
            invariant
                self@.len() <= start.len(),
                self@.len() >= n || self@.len() == start.len(),
                forall|i: int| 0 <= i < self@.len() ==> #[trigger] self@[i] == start[i],
            decreases self@.len(),
        {
            self.pop();
        }
        while self.len() < n
            invariant
                self@.len() <= n,
                self@.len() < start.len() ==> self@.len() == n,
                forall|i: int| 0 <= i < self@.len() && i < start.len() ==> #[trigger] self@[i] == start[i],
                forall|i: int| start.len() <= i < self@.len() ==> call_ensures(T::default, (), #[trigger] self@[i]),
            decreases n - self@.len(),
        {
            self.push(T::default());
        }
    }
}

/// A container that can be filled with copies of a value.
pub trait HasAssign<T>: Sized {
    /// `self` holds `n` copies of `value`.
    spec fn spec_assigned(&self, n: nat, value: T) -> bool;

    fn assign(&mut self, n: usize, value: T)
        ensures
            final(self).spec_assigned(n as nat, value),
    ;
}

impl<T: Clone> HasAssign<T> for Vec<T> {
    /// `n` elements, each a clone of `value`; the last one is `value` itself.
    open spec fn spec_assigned(&self, n: nat, value: T) -> bool {
        &&& self@.len() == n
        &&& forall|i: int| 0 <= i < n - 1 ==> cloned::<T>(value, #[trigger] self@[i])
        &&& n > 0 ==> self@[n - 1] == value
    }

    fn assign(&mut self, n: usize, value: T) {
        self.clear();
        if n == 0 {
            return;
        }
        while self.len() < n - 1
            invariant
                n > 0,
                self@.len() <= n - 1,
                forall|i: int| 0 <= i < self@.len() ==> cloned::<T>(value, #[trigger] self@[i]),
            decreases n - 1 - self@.len(),
        {
            self.push(value.clone());
        }
        self.push(value);
    }
}

/// A container that knows its number of elements.
pub trait HasSize {
    spec fn spec_size(&self) -> nat;

    fn size(&self) -> (r: usize)
        ensures
            r == self.spec_size(),
    ;
}

impl<T> HasSize for Vec<T> {
    open spec fn spec_size(&self) -> nat {
        self@.len()
    }

    fn size(&self) -> (r: usize) {
        self.len()
    }
}

impl<T, const N: usize> HasSize for [T; N] {
    open spec fn spec_size(&self) -> nat {
        N as nat
    }

    fn size(&self) -> (r: usize) {
        N
    }
}

/// Resizes a resizable container to `n_elements`.
pub fn resize<Container: HasResize>(c: &mut Container, n_elements: usize)
    ensures
        final(c).spec_resized(*old(c), n_elements as nat),
{
    c.resize(n_elements);
}

/// "Resizes" a fixed-size container: only its own size is allowed, and the
/// container stays as it is.
pub fn resize_fixed<Container: HasSize>(c: &mut Container, n_elements: usize)
    requires
        n_elements == old(c).spec_size(),
    ensures
        *final(c) == *old(c),
{
}

/// Fills a container with `n_elements` copies of `value`.
pub fn assign<Container: HasAssign<T>, T>(c: &mut Container, n_elements: usize, value: T)
    ensures
        final(c).spec_assigned(n_elements as nat, value),
{
    c.assign(n_elements, value);
}

/// Sets the first `n_elements` slots of a fixed-size container to `value`.
pub fn assign_fixed<T: Copy>(c: &mut [T], n_elements: usize, value: T)
    requires
        n_elements <= old(c)@.len(),
    ensures
        final(c)@.len() == old(c)@.len(),
        forall|i: int| 0 <= i < n_elements ==> #[trigger] final(c)@[i] == value,
        forall|i: int| n_elements <= i < old(c)@.len() ==> #[trigger] final(c)@[i] == old(c)@[i],
{
    let ghost start = c@;
    let mut i: usize = 0;
    while i < n_elements
        invariant
            n_elements <= start.len(),
            c@.len() == start.len(),
            0 <= i <= n_elements,
            forall|k: int| 0 <= k < i ==> #[trigger] c@[k] == value,
            forall|k: int| i <= k < start.len() ==> #[trigger] c@[k] == start[k],
        decreases n_elements - i,
    {
        c[i] = value;
        i = i + 1;
    }
}

/// The absolute value.
pub trait Abs: Sized {
    /// The value has an absolute value of its own type.
    spec fn abs_requires(&self) -> bool;

    spec fn spec_abs(&self) -> Self;

    fn abs(&self) -> (r: Self)
        requires
            self.abs_requires(),
        ensures
            r == self.spec_abs(),
    ;
}

impl Abs for i32 {
    /// Every value but `i32::MIN` has an absolute value of the same type.
    open spec fn abs_requires(&self) -> bool {
        *self != i32::MIN
    }

    open spec fn spec_abs(&self) -> i32 {
        if *self >= 0 {
            *self
        } else {
            (-*self) as i32
        }
    }

    fn abs(&self) -> (r: i32) {
        if *self >= 0 {
            *self
        } else {
            -*self
        }
    }
}

impl Abs for i64 {
    /// Every value but `i64::MIN` has an absolute value of the same type.
    open spec fn abs_requires(&self) -> bool {
        *self != i64::MIN
    }

    open spec fn spec_abs(&self) -> i64 {
        if *self >= 0 {
            *self
        } else {
            (-*self) as i64
        }
    }

    fn abs(&self) -> (r: i64) {
        if *self >= 0 {
            *self
        } else {
            -*self
        }
    }
}

} // verus!

//! The building blocks of a kd-tree: nodes, bounding intervals, and a
//! vector that may be given a fixed size.
use vstd::prelude::*;
use core::marker::PhantomData;

verus! {

/// What a tree node holds: a range of the index list (leaf), or the
/// dimension it splits on and the lowest and highest coordinate of its points
/// along that dimension (inner node).
#[derive(Debug, Clone, PartialEq, Eq, Structural)]
pub enum NodeType {
    Leaf { left: usize, right: usize },
    NonLeaf { divfeat: i32, divlow: i32, divhigh: i32 },
}

/// A kd-tree node and its two optional children.
#[derive(Debug)]
pub struct Node {
    pub node_type: NodeType,
    pub child1: Option<Box<Node>>,
    pub child2: Option<Box<Node>>,
}

/// A closed range of coordinates along one dimension.
#[derive(Debug, Clone, Copy, PartialEq, Eq, Structural)]
pub struct Interval {
    pub low: i32,
    pub high: i32,
}

/// A vector that holds at most `DIM` elements when `DIM > 0`, and any number
/// of elements when `DIM == 0`.
pub struct ArrayOrVector<const DIM: usize, T> {
    data: Vec<T>,
    _phantom: PhantomData<T>,
}

impl<const DIM: usize, T> ArrayOrVector<DIM, T> {
    /// The elements held.
    pub closed spec fn spec_elems(&self) -> Seq<T> {
        self.data@
    }

    /// An empty vector.
    pub fn new() -> (r: Self)
        ensures
            r.spec_elems() == Seq::<T>::empty(),
    {
        let initial_capacity = if DIM > 0 {
            DIM
        } else {
            0
        };
        ArrayOrVector { data: Vec::with_capacity(initial_capacity), _phantom: PhantomData }
    }

    /// The elements as a vector.
    pub fn as_vec(&self) -> (r: &Vec<T>)
        ensures
            r@ == self.spec_elems(),
    {
        &self.data
    }

    /// The elements as a mutable vector.
    pub fn as_mut_vec(&mut self) -> (r: &mut Vec<T>)
        ensures
            r@ == old(self).spec_elems(),
            final(self).spec_elems() == final(r)@,
    {
        &mut self.data
    }

    /// Appends `value`; a fixed-size vector must not be full.
    pub fn push(&mut self, value: T)
        requires
            DIM == 0 || old(self).spec_elems().len() < DIM,
        ensures
            final(self).spec_elems() == old(self).spec_elems().push(value),
    {
        self.data.push(value);
    }

    pub fn len(&self) -> (r: usize)
        ensures
            r == self.spec_elems().len(),
    {
        self.data.len()
    }

    pub fn is_empty(&self) -> (r: bool)
        ensures
            r <==> self.spec_elems().len() == 0,
    {
        self.data.len() == 0
    }
}

} // verus!

use vstd::prelude::*;

verus! {

/// Flags that steer how a single-index kd-tree adaptor is built.
#[derive(Debug, Clone, Copy, PartialEq, Eq, Structural)]
pub enum KDTreeSingleIndexAdaptorFlags {
    NoFlags,
    SkipInitialBuildIndex,
}

impl KDTreeSingleIndexAdaptorFlags {
    /// The numeric value of a flag: `NoFlags` is 0, `SkipInitialBuildIndex` is 1.
    pub open spec fn spec_bits(self) -> u32 {
        match self {
            KDTreeSingleIndexAdaptorFlags::NoFlags => 0,
            KDTreeSingleIndexAdaptorFlags::SkipInitialBuildIndex => 1,
        }
    }

    /// The numeric value of a flag.
    pub fn bits(self) -> (r: u32)
        ensures
            r == self.spec_bits(),
    {
        match self {
            KDTreeSingleIndexAdaptorFlags::NoFlags => 0,
            KDTreeSingleIndexAdaptorFlags::SkipInitialBuildIndex => 1,
        }
    }
}

impl vstd::std_specs::ops::BitAndSpecImpl for KDTreeSingleIndexAdaptorFlags {
    open spec fn obeys_bitand_spec() -> bool {
        true
    }

    open spec fn bitand_req(self, rhs: Self) -> bool {
        true
    }

    open spec fn bitand_spec(self, rhs: Self) -> u32 {
        self.spec_bits() & rhs.spec_bits()
    }
}

/// `a & b` is the bitwise and of the two flags' numeric values.
impl core::ops::BitAnd for KDTreeSingleIndexAdaptorFlags {
    type Output = u32;

    fn bitand(self, rhs: Self) -> (r: u32)
        ensures
            r == self.spec_bits() & rhs.spec_bits(),
    {
        self.bits() & rhs.bits()
    }
}

/// How a single-index kd-tree is built.
#[derive(Debug, Clone)]
pub struct KDTreeSingleIndexAdaptorParams {
    /// The largest number of points in a leaf.
    pub leaf_max_size: usize,
    pub flags: KDTreeSingleIndexAdaptorFlags,
    /// The number of threads used to build the tree.
    pub n_thread_build: usize,
}

impl KDTreeSingleIndexAdaptorParams {
    pub fn new(leaf_max_size: usize, flags: KDTreeSingleIndexAdaptorFlags, n_thread_build: usize) -> (r: Self)
        ensures
            r.leaf_max_size == leaf_max_size,
            r.flags == flags,
            r.n_thread_build == n_thread_build,
    {
        KDTreeSingleIndexAdaptorParams { leaf_max_size, flags, n_thread_build }
    }
}

} // verus!

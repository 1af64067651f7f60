//! Point clouds that a kd-tree can index: points in three dimensions,
//! rotations as quaternions, and orientations as angles.
use vstd::prelude::*;
use rand::Rng;
use crate::utils::HasPointData;

verus! {

/// A point in three dimensions.
#[derive(Clone, Copy)]
pub struct Point<T> {
    pub x: T,
    pub y: T,
    pub z: T,
}

/// The coordinates of a point, in the order x, y, z.
pub open spec fn point_coords<T>(p: Point<T>) -> Seq<T> {
    seq![p.x, p.y, p.z]
}

/// A cloud of points in three dimensions.
#[derive(Clone)]
pub struct PointCloud<T> {
    pub pts: Vec<Point<T>>,
}

impl<T> PointCloud<T> {
    pub fn kdtree_get_point_count(&self) -> (r: usize)
        ensures
            r == self.pts@.len(),
    {
        self.pts.len()
    }

    /// Coordinate `dim` (0 for x, 1 for y, 2 for z) of point `idx`.
    pub fn kdtree_get_pt(&self, idx: usize, dim: usize) -> (r: &T)
        requires
            idx < self.pts@.len(),
            dim < 3,
        ensures
            *r == point_coords(self.pts@[idx as int])[dim as int],
    {
        let p = &self.pts[idx];
        if dim == 0 {
            &p.x
        } else if dim == 1 {
            &p.y
        } else {
            &p.z
        }
    }

    /// The cloud computes no bounding box of its own.
    pub fn kdtree_get_bbox<BBOX>(&self, _bb: &mut BBOX) -> (r: bool)
        ensures
            !r,
            *final(_bb) == *old(_bb),
    {
        false
    }
}

impl<T: Copy> HasPointData for PointCloud<T> {
    type ElementTypeAny = T;

    open spec fn spec_points(&self) -> Seq<Seq<T>> {
        self.pts@.map_values(|p: Point<T>| point_coords(p))
    }

    fn get_point_dim(&self, idx: usize, dim: usize) -> (r: T) {
        *self.kdtree_get_pt(idx, dim)
    }

    fn get_point(&self, idx: usize) -> (r: Vec<T>) {
        let p = self.pts[idx];
        let mut v: Vec<T> = Vec::new();
        v.push(p.x);
        v.push(p.y);
        v.push(p.z);
        assert(v@ =~= point_coords(p));
        v
    }

    fn get_point_vec(&self) -> (r: Vec<Vec<T>>) {
        let mut r: Vec<Vec<T>> = Vec::new();
        let mut i: usize = 0;
        while i < self.pts.len()
            invariant
                0 <= i <= self.pts@.len(),
                r@.len() == i,
                forall|k: int| 0 <= k < i ==> #[trigger] r@[k]@ == self.spec_points()[k],
            decreases self.pts@.len() - i,
        {
            r.push(self.get_point(i));
            i = i + 1;
        }
        r
    }
}

/// Calls `rand::thread_rng().gen_range(low..high)`, which draws a value from
/// `low..high` with the thread's random generator and panics when the range
/// is empty. Which value comes out is chance; `thread_rng` also panics when
/// the system gives no seed, which nothing here can rule out.
#[verifier::external_body]
fn random_in_range(low: i32, high: i32) -> (r: i32)
    requires
        low < high,
    ensures
        low <= r < high,
{
    rand::thread_rng().gen_range(low..high)
}

/// Fills the cloud with `n` random points with coordinates in
/// `0..max_range_x`, `0..max_range_y` and `0..max_range_z`.
pub fn generate_random_point_cloud_ranges(
    pc: &mut PointCloud<i32>,
    n: usize,
    max_range_x: i32,
    max_range_y: i32,
    max_range_z: i32,
)
    requires
        n > 0 ==> max_range_x > 0 && max_range_y > 0 && max_range_z > 0,
    ensures
        final(pc).pts@.len() == n,
        forall|i: int|
            0 <= i < n ==> {
                &&& 0 <= #[trigger] final(pc).pts@[i].x < max_range_x
                &&& 0 <= final(pc).pts@[i].y < max_range_y
                &&& 0 <= final(pc).pts@[i].z < max_range_z
            },
{
    let mut pts: Vec<Point<i32>> = Vec::new();
    let mut i: usize = 0;
    while i < n
        invariant
            n > 0 ==> max_range_x > 0 && max_range_y > 0 && max_range_z > 0,
            0 <= i <= n,
            pts@.len() == i,
            forall|k: int|
                0 <= k < i ==> {
                    &&& 0 <= #[trigger] pts@[k].x < max_range_x
                    &&& 0 <= pts@[k].y < max_range_y
                    &&& 0 <= pts@[k].z < max_range_z
                },
        decreases n - i,
    {
        let x = random_in_range(0, max_range_x);
        let y = random_in_range(0, max_range_y);
        let z = random_in_range(0, max_range_z);
        pts.push(Point { x, y, z });
        i = i + 1;
    }
    pc.pts = pts;
}

/// Fills the cloud with `n` random points with coordinates in `0..max_range`.
pub fn generate_random_point_cloud(pc: &mut PointCloud<i32>, n: usize, max_range: i32)
    requires
        n > 0 ==> max_range > 0,
    ensures
        final(pc).pts@.len() == n,
        forall|i: int|
            0 <= i < n ==> {
                &&& 0 <= #[trigger] final(pc).pts@[i].x < max_range
                &&& 0 <= final(pc).pts@[i].y < max_range
                &&& 0 <= final(pc).pts@[i].z < max_range
            },
{
    generate_random_point_cloud_ranges(pc, n, max_range, max_range, max_range);
}

/// A rotation as a quaternion `w + xi + yj + zk`.
#[derive(Clone, Copy)]
pub struct PointQuat<T> {
    pub w: T,
    pub x: T,
    pub y: T,
    pub z: T,
}

/// The coordinates of a quaternion, in the order w, x, y, z.
pub open spec fn quat_coords<T>(p: PointQuat<T>) -> Seq<T> {
    seq![p.w, p.x, p.y, p.z]
}

/// A cloud of rotations.
#[derive(Clone)]
pub struct PointCloudQuat<T> {
    pub pts: Vec<PointQuat<T>>,
}

impl<T> PointCloudQuat<T> {
    pub fn kdtree_get_point_count(&self) -> (r: usize)
        ensures
            r == self.pts@.len(),
    {
        self.pts.len()
    }

    /// Coordinate `dim` (0 for w, 1 for x, 2 for y, 3 for z) of point `idx`.
    pub fn kdtree_get_pt(&self, idx: usize, dim: usize) -> (r: &T)
        requires
            idx < self.pts@.len(),
            dim < 4,
        ensures
            *r == quat_coords(self.pts@[idx as int])[dim as int],
    {
        let p = &self.pts[idx];
        if dim == 0 {
            &p.w
        } else if dim == 1 {
            &p.x
        } else if dim == 2 {
            &p.y
        } else {
            &p.z
        }
    }

    /// The cloud computes no bounding box of its own.
    pub fn kdtree_get_bbox<BBOX>(&self, _bb: &mut BBOX) -> (r: bool)
        ensures
            !r,
            *final(_bb) == *old(_bb),
    {
        false
    }
}

/// An orientation in the plane, as an angle.
#[derive(Clone, Copy)]
pub struct PointOrient<T> {
    pub theta: T,
}

/// A cloud of orientations.
#[derive(Clone)]
pub struct PointCloudOrient<T> {
    pub pts: Vec<PointOrient<T>>,
}

impl<T> PointCloudOrient<T> {
    pub fn kdtree_get_point_count(&self) -> (r: usize)
        ensures
            r == self.pts@.len(),
    {
        self.pts.len()
    }

    /// The angle of point `idx`; an orientation has one dimension only.
    pub fn kdtree_get_pt(&self, idx: usize, _dim: usize) -> (r: &T)
        requires
            idx < self.pts@.len(),
        ensures
            *r == self.pts@[idx as int].theta,
    {
        &self.pts[idx].theta
    }

    /// The cloud computes no bounding box of its own.
    pub fn kdtree_get_bbox<BBOX>(&self, _bb: &mut BBOX) -> (r: bool)
        ensures
            !r,
            *final(_bb) == *old(_bb),
    {
        false
    }
}

} // verus!

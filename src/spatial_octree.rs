use vstd::prelude::*;

use crate::coord::IVec3;
use crate::sparse_spatial_octree::child_index_of;

verus! {

/// A node of a dense octree bounded by depth.
pub struct SpatialOctreeNode {
    is_leaf: bool,
    depth: u32,
    center: IVec3,
    half_size: i32,
}

impl Default for SpatialOctreeNode {
    fn default() -> (r: Self)
        ensures
            r.spec_center()@ == (0int, 0int, 0int),
            r.spec_half_size() == 0,
    {
        SpatialOctreeNode { is_leaf: false, depth: 0, center: IVec3::zero(), half_size: 0 }
    }
}

impl SpatialOctreeNode {
    pub closed spec fn spec_center(&self) -> IVec3 {
        self.center
    }

    pub closed spec fn spec_half_size(&self) -> int {
        self.half_size as int
    }

    fn center(self, center: IVec3) -> (r: Self)
        ensures
            r.center == center,
            r.half_size == self.half_size,
    {
        SpatialOctreeNode { center, ..self }
    }

    fn half_size(self, half_size: i32) -> (r: Self)
        ensures
            r.center == self.center,
            r.half_size == half_size,
    {
        SpatialOctreeNode { half_size, ..self }
    }
}

/// An octree of bounded depth over a cube; it records no points yet.
pub struct SpatialOctree {
    max_depth: u32,
    root: SpatialOctreeNode,
}

impl SpatialOctree {
    pub closed spec fn spec_max_depth(&self) -> int {
        self.max_depth as int
    }

    pub closed spec fn spec_root(&self) -> SpatialOctreeNode {
        self.root
    }

    pub fn new(max_depth: u32, center: IVec3, half_size: i32) -> (r: Self)
        ensures
            r.spec_max_depth() == max_depth,
            r.spec_root().spec_center() == center,
            r.spec_root().spec_half_size() == half_size,
    {
        let root = SpatialOctreeNode::default().center(center).half_size(half_size);
        SpatialOctree { max_depth, root }
    }

    /// Records nothing: the tree keeps no points.
    pub fn add(&mut self, x: i32, y: i32)
        ensures
            *final(self) == *old(self),
    {
    }

    fn get_child_index(pos: IVec3, center: IVec3) -> (r: usize)
        ensures
            r == child_index_of(pos@, center@),
    {
        let mut index: usize = 0;
        if center.x < pos.x {
            index = index + 1;
        }
        if center.y < pos.y {
            index = index + 2;
        }
        if center.z < pos.z {
            index = index + 4;
        }
        index
    }
}

} // verus!

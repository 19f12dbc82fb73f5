use vstd::prelude::*;

use crate::coord::{offset, IVec3};

verus! {

/// The largest radius a tree may be built with.
pub const MAX_RADIUS: i32 = 512;

pub open spec fn sq(a: int) -> int {
    a * a
}

/// Whether `p` lies in the sphere of `radius` around the origin, measuring
/// from the centre of the voxel at `p`, which lies half a unit below `p` on
/// each axis. Both sides are scaled by four so the test stays in integers:
/// `(x - 1/2)^2 + (y - 1/2)^2 + (z - 1/2)^2 <= radius^2`.
pub open spec fn in_sphere(radius: int, p: (int, int, int)) -> bool {
    sq(2 * p.0 - 1) + sq(2 * p.1 - 1) + sq(2 * p.2 - 1) <= 4 * sq(radius)
}

/// All points of the sphere of `radius`.
pub open spec fn sphere_points(radius: int) -> Set<(int, int, int)> {
    Set::new(|p: (int, int, int)| in_sphere(radius, p))
}

pub open spec fn is_pow2(n: int) -> bool
    decreases n,
{
    if n <= 1 {
        n == 1
    } else {
        n % 2 == 0 && is_pow2(n / 2)
    }
}

/// A radius that a tree can be built with: a power of two up to `MAX_RADIUS`.
pub open spec fn valid_radius(radius: int) -> bool {
    1 <= radius <= MAX_RADIUS && is_pow2(radius)
}

/// The octant of `p` around `c`: bit 0 is set when `p` lies above `c` on x,
/// bit 1 on y, bit 2 on z. A point level with `c` on an axis counts as below.
pub open spec fn child_index_of(p: (int, int, int), c: (int, int, int)) -> int {
    (if p.0 > c.0 { 1int } else { 0int }) + (if p.1 > c.1 { 2int } else { 0int }) + (if p.2
        > c.2 {
        4int
    } else {
        0int
    })
}

/// `+offset` when `bit` is set, else `-offset`.
pub open spec fn signed(bit: bool, offset: int) -> int {
    if bit {
        offset
    } else {
        -offset
    }
}

/// The centre of child `i` of a node with centre `c` and half extent `h`.
pub open spec fn child_center(c: (int, int, int), h: int, i: int) -> (int, int, int) {
    (
        c.0 + signed(i % 2 == 1, h / 2),
        c.1 + signed((i / 2) % 2 == 1, h / 2),
        c.2 + signed((i / 4) % 2 == 1, h / 2),
    )
}

/// The cube a node with centre `c` and half extent `h` stands for: on each
/// axis the half-open interval `(c - h, c + h]`.
pub open spec fn in_cube(c: (int, int, int), h: int, p: (int, int, int)) -> bool {
    &&& c.0 - h < p.0 <= c.0 + h
    &&& c.1 - h < p.1 <= c.1 + h
    &&& c.2 - h < p.2 <= c.2 + h
}

/// The number of occupied slots.
pub open spec fn count_some<T>(s: Seq<Option<T>>) -> nat
    decreases s.len(),
{
    if s.len() == 0 {
        0
    } else {
        count_some(s.drop_last()) + if s.last() is Some {
            1nat
        } else {
            0nat
        }
    }
}

/// A node of the tree. A node with `half_extent < 1` is a leaf: the path that
/// leads to it records that one point is present.
pub struct SparseSpatialOctreeNode {
    pub center: IVec3,
    pub half_extent: i32,
    pub children: Option<Vec<Option<Box<SparseSpatialOctreeNode>>>>,
    pub child_count: usize,
}

impl SparseSpatialOctreeNode {
    pub open spec fn is_leaf(&self) -> bool {
        self.half_extent < 1
    }

    /// A leaf, or an inner node that still holds children.
    pub open spec fn occupied(&self) -> bool {
        self.is_leaf() || self.children is Some
    }

    /// The shape invariant: half extents are powers of two that halve on the
    /// way down (a leaf has 0), each child sits at its octant's centre and is
    /// occupied, `children` exists exactly when `child_count > 0`, and
    /// `child_count` counts the occupied slots.
    pub open spec fn wf(&self) -> bool
        decreases self,
    {
        &&& self.half_extent == 0 || is_pow2(self.half_extent as int)
        &&& if self.half_extent < 1 {
            self.children is None && self.child_count == 0
        } else {
            match self.children {
                None => self.child_count == 0,
                Some(ch) => {
                    &&& ch@.len() == 8
                    &&& self.child_count > 0
                    &&& self.child_count == count_some(ch@)
                    &&& forall|i: int|
                        0 <= i < 8 ==> match #[trigger] ch@[i] {
                            None => true,
                            Some(c) => {
                                &&& c.center@ == child_center(
                                    self.center@,
                                    self.half_extent as int,
                                    i,
                                )
                                &&& c.half_extent == self.half_extent / 2
                                &&& c.occupied()
                                &&& c.wf()
                            },
                        }
                },
            }
        }
    }

    /// Whether the path of `p` leads from this node down to a leaf.
    pub open spec fn contains(&self, p: (int, int, int)) -> bool
        decreases self,
    {
        if self.half_extent < 1 {
            true
        } else {
            match self.children {
                None => false,
                Some(ch) => {
                    let i = child_index_of(p, self.center@);
                    0 <= i < ch@.len() && match ch@[i] {
                        Some(c) => c.contains(p),
                        None => false,
                    }
                },
            }
        }
    }

    pub fn new(center: IVec3, half_extent: i32) -> (r: Self)
        ensures
            r.center == center,
            r.half_extent == half_extent,
            r.children is None,
            r.child_count == 0,
    {
        SparseSpatialOctreeNode { center, half_extent, children: None, child_count: 0 }
    }
}

/// A set of integer points within a sphere around a movable origin, kept as a
/// sparse octree whose nodes are allocated on insertion and released when
/// they empty.
pub struct SparseSpatialOctree {
    root: SparseSpatialOctreeNode,
    pub center: IVec3,
    radius: i32,
    radius_sqr: i64,
}

/// The point `position` names in a tree's own frame: as given when
/// `is_local`, else relative to the tree's `center`.
pub open spec fn local_point(center: IVec3, position: IVec3, is_local: bool) -> (int, int, int) {
    if is_local {
        position@
    } else {
        offset(position@, center@)
    }
}

/// The points after an insertion: a point outside the sphere is dropped.
pub open spec fn added(s: Set<(int, int, int)>, radius: int, p: (int, int, int)) -> Set<
    (int, int, int),
> {
    if in_sphere(radius, p) {
        s.insert(p)
    } else {
        s
    }
}

impl View for SparseSpatialOctree {
    type V = Set<(int, int, int)>;

    /// The points present, in the tree's own frame.
    closed spec fn view(&self) -> Set<(int, int, int)> {
        Set::new(|p: (int, int, int)| in_sphere(self.radius as int, p) && self.root.contains(p))
    }
}

impl SparseSpatialOctree {
    pub closed spec fn spec_radius(&self) -> int {
        self.radius as int
    }

    pub closed spec fn spec_center(&self) -> IVec3 {
        self.center
    }

    pub closed spec fn spec_root(&self) -> SparseSpatialOctreeNode {
        self.root
    }

    /// The root has released its children storage.
    pub open spec fn is_collapsed(&self) -> bool {
        self.spec_root().children is None && self.spec_root().child_count == 0
    }

    /// The radius is valid and its square cached, the root is a well-formed
    /// node at the origin whose half extent is the radius, and every point
    /// the tree holds lies in its sphere.
    pub closed spec fn wf(&self) -> bool {
        &&& valid_radius(self.radius as int)
        &&& self.radius_sqr == self.radius * self.radius
        &&& self.root.wf()
        &&& self.root.center@ == (0int, 0int, 0int)
        &&& self.root.half_extent == self.radius
        &&& forall|q: (int, int, int)|
            in_cube((0, 0, 0), self.radius as int, q) && #[trigger] self.root.contains(q)
                ==> in_sphere(self.radius as int, q)
    }

    /// An empty tree of the given radius whose frame has its origin at
    /// `center`.
    pub fn new(center: IVec3, radius: i32) -> (r: Self)
        requires
            valid_radius(radius as int),
        ensures
            r.wf(),
            r@ == Set::<(int, int, int)>::empty(),
            r.spec_center() == center,
            r.spec_radius() == radius,
            r.is_collapsed(),
            r.spec_root().center@ == (0int, 0int, 0int),
            r.spec_root().half_extent == radius,
    {
        assert(0 < radius * radius <= MAX_RADIUS * MAX_RADIUS) by (nonlinear_arith)
            requires
                1 <= radius <= MAX_RADIUS,
        ;
        let radius_sqr = radius as i64 * radius as i64;
        let root = SparseSpatialOctreeNode::new(IVec3::zero(), radius);
        let r = SparseSpatialOctree { root, center, radius, radius_sqr };
        assert(r@ =~= Set::<(int, int, int)>::empty());
        r
    }

    /// An empty tree of the same radius with its origin at `center`: the
    /// window is moved by building afresh and inserting again what stays.
    pub fn copy_base(&self, center: IVec3) -> (r: Self)
        requires
            self.wf(),
        ensures
            r.wf(),
            r@ == Set::<(int, int, int)>::empty(),
            r.spec_center() == center,
            r.spec_radius() == self.spec_radius(),
            r.is_collapsed(),
            r.spec_root().center@ == (0int, 0int, 0int),
            r.spec_root().half_extent == self.spec_radius(),
    {
        let root = SparseSpatialOctreeNode::new(IVec3::zero(), self.radius);
        let r = SparseSpatialOctree {
            root,
            center,
            radius: self.radius,
            radius_sqr: self.radius_sqr,
        };
        assert(r@ =~= Set::<(int, int, int)>::empty());
        r
    }

    pub fn radius(&self) -> (r: i32)
        ensures
            r == self.spec_radius(),
    {
        self.radius
    }

    pub fn root(&self) -> (r: &SparseSpatialOctreeNode)
        ensures
            *r == self.spec_root(),
    {
        &self.root
    }

    /// Whether `pos`, in the tree's own frame, lies in its sphere.
    pub fn is_in_sphere(&self, pos: &IVec3) -> (r: bool)
        requires
            self.wf(),
        ensures
            r == in_sphere(self.spec_radius(), pos@),
    {
        self.sphere_test(pos.x as i64, pos.y as i64, pos.z as i64)
    }

    fn sphere_test(&self, x: i64, y: i64, z: i64) -> (r: bool)
        requires
            self.wf(),
            -0x1_0000_0000 <= x <= 0x1_0000_0000,
            -0x1_0000_0000 <= y <= 0x1_0000_0000,
            -0x1_0000_0000 <= z <= 0x1_0000_0000,
        ensures
            r == in_sphere(self.spec_radius(), (x as int, y as int, z as int)),
    {
        let d = doubled_offset_sq(x) + doubled_offset_sq(y) + doubled_offset_sq(z);
        d <= 4 * (self.radius_sqr as i128)
    }

    /// The frame coordinates of `position`, provided they lie in the sphere.
    fn local_in_sphere(&self, position: IVec3, is_local: bool) -> (r: Option<IVec3>)
        requires
            self.wf(),
        ensures
            match r {
                Some(p) => p@ == local_point(self.spec_center(), position, is_local) && in_sphere(
                    self.spec_radius(),
                    p@,
                ) && in_cube((0, 0, 0), self.spec_radius(), p@),
                None => !in_sphere(
                    self.spec_radius(),
                    local_point(self.spec_center(), position, is_local),
                ),
            },
    {
        let (x, y, z) = if is_local {
            (position.x as i64, position.y as i64, position.z as i64)
        } else {
            (
                position.x as i64 - self.center.x as i64,
                position.y as i64 - self.center.y as i64,
                position.z as i64 - self.center.z as i64,
            )
        };
        if !self.sphere_test(x, y, z) {
            return None;
        }
        proof {
            lemma_sphere_in_cube(self.radius as int, (x as int, y as int, z as int));
        }
        Some(IVec3::new(x as i32, y as i32, z as i32))
    }

    /// Inserts `position` (in the tree's frame when `is_local`, else
    /// relative to `center`). A point outside the sphere is ignored, and
    /// inserting a present point changes nothing.
    pub fn add(&mut self, position: IVec3, is_local: bool)
        requires
            old(self).wf(),
        ensures
            final(self).wf(),
            final(self).spec_center() == old(self).spec_center(),
            final(self).spec_radius() == old(self).spec_radius(),
            final(self)@ == added(
                old(self)@,
                old(self).spec_radius(),
                local_point(old(self).spec_center(), position, is_local),
            ),
            ({
                let p = local_point(old(self).spec_center(), position, is_local);
                old(self)@.contains(p) || !in_sphere(old(self).spec_radius(), p)
            }) ==> *final(self) == *old(self),
            !in_sphere(old(self).spec_radius(), local_point(old(self).spec_center(), position, is_local))
                ==> !final(self)@.contains(local_point(old(self).spec_center(), position, is_local)),
    {
        let local = match self.local_in_sphere(position, is_local) {
            Some(local) => local,
            None => {
                return;
            },
        };
        if Self::exists_recursive(&self.root, local) {
            return;
        }
        let ghost old_tree = *self;
        Self::add_recursive(&mut self.root, local);
        proof {
            let r = self.radius as int;
            assert forall|q: (int, int, int)| #[trigger] in_sphere(r, q) implies (
            self.root.contains(q) <==> old_tree.root.contains(q) || q == local@) by {
                lemma_sphere_in_cube(r, q);
            }
            assert(self@ =~= old_tree@.insert(local@));
        }
    }

    /// Removes `position`, given relative to `center`, releasing the nodes
    /// that empty. Removing an absent point changes nothing.
    pub fn remove(&mut self, position: IVec3)
        requires
            old(self).wf(),
        ensures
            final(self).wf(),
            final(self).spec_center() == old(self).spec_center(),
            final(self).spec_radius() == old(self).spec_radius(),
            final(self)@ == old(self)@.remove(offset(position@, old(self).spec_center()@)),
            !in_sphere(old(self).spec_radius(), offset(position@, old(self).spec_center()@))
                ==> *final(self) == *old(self),
            final(self)@ == Set::<(int, int, int)>::empty() ==> final(self).is_collapsed(),
    {
        let local = match self.local_in_sphere(position, false) {
            Some(local) => local,
            None => {
                proof {
                    assert(self@ =~= self@.remove(offset(position@, self.center@)));
                    if self@ == Set::<(int, int, int)>::empty() {
                        lemma_empty_tree_is_collapsed(*self);
                    }
                }
                return;
            },
        };
        let ghost old_tree = *self;
        Self::remove_recursive(&mut self.root, local);
        proof {
            let r = self.radius as int;
            assert forall|q: (int, int, int)| #[trigger] in_sphere(r, q) implies (
            self.root.contains(q) <==> old_tree.root.contains(q) && q != local@) by {
                lemma_sphere_in_cube(r, q);
            }
            assert(self@ =~= old_tree@.remove(local@));
            if self@ == Set::<(int, int, int)>::empty() {
                lemma_empty_tree_is_collapsed(*self);
            }
        }
    }

    /// Whether `position`, given relative to `center`, is present.
    pub fn is_present(&self, position: IVec3) -> (r: bool)
        requires
            self.wf(),
        ensures
            r == self@.contains(offset(position@, self.spec_center()@)),
            !in_sphere(self.spec_radius(), offset(position@, self.spec_center()@)) ==> !r,
    {
        proof {
            lemma_view_in_sphere(*self);
        }
        match self.local_in_sphere(position, false) {
            Some(local) => Self::exists_recursive(&self.root, local),
            None => false,
        }
    }

    /// The octant of `pos` around `center`.
    pub fn get_child_index(pos: IVec3, center: IVec3) -> (r: usize)
        ensures
            r == child_index_of(pos@, center@),
            r < 8,
    {
        (if pos.x > center.x {
            1usize
        } else {
            0usize
        }) + (if pos.y > center.y {
            2usize
        } else {
            0usize
        }) + (if pos.z > center.z {
            4usize
        } else {
            0usize
        })
    }

    /// An empty node for octant `index` of a node with the given centre and
    /// half extent.
    pub fn create_new_node(index: usize, center: &IVec3, half_extent: i32) -> (r:
        SparseSpatialOctreeNode)
        requires
            index < 8,
            half_extent >= 0,
            i32::MIN <= center.x - half_extent / 2 && center.x + half_extent / 2 <= i32::MAX,
            i32::MIN <= center.y - half_extent / 2 && center.y + half_extent / 2 <= i32::MAX,
            i32::MIN <= center.z - half_extent / 2 && center.z + half_extent / 2 <= i32::MAX,
        ensures
            r.center@ == child_center(center@, half_extent as int, index as int),
            r.half_extent == half_extent / 2,
            r.children is None,
            r.child_count == 0,
    {
        let offset = half_extent / 2;
        let center = IVec3::new(
            center.x + if index % 2 == 1 {
                offset
            } else {
                -offset
            },
            center.y + if (index / 2) % 2 == 1 {
                offset
            } else {
                -offset
            },
            center.z + if (index / 4) % 2 == 1 {
                offset
            } else {
                -offset
            },
        );
        SparseSpatialOctreeNode::new(center, offset)
    }

    fn exists_recursive(node: &SparseSpatialOctreeNode, position: IVec3) -> (r: bool)
        requires
            node.wf(),
        ensures
            r == node.contains(position@),
        decreases node.half_extent,
    {
        if node.half_extent < 1 {
            return true;
        }
        let children = match &node.children {
            Some(children) => children,
            None => {
                return false;
            },
        };
        let index = Self::get_child_index(position, node.center);
        match &children[index] {
            Some(child) => {
                assert(child.wf());
                Self::exists_recursive(child, position)
            },
            None => false,
        }
    }

    /// Extends the path of `position` down to a leaf, allocating the nodes
    /// that are missing.
    fn add_recursive(node: &mut SparseSpatialOctreeNode, position: IVec3)
        requires
            old(node).wf(),
            old(node).is_leaf() || in_cube(
                old(node).center@,
                old(node).half_extent as int,
                position@,
            ),
            in_bounds(*old(node)),
        ensures
            final(node).wf(),
            final(node).occupied(),
            final(node).center == old(node).center,
            final(node).half_extent == old(node).half_extent,
            forall|q: (int, int, int)|
                in_cube(old(node).center@, old(node).half_extent as int, q) ==> (
                #[trigger] final(node).contains(q) <==> old(node).contains(q) || q == position@),
        decreases old(node).half_extent,
    {
        if node.half_extent < 1 {
            return;
        }
        let ghost old_node = *node;
        let index = Self::get_child_index(position, node.center);
        let mut children = match node.children.take() {
            Some(children) => children,
            None => {
                let mut empty: Vec<Option<Box<SparseSpatialOctreeNode>>> = Vec::new();
                let mut k: usize = 0;
                while k < 8
                    invariant
                        k <= 8,
                        empty@.len() == k,
                        forall|j: int| 0 <= j < k ==> #[trigger] empty@[j] is None,
                    decreases 8 - k,
                {
                    empty.push(None);
                    k = k + 1;
                }
                proof {
                    lemma_count_some_zero(empty@);
                }
                empty
            },
        };
        let ghost old_slots = children@;
        proof {
            lemma_count_some_free(old_slots, index as int);
        }
        let taken = children.remove(index);
        let mut child = match taken {
            Some(child) => child,
            None => {
                node.child_count = node.child_count + 1;
                Box::new(Self::create_new_node(index, &node.center, node.half_extent))
            },
        };
        proof {
            lemma_count_some_zero(old_slots);
            if node.half_extent >= 2 {
                lemma_route(node.center@, node.half_extent as int, position@);
            }
        }
        Self::add_recursive(&mut *child, position);
        children.insert(index, Some(child));
        proof {
            assert(children@ =~= old_slots.update(index as int, Some(child)));
            lemma_count_some_update(old_slots, index as int, Some(child));
        }
        node.children = Some(children);
        proof {
            Self::lemma_add_contains(old_node, *node, position@);
        }
    }

    /// How the points of a node change when the path of `p` is completed
    /// through the child in `p`'s octant.
    proof fn lemma_add_contains(
        old_node: SparseSpatialOctreeNode,
        node: SparseSpatialOctreeNode,
        p: (int, int, int),
    )
        requires
            old_node.wf(),
            !old_node.is_leaf(),
            in_cube(old_node.center@, old_node.half_extent as int, p),
            node.center == old_node.center,
            node.half_extent == old_node.half_extent,
            node.children is Some,
            node.children->0@.len() == 8,
            ({
                let c = node.center@;
                let h = node.half_extent as int;
                let i = child_index_of(p, c);
                &&& slot(node, i) is Some
                &&& slot(node, i)->0.half_extent == node.half_extent / 2
                &&& forall|q: (int, int, int)|
                    in_cube(child_center(c, h, i), h / 2, q) ==> (#[trigger] slot_contains(
                        node,
                        i,
                        q,
                    ) <==> q == p || slot_contains(old_node, i, q))
                &&& forall|j: int|
                    0 <= j < 8 && j != i ==> #[trigger] slot(node, j) == slot(old_node, j)
            }),
        ensures
            forall|q: (int, int, int)|
                in_cube(old_node.center@, old_node.half_extent as int, q) ==> (
                #[trigger] node.contains(q) <==> old_node.contains(q) || q == p),
    {
        let c = node.center@;
        let h = node.half_extent as int;
        let i = child_index_of(p, c);
        assert forall|q: (int, int, int)| in_cube(c, h, q) implies (#[trigger] node.contains(q)
            <==> old_node.contains(q) || q == p) by {
            let j = child_index_of(q, c);
            assert(node.contains(q) == slot_contains(node, j, q));
            assert(old_node.contains(q) == slot_contains(old_node, j, q));
            if j == i {
                if h == 1 {
                    lemma_unit_octant(c, p, q);
                    assert(slot(node, i)->0.contains(q));
                } else {
                    lemma_route(c, h, q);
                }
            } else {
                assert(slot(node, j) == slot(old_node, j));
            }
        }
    }

    /// Cuts the path of `position`, releasing every node that empties on
    /// the way back up. Returns whether `node` itself is left empty, so
    /// that its parent drops it.
    fn remove_recursive(node: &mut SparseSpatialOctreeNode, position: IVec3) -> (emptied: bool)
        requires
            old(node).wf(),
            old(node).is_leaf() || in_cube(
                old(node).center@,
                old(node).half_extent as int,
                position@,
            ),
        ensures
            final(node).wf(),
            final(node).center == old(node).center,
            final(node).half_extent == old(node).half_extent,
            old(node).occupied() ==> (emptied <==> (final(node).is_leaf()
                || final(node).children is None)),
            !old(node).occupied() ==> !emptied && *final(node) == *old(node),
            forall|q: (int, int, int)|
                in_cube(old(node).center@, old(node).half_extent as int, q) ==> (
                #[trigger] final(node).contains(q) <==> old(node).contains(q) && q != position@),
        decreases old(node).half_extent,
    {
        if node.half_extent < 1 {
            return true;
        }
        let ghost old_node = *node;
        let mut children = match node.children.take() {
            Some(children) => children,
            None => {
                return false;
            },
        };
        let index = Self::get_child_index(position, node.center);
        let ghost old_slots = children@;
        let taken = children.remove(index);
        match taken {
            None => {
                children.insert(index, None);
                proof {
                    assert(children@ =~= old_slots);
                }
                node.children = Some(children);
                proof {
                    Self::lemma_remove_contains(old_node, *node, position@);
                }
                false
            },
            Some(mut child) => {
                proof {
                    if node.half_extent >= 2 {
                        lemma_route(node.center@, node.half_extent as int, position@);
                    }
                }
                let emptied = Self::remove_recursive(&mut *child, position);
                if emptied {
                    proof {
                        let c = old_node.center@;
                        let h = old_node.half_extent as int;
                        let i = index as int;
                        assert forall|q: (int, int, int)|
                            in_cube(child_center(c, h, i), h / 2, q) implies !(#[trigger] slot_contains(
                            old_node,
                            i,
                            q,
                        ) && q != position@) by {
                            assert(!child.contains(q));
                        }
                    }
                    children.insert(index, None);
                    proof {
                        assert(children@ =~= old_slots.update(index as int, None));
                        lemma_count_some_update(old_slots, index as int, None);
                        lemma_count_some_zero(children@);
                    }
                    node.child_count = node.child_count - 1;
                    if node.child_count == 0 {
                        proof {
                            assert forall|j: int| 0 <= j < 8 && j != index implies #[trigger] slot(
                                *node,
                                j,
                            ) == slot(old_node, j) by {
                                assert(children@[j] is None);
                                assert(old_slots[j] == children@[j]);
                            }
                            Self::lemma_remove_contains(old_node, *node, position@);
                        }
                        return true;
                    }
                    node.children = Some(children);
                    proof {
                        Self::lemma_remove_contains(old_node, *node, position@);
                    }
                    false
                } else {
                    children.insert(index, Some(child));
                    proof {
                        assert(children@ =~= old_slots.update(index as int, Some(child)));
                        lemma_count_some_update(old_slots, index as int, Some(child));
                    }
                    node.children = Some(children);
                    proof {
                        Self::lemma_remove_contains(old_node, *node, position@);
                    }
                    false
                }
            },
        }
    }

    /// How the points of a node change when the slot of `p`'s octant loses
    /// `p` and every other slot stays.
    proof fn lemma_remove_contains(
        old_node: SparseSpatialOctreeNode,
        node: SparseSpatialOctreeNode,
        p: (int, int, int),
    )
        requires
            old_node.wf(),
            !old_node.is_leaf(),
            in_cube(old_node.center@, old_node.half_extent as int, p),
            node.center == old_node.center,
            node.half_extent == old_node.half_extent,
            node.children is Some ==> node.children->0@.len() == 8,
            ({
                let i = child_index_of(p, node.center@);
                &&& forall|q: (int, int, int)|
                    in_cube(child_center(node.center@, node.half_extent as int, i), node.half_extent / 2, q)
                        ==> (#[trigger] slot_contains(node, i, q) <==> slot_contains(old_node, i, q)
                        && q != p)
                &&& node.half_extent == 1 ==> slot(node, i) is None
                &&& forall|j: int|
                    0 <= j < 8 && j != i ==> #[trigger] slot(node, j) == slot(old_node, j)
            }),
        ensures
            forall|q: (int, int, int)|
                in_cube(old_node.center@, old_node.half_extent as int, q) ==> (
                #[trigger] node.contains(q) <==> old_node.contains(q) && q != p),
    {
        let c = node.center@;
        let h = node.half_extent as int;
        let i = child_index_of(p, c);
        assert forall|q: (int, int, int)| in_cube(c, h, q) implies (#[trigger] node.contains(q)
            <==> old_node.contains(q) && q != p) by {
            let j = child_index_of(q, c);
            assert(node.contains(q) == slot_contains(node, j, q));
            assert(old_node.contains(q) == slot_contains(old_node, j, q));
            if j == i {
                if h == 1 {
                    lemma_unit_octant(c, p, q);
                } else {
                    lemma_route(c, h, q);
                }
            } else {
                assert(slot(node, j) == slot(old_node, j));
            }
        }
    }

    /// A node that holds children holds a point of its cube.
    proof fn lemma_occupied_has_point(node: SparseSpatialOctreeNode)
        requires
            node.wf(),
            !node.is_leaf(),
            node.children is Some,
        ensures
            exists|q: (int, int, int)|
                in_cube(node.center@, node.half_extent as int, q) && #[trigger] node.contains(q),
        decreases node.half_extent,
    {
        let c = node.center@;
        let h = node.half_extent as int;
        let ch = node.children->0@;
        lemma_count_some_zero(ch);
        let i = choose|i: int| 0 <= i < ch.len() && !(#[trigger] ch[i] is None);
        let child = ch[i]->0;
        if h == 1 {
            let q = (c.0 + i % 2, c.1 + (i / 2) % 2, c.2 + (i / 4) % 2);
            assert(child_index_of(q, c) == i);
            assert(child.contains(q));
            assert(node.contains(q));
        } else {
            Self::lemma_occupied_has_point(*child);
            let q = choose|q: (int, int, int)|
                in_cube(child.center@, child.half_extent as int, q) && #[trigger] child.contains(q);
            lemma_child_cube(c, h, i, q);
            assert(node.contains(q));
        }
    }
}

/// Whether a tree can be built with `radius`.
pub fn is_valid_radius(radius: i32) -> (r: bool)
    ensures
        r == valid_radius(radius as int),
{
    if radius < 1 || radius > MAX_RADIUS {
        return false;
    }
    let mut n = radius;
    while n > 1 && n % 2 == 0
        invariant
            1 <= n <= radius,
            is_pow2(radius as int) == is_pow2(n as int),
        decreases n,
    {
        n = n / 2;
    }
    n == 1
}

/// Round trip: once a point of the sphere is inserted it is present, and
/// once it is then removed it is absent.
pub proof fn lemma_round_trip(s: Set<(int, int, int)>, radius: int, p: (int, int, int))
    requires
        in_sphere(radius, p),
    ensures
        added(s, radius, p).contains(p),
        !added(s, radius, p).remove(p).contains(p),
{
}

/// Inserting the same point twice leaves what inserting it once leaves.
pub proof fn lemma_add_idempotent(s: Set<(int, int, int)>, radius: int, p: (int, int, int))
    ensures
        added(added(s, radius, p), radius, p) == added(s, radius, p),
{
    assert(added(added(s, radius, p), radius, p) =~= added(s, radius, p));
}

/// The sphere test is inclusive: on each axis the point at distance
/// `radius` is inside, and the next one out is outside, so inserting it is
/// ignored.
pub proof fn lemma_sphere_boundary(radius: int)
    requires
        valid_radius(radius),
    ensures
        in_sphere(radius, (radius, 0, 0)),
        in_sphere(radius, (0, radius, 0)),
        in_sphere(radius, (0, 0, radius)),
        !in_sphere(radius, (radius + 1, 0, 0)),
        !in_sphere(radius, (0, radius + 1, 0)),
        !in_sphere(radius, (0, 0, radius + 1)),
        forall|s: Set<(int, int, int)>| #[trigger]
            added(s, radius, (radius + 1, 0, 0)) == s,
{
    assert((2 * radius - 1) * (2 * radius - 1) + 2 <= 4 * (radius * radius)) by (nonlinear_arith)
        requires
            radius >= 1,
    ;
    assert((2 * radius + 1) * (2 * radius + 1) + 2 > 4 * (radius * radius)) by (nonlinear_arith)
        requires
            radius >= 1,
    ;
    assert((-1int) * (-1int) == 1) by (nonlinear_arith);
    assert(sq(-1int) == 1);
}

/// Every point a tree holds lies in its sphere: a point outside the window
/// is never present.
pub proof fn lemma_view_in_sphere(t: SparseSpatialOctree)
    requires
        t.wf(),
    ensures
        forall|p: (int, int, int)| #[trigger] t@.contains(p) ==> in_sphere(t.spec_radius(), p),
{
}

/// A tree that holds no point has released the root's children storage.
pub proof fn lemma_empty_tree_is_collapsed(t: SparseSpatialOctree)
    requires
        t.wf(),
        t@ == Set::<(int, int, int)>::empty(),
    ensures
        t.is_collapsed(),
{
    if t.spec_root().children is Some {
        SparseSpatialOctree::lemma_occupied_has_point(t.spec_root());
        let q = choose|q: (int, int, int)|
            in_cube((0, 0, 0), t.spec_radius(), q) && #[trigger] t.spec_root().contains(q);
        assert(t@.contains(q));
    }
}

/// `(2a - 1)^2`, the scaled square of a half-voxel-centred offset.
fn doubled_offset_sq(a: i64) -> (r: i128)
    requires
        -0x1_0000_0000 <= a <= 0x1_0000_0000,
    ensures
        r == sq(2 * a - 1),
        0 <= r <= 0x8_0000_0000_0000_0000,
{
    let d: i128 = 2 * (a as i128) - 1;
    assert(0 <= d * d <= 0x8_0000_0000_0000_0000) by (nonlinear_arith)
        requires
            -0x2_0000_0001 <= d <= 0x2_0000_0001,
    ;
    d * d
}

/// The slot of octant `i`, empty when the node holds no children.
pub open spec fn slot(node: SparseSpatialOctreeNode, i: int) -> Option<
    Box<SparseSpatialOctreeNode>,
> {
    match node.children {
        Some(ch) => ch@[i],
        None => None,
    }
}

/// Whether the child in slot `i` holds the path of `q`.
pub open spec fn slot_contains(node: SparseSpatialOctreeNode, i: int, q: (int, int, int)) -> bool {
    slot(node, i) is Some && slot(node, i)->0.contains(q)
}

/// The cube of `node` lies within that of the largest tree.
pub open spec fn in_bounds(node: SparseSpatialOctreeNode) -> bool {
    let c = node.center@;
    let h = node.half_extent as int;
    &&& -MAX_RADIUS <= c.0 - h && c.0 + h <= MAX_RADIUS
    &&& -MAX_RADIUS <= c.1 - h && c.1 + h <= MAX_RADIUS
    &&& -MAX_RADIUS <= c.2 - h && c.2 + h <= MAX_RADIUS
}

/// `count_some` after one slot is replaced.
proof fn lemma_count_some_update<T>(s: Seq<Option<T>>, i: int, x: Option<T>)
    requires
        0 <= i < s.len(),
    ensures
        count_some(s.update(i, x)) == count_some(s) - (if s[i] is Some {
            1int
        } else {
            0int
        }) + (if x is Some {
            1int
        } else {
            0int
        }),
    decreases s.len(),
{
    let t = s.update(i, x);
    if i == s.len() - 1 {
        assert(t.drop_last() =~= s.drop_last());
    } else {
        lemma_count_some_update(s.drop_last(), i, x);
        assert(t.drop_last() =~= s.drop_last().update(i, x));
    }
}

/// No slot is occupied exactly when the count is zero; the count never
/// exceeds the number of slots.
proof fn lemma_count_some_zero<T>(s: Seq<Option<T>>)
    ensures
        count_some(s) <= s.len(),
        count_some(s) == 0 <==> forall|i: int| 0 <= i < s.len() ==> #[trigger] s[i] is None,
    decreases s.len(),
{
    if s.len() > 0 {
        lemma_count_some_zero(s.drop_last());
        if count_some(s) == 0 {
            assert forall|i: int| 0 <= i < s.len() implies #[trigger] s[i] is None by {
                if i < s.len() - 1 {
                    assert(s.drop_last()[i] == s[i]);
                }
            }
        }
        if forall|i: int| 0 <= i < s.len() ==> #[trigger] s[i] is None {
            assert forall|i: int| 0 <= i < s.drop_last().len() implies #[trigger] s.drop_last()[i]
                is None by {
                assert(s[i] is None);
            }
            assert(s[s.len() - 1] is None);
        }
    }
}

/// A free slot leaves room in the count.
proof fn lemma_count_some_free<T>(s: Seq<Option<T>>, i: int)
    requires
        0 <= i < s.len(),
    ensures
        s[i] is None ==> count_some(s) < s.len(),
    decreases s.len(),
{
    lemma_count_some_zero(s.drop_last());
    if i < s.len() - 1 {
        lemma_count_some_free(s.drop_last(), i);
    }
}

/// A point of a node's cube lies in the cube of the child its octant names.
proof fn lemma_route(c: (int, int, int), h: int, p: (int, int, int))
    requires
        h >= 2,
        is_pow2(h),
        in_cube(c, h, p),
    ensures
        in_cube(child_center(c, h, child_index_of(p, c)), h / 2, p),
        0 <= child_index_of(p, c) < 8,
        is_pow2(h / 2),
{
}

/// A child's cube lies in its parent's cube, in the child's own octant.
proof fn lemma_child_cube(c: (int, int, int), h: int, i: int, p: (int, int, int))
    requires
        h >= 2,
        is_pow2(h),
        0 <= i < 8,
        in_cube(child_center(c, h, i), h / 2, p),
    ensures
        in_cube(c, h, p),
        child_index_of(p, c) == i,
{
}

/// Below a node of half extent 1 each octant holds a single point.
proof fn lemma_unit_octant(c: (int, int, int), p: (int, int, int), q: (int, int, int))
    requires
        in_cube(c, 1, p),
        in_cube(c, 1, q),
        child_index_of(p, c) == child_index_of(q, c),
    ensures
        p == q,
{
}

/// Every point of the sphere lies in the cube of the same radius.
pub(crate) proof fn lemma_sphere_in_cube(radius: int, p: (int, int, int))
    requires
        radius >= 1,
        in_sphere(radius, p),
    ensures
        in_cube((0, 0, 0), radius, p),
{
    assert forall|a: int| #[trigger] sq(2 * a - 1) <= 4 * sq(radius) implies -radius < a
        <= radius by {
        if a > radius {
            assert(2 * a - 1 > 2 * radius);
            assert((2 * a - 1) * (2 * a - 1) > 4 * (radius * radius)) by (nonlinear_arith)
                requires
                    2 * a - 1 > 2 * radius,
                    radius >= 1,
            ;
        }
        if a <= -radius {
            assert(1 - 2 * a > 2 * radius);
            assert((2 * a - 1) * (2 * a - 1) > 4 * (radius * radius)) by (nonlinear_arith)
                requires
                    1 - 2 * a > 2 * radius,
                    radius >= 1,
            ;
        }
    }
    assert(sq(2 * p.0 - 1) >= 0 && sq(2 * p.1 - 1) >= 0 && sq(2 * p.2 - 1) >= 0) by (
    nonlinear_arith);
}

} // verus!

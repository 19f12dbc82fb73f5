use voxel_world::sparse_spatial_octree::is_valid_radius;
use voxel_world::{IVec3, SparseSpatialOctree, SparseSpatialOctreeNode};

fn create_test_octree() -> SparseSpatialOctree {
    SparseSpatialOctree::new(IVec3::new(0, 0, 0), 8)
}

fn child_at(node: &SparseSpatialOctreeNode, position: IVec3) -> &SparseSpatialOctreeNode {
    let children = node.children.as_ref().unwrap();
    let index = SparseSpatialOctree::get_child_index(position, node.center);
    children[index].as_ref().unwrap()
}

#[test]
fn test_new_octree_half_extent() {
    let octree = SparseSpatialOctree::new(IVec3::zero(), 1);
    assert_eq!(octree.root().half_extent, 1);

    let octree = SparseSpatialOctree::new(IVec3::zero(), 2);
    assert_eq!(octree.root().half_extent, 2);
}

#[test]
fn test_new_octree() {
    let octree = create_test_octree();
    assert_eq!(octree.root().center, IVec3::new(0, 0, 0));
    assert_eq!(octree.root().half_extent, 8);
    assert!(octree.root().children.is_none());
    assert_eq!(octree.root().child_count, 0);
}

#[test]
fn test_add_single_item() {
    let mut octree = create_test_octree();
    let position = IVec3::new(2, 2, 2);
    octree.add(position, true);

    assert!(octree.root().children.is_some());
    assert_eq!(octree.root().child_count, 1);

    let child = child_at(octree.root(), position);
    assert_eq!(child.center, IVec3::new(4, 4, 4));
    assert_eq!(child.half_extent, 4);
    assert!(child.children.is_some());

    let child = child_at(child, position);
    assert_eq!(child.half_extent, 2);
    assert!(child.children.is_some());

    let child = child_at(child, position);
    assert_eq!(child.half_extent, 1);
    assert!(child.children.is_some());

    let child = child_at(child, position);
    assert_eq!(child.half_extent, 0);
    assert!(child.children.is_none());
}

#[test]
fn test_add_multiple_items() {
    let mut octree = create_test_octree();
    let positions = [
        IVec3::new(2, 2, 2),
        IVec3::new(-2, -2, -2),
        IVec3::new(3, 1, 2),
    ];

    for &pos in positions.iter() {
        octree.add(pos, true);
    }

    assert!(octree.root().children.is_some());
    assert_eq!(octree.root().child_count, 2);

    for &pos in positions.iter() {
        let mut current_node = octree.root();
        while current_node.children.is_some() {
            current_node = child_at(current_node, pos);
        }
        assert_eq!(current_node.half_extent, 0);
        assert!(current_node.children.is_none());
    }
}

#[test]
fn test_remove_item() {
    let mut octree = create_test_octree();
    let position = IVec3::new(2, 2, 2);

    octree.add(position, true);
    octree.remove(position);

    assert!(octree.root().children.is_none());
    assert_eq!(octree.root().child_count, 0);
}

#[test]
fn test_remove_nonexistent_item() {
    let mut octree = create_test_octree();
    let position = IVec3::new(2, 2, 2);

    octree.remove(position);
    assert!(octree.root().children.is_none());
    assert_eq!(octree.root().child_count, 0);

    octree.add(position, true);
    octree.remove(IVec3::new(-2, -2, -2));

    assert!(octree.root().children.is_some());
    assert_eq!(octree.root().child_count, 1);
}

#[test]
fn test_child_index_calculation() {
    let center = IVec3::new(0, 0, 0);
    let positions = [
        (IVec3::new(1, 1, 1), 7),
        (IVec3::new(-1, -1, -1), 0),
        (IVec3::new(1, -1, 1), 5),
        (IVec3::new(-1, 1, -1), 2),
    ];

    for (pos, expected_index) in positions {
        let index = SparseSpatialOctree::get_child_index(pos, center);
        assert_eq!(index, expected_index);
    }
}

#[test]
fn test_create_new_node() {
    let center = IVec3::new(0, 0, 0);
    let half_extent = 8;

    let new_node = SparseSpatialOctree::create_new_node(7, &center, half_extent);
    assert_eq!(new_node.center, IVec3::new(4, 4, 4));
    assert_eq!(new_node.half_extent, 4);

    let new_node = SparseSpatialOctree::create_new_node(0, &center, half_extent);
    assert_eq!(new_node.center, IVec3::new(-4, -4, -4));
    assert_eq!(new_node.half_extent, 4);
}

#[test]
fn test_add_at_minimum_half_extent() {
    let mut octree = SparseSpatialOctree::new(IVec3::new(0, 0, 0), 1);
    let position = IVec3::new(0, 0, 0);
    octree.add(position, true);
    assert!(octree.root().children.is_some());
    assert_eq!(octree.root().child_count, 1);
}

#[test]
fn test_get() {
    let mut octree = SparseSpatialOctree::new(IVec3::zero(), 8);

    assert_eq!(octree.is_present(IVec3::new(1, 1, 1)), false);

    octree.add(IVec3::new(1, 1, 1), true);
    assert_eq!(octree.is_present(IVec3::new(1, 1, 1)), true);
    assert_eq!(octree.is_present(IVec3::new(0, 0, 0)), false);

    octree.add(IVec3::new(-1, -1, -1), true);
    assert_eq!(octree.is_present(IVec3::new(-1, -1, -1)), true);

    octree.remove(IVec3::new(1, 1, 1));
    assert_eq!(octree.is_present(IVec3::new(1, 1, 1)), false);
    assert_eq!(octree.is_present(IVec3::new(-1, -1, -1)), true);
}

#[test]
fn test_add_child_count() {
    let mut octree = SparseSpatialOctree::new(IVec3::zero(), 8);
    octree.add(IVec3::new(1, 1, 1), true);
    octree.add(IVec3::new(-1, -1, -1), true);
    assert_eq!(octree.root().child_count, 2);
}

#[test]
fn round_trip_of_every_window_point() {
    let radius = 4;
    let mut octree = SparseSpatialOctree::new(IVec3::zero(), radius);
    for x in -radius - 1..=radius + 1 {
        for y in -radius - 1..=radius + 1 {
            for z in -radius - 1..=radius + 1 {
                let p = IVec3::new(x, y, z);
                if !octree.is_in_sphere(&p) {
                    continue;
                }
                octree.add(p, true);
                assert!(octree.is_present(p));
                octree.remove(p);
                assert!(!octree.is_present(p));
            }
        }
    }
}

#[test]
fn add_then_remove_collapses_root() {
    let mut octree = SparseSpatialOctree::new(IVec3::zero(), 16);
    let p = IVec3::new(-5, 7, 3);
    octree.add(p, true);
    assert_eq!(octree.root().child_count, 1);
    octree.remove(p);
    assert!(octree.root().children.is_none());
    assert_eq!(octree.root().child_count, 0);
}

#[test]
fn adding_twice_counts_once() {
    let mut octree = create_test_octree();
    let p = IVec3::new(2, 2, 2);
    octree.add(p, true);
    octree.add(p, true);
    assert!(octree.is_present(p));
    let mut node = octree.root();
    while node.children.is_some() {
        assert_eq!(node.child_count, 1);
        node = child_at(node, p);
    }
    octree.remove(p);
    assert!(!octree.is_present(p));
    assert!(octree.root().children.is_none());
}

#[test]
fn sphere_boundary_is_inclusive() {
    let mut octree = create_test_octree();
    assert!(octree.is_in_sphere(&IVec3::new(8, 0, 0)));
    assert!(octree.is_in_sphere(&IVec3::new(0, 8, 0)));
    assert!(octree.is_in_sphere(&IVec3::new(0, 0, 8)));
    assert!(!octree.is_in_sphere(&IVec3::new(9, 0, 0)));
    assert!(!octree.is_in_sphere(&IVec3::new(-8, 0, 0)));

    octree.add(IVec3::new(8, 0, 0), true);
    assert!(octree.is_present(IVec3::new(8, 0, 0)));
    assert_eq!(octree.root().child_count, 1);

    octree.add(IVec3::new(9, 0, 0), true);
    assert!(!octree.is_present(IVec3::new(9, 0, 0)));
    assert_eq!(octree.root().child_count, 1);
}

#[test]
fn half_voxel_sphere_values() {
    let octree = SparseSpatialOctree::new(IVec3::zero(), 2);
    // (2x-1)^2 + (2y-1)^2 + (2z-1)^2 <= 16
    assert!(octree.is_in_sphere(&IVec3::new(1, 1, 1)));
    assert!(octree.is_in_sphere(&IVec3::new(2, 1, 1)));
    assert!(octree.is_in_sphere(&IVec3::new(0, 0, 0)));
    assert!(!octree.is_in_sphere(&IVec3::new(2, 2, 1)));
    assert!(octree.is_in_sphere(&IVec3::new(-1, 0, 0)));
    assert!(!octree.is_in_sphere(&IVec3::new(-2, 0, 0)));
    assert!(!octree.is_in_sphere(&IVec3::new(i32::MAX, i32::MIN, 0)));
}

#[test]
fn positions_are_relative_to_center() {
    let mut octree = SparseSpatialOctree::new(IVec3::new(100, -50, 7), 4);
    octree.add(IVec3::new(101, -49, 8), false);
    assert!(octree.is_present(IVec3::new(101, -49, 8)));
    assert!(!octree.is_present(IVec3::new(1, 1, 1)));
    octree.add(IVec3::new(2, 2, 2), true);
    assert!(octree.is_present(IVec3::new(102, -48, 9)));
    octree.add(IVec3::new(110, -50, 7), false);
    assert!(!octree.is_present(IVec3::new(110, -50, 7)));
    octree.remove(IVec3::new(101, -49, 8));
    assert!(!octree.is_present(IVec3::new(101, -49, 8)));
    assert!(octree.is_present(IVec3::new(102, -48, 9)));
}

#[test]
fn far_positions_do_not_overflow() {
    let mut octree = SparseSpatialOctree::new(IVec3::new(i32::MAX, i32::MIN, 0), 4);
    octree.add(IVec3::new(i32::MIN, i32::MAX, 0), false);
    assert!(!octree.is_present(IVec3::new(i32::MIN, i32::MAX, 0)));
    octree.add(IVec3::new(i32::MAX, i32::MIN, 1), false);
    assert!(octree.is_present(IVec3::new(i32::MAX, i32::MIN, 1)));
}

#[test]
fn copy_base_is_empty_with_same_radius() {
    let mut octree = create_test_octree();
    octree.add(IVec3::new(1, 2, 3), true);
    let moved = octree.copy_base(IVec3::new(5, 0, 0));
    assert_eq!(moved.radius(), 8);
    assert_eq!(moved.center, IVec3::new(5, 0, 0));
    assert!(moved.root().children.is_none());
    assert!(!moved.is_present(IVec3::new(6, 2, 3)));
}

#[test]
fn radius_validity() {
    assert!(!is_valid_radius(0));
    assert!(!is_valid_radius(-4));
    assert!(!is_valid_radius(3));
    assert!(!is_valid_radius(12));
    assert!(!is_valid_radius(1024));
    assert!(is_valid_radius(1));
    assert!(is_valid_radius(2));
    assert!(is_valid_radius(64));
    assert!(is_valid_radius(512));
}

#[test]
fn largest_radius_tree() {
    let mut octree = SparseSpatialOctree::new(IVec3::zero(), 512);
    octree.add(IVec3::new(512, 0, 0), true);
    octree.add(IVec3::new(-511, 0, 0), true);
    assert!(octree.is_present(IVec3::new(512, 0, 0)));
    assert!(octree.is_present(IVec3::new(-511, 0, 0)));
    assert!(!octree.is_present(IVec3::new(-512, 0, 0)));
    assert_eq!(octree.root().child_count, 2);
}

#[test]
fn removing_from_empty_tree_keeps_it_collapsed() {
    let mut octree = SparseSpatialOctree::new(IVec3::new(3, 3, 3), 4);
    octree.remove(IVec3::new(4, 4, 4));
    assert!(octree.root().children.is_none());
    assert_eq!(octree.root().child_count, 0);
    assert!(!octree.is_present(IVec3::new(4, 4, 4)));
}

#[test]
fn copy_base_root_matches_new() {
    let octree = SparseSpatialOctree::new(IVec3::zero(), 16);
    let moved = octree.copy_base(IVec3::new(-7, 2, 9));
    assert_eq!(moved.root().center, IVec3::zero());
    assert_eq!(moved.root().half_extent, 16);
}

use voxel_world::chunk::{CHUNK_SIDE_SIZE, CHUNK_SIDE_SIZE_SQR, CHUNK_SIZE, MAX_HEIGHT, MIN_HEIGHT};
use voxel_world::{Chunk, IVec3};

fn voxel_index(x: i32, y: i32, z: i32) -> usize {
    (x + y * CHUNK_SIDE_SIZE + z * CHUNK_SIDE_SIZE_SQR) as usize
}

/// A terrain whose height varies over the columns, within the height bounds.
fn sloped(x: i32, y: i32) -> i32 {
    MIN_HEIGHT + (x.rem_euclid(8) + y.rem_euclid(8)) * (MAX_HEIGHT - MIN_HEIGHT) / 14
}

#[test]
fn chunk_above_terrain_is_absent() {
    let heights = vec![MAX_HEIGHT; CHUNK_SIDE_SIZE_SQR as usize];
    assert!(Chunk::from_heights(IVec3::new(0, 0, 1), &heights).is_none());
    assert!(Chunk::from_heights(IVec3::new(-3, 7, 5), &heights).is_none());
    assert!(Chunk::new(IVec3::new(2, -1, 1), &sloped).is_none());
}

#[test]
fn chunk_at_surface_is_filled_from_bottom() {
    let position = IVec3::new(1, -2, 0);
    let chunk = Chunk::new(position, &sloped).unwrap();
    assert_eq!(chunk.position, position);
    assert_eq!(chunk.texture.len(), CHUNK_SIZE as usize);
    assert!(chunk.texture.iter().any(|&v| v == 1));
    for x in 0..CHUNK_SIDE_SIZE {
        for y in 0..CHUNK_SIDE_SIZE {
            let h = sloped(position.x * CHUNK_SIDE_SIZE + x, position.y * CHUNK_SIDE_SIZE + y);
            for z in 0..CHUNK_SIDE_SIZE {
                let expected = if z <= h { 1 } else { 0 };
                assert_eq!(chunk.texture[voxel_index(x, y, z)], expected);
            }
        }
    }
}

#[test]
fn chunk_below_terrain_is_solid() {
    let heights = vec![MIN_HEIGHT; CHUNK_SIDE_SIZE_SQR as usize];
    let chunk = Chunk::from_heights(IVec3::new(4, 4, -1), &heights).unwrap();
    assert!(chunk.texture.iter().all(|&v| v == 1));
}

#[test]
fn single_column_reaching_slab() {
    let mut heights = vec![0; CHUNK_SIDE_SIZE_SQR as usize];
    // column x = 3, y = 5 rises to absolute height 34 in the slab starting at 32
    heights[(3 + 5 * CHUNK_SIDE_SIZE) as usize] = 34;
    let chunk = Chunk::from_heights(IVec3::new(0, 0, 1), &heights).unwrap();
    let solid: Vec<usize> = (0..CHUNK_SIZE as usize).filter(|&i| chunk.texture[i] == 1).collect();
    assert_eq!(solid, vec![voxel_index(3, 5, 0), voxel_index(3, 5, 1), voxel_index(3, 5, 2)]);
}

#[test]
fn heights_are_asked_by_absolute_column() {
    let position = IVec3::new(-1, 2, 0);
    let terrain = |x: i32, y: i32| if x == -32 && y == 64 { 3 } else { -1 };
    let chunk = Chunk::new(position, &terrain).unwrap();
    for z in 0..CHUNK_SIDE_SIZE {
        let expected = if z <= 3 { 1 } else { 0 };
        assert_eq!(chunk.texture[voxel_index(0, 0, z)], expected);
    }
    assert_eq!(chunk.texture[voxel_index(1, 0, 0)], 0);
    assert_eq!(chunk.texture.iter().filter(|&&v| v == 1).count(), 4);
}

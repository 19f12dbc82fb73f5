use voxel_world::chunk::{CHUNK_SIDE_SIZE, MAX_HEIGHT, MIN_HEIGHT};
use voxel_world::{IVec3, World};

fn flat(_x: i32, _y: i32) -> i32 {
    (MIN_HEIGHT + MAX_HEIGHT) / 2
}

fn in_window(center: IVec3, radius: i32, k: IVec3) -> bool {
    let d = |a: i32, c: i32| {
        let v = 2 * (a as i64 - c as i64) - 1;
        v * v
    };
    d(k.x, center.x) + d(k.y, center.y) + d(k.z, center.z) <= 4 * (radius as i64) * (radius as i64)
}

fn window(center: IVec3, radius: i32) -> Vec<IVec3> {
    let mut out = Vec::new();
    for x in center.x - radius..=center.x + radius {
        for y in center.y - radius..=center.y + radius {
            for z in center.z - radius..=center.z + radius {
                let k = IVec3::new(x, y, z);
                if in_window(center, radius, k) {
                    out.push(k);
                }
            }
        }
    }
    out
}

fn assert_resident_is_window(world: &World) {
    let center = world.map_center();
    let radius = world.radius();
    let expected = window(center, radius);
    assert_eq!(world.loaded_chunks().len(), expected.len());
    for k in expected {
        assert!(world.get(k).is_some());
        let local = IVec3::new(k.x - center.x, k.y - center.y, k.z - center.z);
        assert!(world.visible_map().is_present(k));
        assert!(world.visible_map().is_in_sphere(&local));
    }
    for (k, chunk) in world.loaded_chunks().iter() {
        assert!(in_window(center, radius, *k));
        if let Some(c) = chunk {
            assert_eq!(c.position, *k);
        }
    }
}

#[test]
fn new_world_holds_window_around_origin() {
    let world = World::new(1, &flat);
    assert_eq!(world.loaded_chunks().len(), 8);
    assert_eq!(world.map_center(), IVec3::zero());
    assert_eq!(world.player_position(), IVec3::zero());
    assert_resident_is_window(&world);
    // only the layer at z = 0 reaches the terrain surface
    assert!(world.get(IVec3::new(0, 0, 0)).unwrap().is_some());
    assert!(world.get(IVec3::new(1, 0, 1)).unwrap().is_none());
    assert!(world.get(IVec3::new(2, 0, 0)).is_none());
}

#[test]
fn streaming_moves_window() {
    let mut world = World::new(4, &flat);
    let before = window(IVec3::zero(), 4);
    assert_resident_is_window(&world);

    let new_center = IVec3::new(5, 0, 0);
    world.update_map_position(new_center, &flat);
    assert_eq!(world.map_center(), new_center);
    assert_resident_is_window(&world);
    for k in before.iter() {
        if !in_window(new_center, 4, *k) {
            assert!(world.get(*k).is_none());
        }
    }
    for k in window(new_center, 4) {
        let entry = world.get(k).unwrap();
        let expect_solid = k.z == 0 || k.z * CHUNK_SIDE_SIZE <= flat(0, 0);
        assert_eq!(entry.is_some(), expect_solid);
    }
}

#[test]
fn kept_chunks_survive_move() {
    let mut world = World::new(2, &flat);
    world.update_map_position(IVec3::new(0, -2, 0), &|_x: i32, _y: i32| -100);
    assert_resident_is_window(&world);
    // (0, 0, 0) stayed in the window: it keeps the chunk built over flat terrain
    assert!(world.get(IVec3::new(0, 0, 0)).unwrap().is_some());
    // (0, -3, 0) entered: built over terrain far below, it is empty
    assert!(world.get(IVec3::new(0, -3, 0)).unwrap().is_none());
}

#[test]
fn small_move_is_ignored() {
    let mut world = World::new(2, &flat);
    world.update_map_position(IVec3::new(1, 1, 1), &flat);
    assert_eq!(world.map_center(), IVec3::zero());
    assert_resident_is_window(&world);
    world.update_map_position(IVec3::zero(), &flat);
    assert_eq!(world.map_center(), IVec3::zero());
    world.update_map_position(IVec3::new(1, 1, 0), &flat);
    assert_eq!(world.map_center(), IVec3::new(1, 1, 0));
    assert_resident_is_window(&world);
}

#[test]
fn player_moves_drive_window() {
    let mut world = World::new(2, &flat);
    world.on_player_moved(IVec3::zero(), &flat);
    assert_eq!(world.map_center(), IVec3::zero());
    world.on_player_moved(IVec3::new(-3, 4, 0), &flat);
    assert_eq!(world.player_position(), IVec3::new(-3, 4, 0));
    assert_eq!(world.map_center(), IVec3::new(-3, 4, 0));
    assert_resident_is_window(&world);
    world.on_player_moved(IVec3::new(-2, 5, 1), &flat);
    assert_eq!(world.player_position(), IVec3::new(-2, 5, 1));
    assert_eq!(world.map_center(), IVec3::new(-3, 4, 0));
    world.on_player_moved(IVec3::new(-2, 5, 0), &flat);
    assert_eq!(world.map_center(), IVec3::new(-2, 5, 0));
    assert_resident_is_window(&world);
}

use voxels::physics::{
    position_of, to_index, to_user_data, to_voxel, voxel_world_radius, voxel_world_size, Collider,
    Interaction, Physics, Vector,
    FIRE_BUTTON, FRICTION_BITS, GRAVITY_Y_BITS, LAUNCH_SPEED, MAX_RAY_DISTANCE, MAX_STEP_NANOS,
    RESTITUTION_BITS, STRUCK,
};
use voxels::scalar::Scalar;
use voxels::voxel::{new_zero_buf, ZERO};

fn scalar(value: f32) -> Scalar {
    Scalar::from_bits(value.to_bits())
}

fn vector(x: f32, y: f32, z: f32) -> Vector {
    Vector { x: scalar(x), y: scalar(y), z: scalar(z) }
}

fn grid(size: usize, solid: &[(usize, usize, usize, [u8; 4])]) -> Vec<[u8; 4]> {
    let mut voxels = new_zero_buf(size);
    for (x, y, z, voxel) in solid {
        voxels[x + y * size + z * size * size] = *voxel;
    }
    voxels
}

fn translations(physics: &Physics) -> Vec<Vector> {
    (0..physics.len()).map(|i| physics.collider(i).translation).collect()
}

#[test]
fn tuning_constants_are_the_documented_numbers() {
    assert_eq!(FRICTION_BITS, 0.8f32.to_bits());
    assert_eq!(RESTITUTION_BITS, 0.3f32.to_bits());
    assert_eq!(GRAVITY_Y_BITS, (-9.81f32).to_bits());
    assert_eq!(LAUNCH_SPEED, 10);
    assert_eq!(MAX_RAY_DISTANCE, 300);
    assert_eq!(MAX_STEP_NANOS, 500_000_000);
    assert_eq!(STRUCK, 0xFFFF_FFFF);
    assert_eq!(FIRE_BUTTON, 1);
}

#[test]
fn user_data_packs_the_four_bytes() {
    assert_eq!(to_user_data([0, 0, 0, 0]), 0);
    assert_eq!(to_user_data([1, 2, 3, 4]), 0x0403_0201);
    assert_eq!(to_user_data([255, 255, 255, 255]), 0xFFFF_FFFF);
    assert_eq!(to_user_data([0x12, 0x34, 0x56, 0x78]), 0x7856_3412);
}

#[test]
fn user_data_unpacks_to_the_voxel() {
    assert_eq!(to_voxel(0x0403_0201), [1, 2, 3, 4]);
    assert_eq!(to_voxel(STRUCK), [255, 255, 255, 255]);
    assert_eq!(to_voxel(0xAB_0000_0000_0403_0201), [1, 2, 3, 4]);
    for voxel in [[0u8, 0, 0, 0], [9, 8, 7, 6], [255, 0, 255, 1], [1, 255, 0, 255]] {
        assert_eq!(to_voxel(to_user_data(voxel)), voxel);
    }
}

#[test]
fn voxel_world_size_divides_the_world() {
    assert_eq!(voxel_world_size(1).to_bits(), 512.0f32.to_bits());
    assert_eq!(voxel_world_size(64).to_bits(), 8.0f32.to_bits());
    assert_eq!(voxel_world_radius(64).to_bits(), 4.0f32.to_bits());
    for size in [1usize, 2, 3, 5, 64, 100, 255, 512, 1000, 4_000_000] {
        let expected = 512.0 / size as f32;
        assert_eq!(voxel_world_size(size).to_bits(), expected.to_bits());
        assert_eq!(voxel_world_radius(size).to_bits(), (expected * 0.5).to_bits());
    }
}

#[test]
fn position_of_is_the_voxel_center() {
    assert_eq!(position_of(0, 0, 0, 2), vector(128.0, 128.0, 128.0));
    assert_eq!(position_of(1, 0, 1, 2), vector(384.0, 128.0, 384.0));
    assert_eq!(position_of(3, 63, 10, 64), vector(28.0, 508.0, 84.0));
}

#[test]
fn index_and_position_are_inverse() {
    for size in [1usize, 2, 3, 5, 8, 13] {
        for z in 0..size {
            for y in 0..size {
                for x in 0..size {
                    assert_eq!(to_index(position_of(x, y, z, size), size), Some((x, y, z)));
                }
            }
        }
    }
}

#[test]
fn to_index_checks_every_axis() {
    assert_eq!(to_index(vector(0.0, 0.0, 0.0), 4), Some((0, 0, 0)));
    assert_eq!(to_index(vector(511.0, 128.0, 256.0), 4), Some((3, 1, 2)));
    assert_eq!(to_index(vector(512.0, 128.0, 256.0), 4), None);
    assert_eq!(to_index(vector(1.0, -0.5, 256.0), 4), None);
    assert_eq!(to_index(vector(1.0, 0.5, f32::NAN), 4), None);
    assert_eq!(to_index(vector(-0.0, -0.0, -0.0), 4), Some((0, 0, 0)));
}

#[test]
fn new_builds_one_collider_for_each_solid_voxel() {
    let size = 4;
    let voxels = grid(
        size,
        &[
            (3, 3, 3, [1, 2, 3, 255]),
            (0, 0, 0, [4, 5, 6, 1]),
            (1, 3, 0, [7, 8, 9, 200]),
            (2, 1, 1, [0, 0, 0, 7]),
        ],
    );
    let physics = Physics::new(&voxels, size);
    assert_eq!(physics.len(), 4);
    let expected = [
        (0usize, 0usize, 0usize, [4u8, 5, 6, 1]),
        (1, 3, 0, [7, 8, 9, 200]),
        (2, 1, 1, [0, 0, 0, 7]),
        (3, 3, 3, [1, 2, 3, 255]),
    ];
    for (i, (x, y, z, voxel)) in expected.iter().enumerate() {
        let collider = physics.collider(i);
        assert_eq!(collider.translation, position_of(*x, *y, *z, size));
        assert_eq!(collider.user_data, to_user_data(*voxel));
        assert_eq!(collider.dynamic, *y == size - 1);
    }
}

#[test]
fn new_ignores_the_colour_of_empty_cells() {
    let voxels = grid(2, &[(0, 0, 0, [9, 9, 9, 0]), (1, 1, 1, [1, 1, 1, 1])]);
    let physics = Physics::new(&voxels, 2);
    assert_eq!(physics.len(), 1);
    assert_eq!(physics.collider(0).user_data, 0x0101_0101);
    assert!(physics.collider(0).dynamic);
}

#[test]
fn set_voxels_discards_the_old_world() {
    let mut physics = Physics::new(&grid(2, &[(0, 0, 0, [1, 1, 1, 1])]), 2);
    physics.input(Some(0), vector(0.0, 0.0, 1.0));
    let voxels = grid(4, &[(1, 2, 3, [5, 6, 7, 8]), (2, 2, 3, [1, 2, 3, 4])]);
    physics.set_voxels(&voxels, 4);
    assert_eq!(physics.len(), 2);
    assert_eq!(physics.collider(0).translation, position_of(1, 2, 3, 4));
    assert_eq!(physics.collider(0).user_data, to_user_data([5, 6, 7, 8]));
    assert!(!physics.collider(0).dynamic);
    assert_eq!(physics.collider(1).user_data, to_user_data([1, 2, 3, 4]));
}

#[test]
fn round_trip_reproduces_the_solid_cells() {
    for size in [1usize, 2, 3, 4, 7] {
        let cells = size * size * size;
        let voxels: Vec<[u8; 4]> = (0..cells)
            .map(|i| [(i * 7) as u8, (i * 13) as u8, (i * 29) as u8, ((i * 5) % 3) as u8])
            .collect();
        let mut physics = Physics::new(&voxels, size);
        let before = physics.len();
        let mut written = vec![[7u8, 7, 7, 7]; cells];
        let evicted = physics.write_voxels(size, &mut written);
        assert!(evicted.is_empty());
        assert_eq!(physics.len(), before);
        for i in 0..cells {
            if voxels[i][3] != 0 {
                assert_eq!(written[i], voxels[i]);
            } else {
                assert_eq!(written[i], ZERO);
            }
        }
    }
}

#[test]
fn write_back_twice_gives_the_same_grid() {
    let size = 3;
    let voxels = grid(size, &[(0, 1, 2, [1, 2, 3, 4]), (2, 2, 2, [5, 6, 7, 8])]);
    let mut physics = Physics::new(&voxels, size);
    physics.insert(Collider {
        translation: vector(-1.0, 0.0, 0.0),
        user_data: 1,
        dynamic: true,
    });
    let mut first = new_zero_buf(size);
    assert_eq!(physics.write_voxels(size, &mut first), vec![2]);
    let mut second = vec![[3u8, 3, 3, 3]; 27];
    assert!(physics.write_voxels(size, &mut second).is_empty());
    assert_eq!(first, second);
}

#[test]
fn eviction_removes_what_left_the_world() {
    let size = 4;
    let voxels = grid(size, &[(1, 1, 1, [1, 2, 3, 4]), (2, 3, 1, [5, 6, 7, 8])]);
    let outside = [
        vector(-0.001, 10.0, 10.0),
        vector(10.0, 512.0, 10.0),
        vector(10.0, 10.0, 600.0),
        vector(f32::NAN, 10.0, 10.0),
        vector(10.0, f32::INFINITY, 10.0),
        vector(10.0, 10.0, f32::NEG_INFINITY),
    ];
    for translation in outside {
        let mut physics = Physics::new(&voxels, size);
        physics.insert(Collider { translation, user_data: 0xFFFF_FFFF, dynamic: true });
        assert_eq!(physics.len(), 3);
        let mut written = new_zero_buf(size);
        let evicted = physics.write_voxels(size, &mut written);
        assert_eq!(evicted, vec![2]);
        assert_eq!(physics.len(), 2);
        assert_eq!(written, voxels);
        assert!(written.iter().all(|voxel| *voxel != [255, 255, 255, 255]));
    }
}

#[test]
fn eviction_reports_places_in_ascending_order() {
    let mut physics = Physics::new(&new_zero_buf(2), 2);
    let inside = Collider { translation: vector(1.0, 1.0, 1.0), user_data: 5, dynamic: false };
    let outside = Collider { translation: vector(1.0, -1.0, 1.0), user_data: 6, dynamic: true };
    for collider in [outside, inside, outside, outside, inside] {
        physics.insert(collider);
    }
    let mut written = new_zero_buf(2);
    assert_eq!(physics.write_voxels(2, &mut written), vec![0, 2, 3]);
    assert_eq!(physics.len(), 2);
    assert_eq!(physics.collider(0), inside);
    assert_eq!(physics.collider(1), inside);
}

#[test]
fn later_collider_wins_a_shared_cell() {
    let mut physics = Physics::new(&new_zero_buf(2), 2);
    physics.insert(Collider { translation: vector(300.0, 10.0, 10.0), user_data: 0x0101_0101, dynamic: true });
    physics.insert(Collider { translation: vector(500.0, 200.0, 100.0), user_data: 0x0202_0202, dynamic: true });
    let mut written = new_zero_buf(2);
    assert!(physics.write_voxels(2, &mut written).is_empty());
    assert_eq!(written[1], [2, 2, 2, 2]);
    assert_eq!(written.iter().filter(|voxel| **voxel != ZERO).count(), 1);
}

#[test]
fn update_takes_over_the_translations() {
    let size = 2;
    let voxels = grid(size, &[(0, 0, 0, [1, 2, 3, 4]), (1, 1, 1, [5, 6, 7, 8])]);
    let mut physics = Physics::new(&voxels, size);
    let moved = vec![vector(300.0, 100.0, 100.0), vector(1.0, 2.0, 3.0)];
    physics.update(&moved);
    assert_eq!(physics.len(), 2);
    assert_eq!(physics.collider(0).translation, moved[0]);
    assert_eq!(physics.collider(0).user_data, to_user_data([1, 2, 3, 4]));
    assert!(!physics.collider(0).dynamic);
    assert_eq!(physics.collider(1).translation, moved[1]);
    assert!(physics.collider(1).dynamic);
    let mut written = new_zero_buf(size);
    assert!(physics.write_voxels(size, &mut written).is_empty());
    assert_eq!(written, grid(size, &[(1, 0, 0, [1, 2, 3, 4]), (0, 0, 0, [5, 6, 7, 8])]));
}

#[test]
fn update_with_unchanged_translations_changes_nothing() {
    let size = 3;
    let voxels = grid(size, &[(0, 2, 0, [1, 2, 3, 4]), (1, 1, 1, [5, 6, 7, 8])]);
    let mut physics = Physics::new(&voxels, size);
    let same = translations(&physics);
    for _ in 0..5 {
        physics.update(&same);
        let mut written = new_zero_buf(size);
        assert!(physics.write_voxels(size, &mut written).is_empty());
        assert_eq!(written, voxels);
    }
}

#[test]
fn time_step_is_clamped_to_half_a_second() {
    assert_eq!(Physics::time_step(0), 0);
    assert_eq!(Physics::time_step(16_666_667), 16_666_667);
    assert_eq!(Physics::time_step(500_000_000), 500_000_000);
    assert_eq!(Physics::time_step(500_000_001), 500_000_000);
    assert_eq!(Physics::time_step(u64::MAX), 500_000_000);
}

#[test]
fn only_the_pressed_fire_button_fires() {
    assert!(Physics::fires(1, true));
    assert!(!Physics::fires(1, false));
    assert!(!Physics::fires(0, true));
    assert!(!Physics::fires(2, true));
}

#[test]
fn a_ray_detaches_a_static_voxel() {
    let size = 2;
    let voxels = grid(size, &[(0, 0, 0, [1, 2, 3, 4])]);
    let mut physics = Physics::new(&voxels, size);
    assert!(!physics.collider(0).dynamic);
    let direction = vector(0.0, 0.0, 1.0);
    let interaction = physics.input(Some(0), direction);
    assert_eq!(interaction, Interaction::Detach { collider: 0, direction, speed: 10 });
    assert_eq!(physics.len(), 1);
    let struck = physics.collider(0);
    assert!(struck.dynamic);
    assert_eq!(struck.user_data, STRUCK);
    assert_eq!(struck.translation, position_of(0, 0, 0, size));
    let dynamic = (0..physics.len()).filter(|i| physics.collider(*i).dynamic).count();
    assert_eq!(dynamic, 1);
}

#[test]
fn a_ray_redirects_a_dynamic_voxel() {
    let size = 2;
    let voxels = grid(size, &[(0, 1, 0, [1, 2, 3, 4]), (1, 0, 1, [5, 6, 7, 8])]);
    let mut physics = Physics::new(&voxels, size);
    let direction = vector(0.6, -0.8, 0.0);
    let interaction = physics.input(Some(0), direction);
    assert_eq!(interaction, Interaction::Redirect { collider: 0, direction, speed: 10 });
    assert_eq!(physics.collider(0).user_data, STRUCK);
    assert!(physics.collider(0).dynamic);
    assert_eq!(physics.collider(1).user_data, to_user_data([5, 6, 7, 8]));
    assert!(!physics.collider(1).dynamic);
}

#[test]
fn a_miss_changes_nothing() {
    let size = 2;
    let voxels = grid(size, &[(0, 0, 0, [1, 2, 3, 4])]);
    let mut physics = Physics::new(&voxels, size);
    let before = physics.collider(0);
    assert_eq!(physics.input(None, vector(0.0, 0.0, 1.0)), Interaction::Miss);
    assert_eq!(physics.input(Some(1), vector(0.0, 0.0, 1.0)), Interaction::Miss);
    assert_eq!(physics.input(Some(usize::MAX), vector(0.0, 0.0, 1.0)), Interaction::Miss);
    assert_eq!(physics.len(), 1);
    assert_eq!(physics.collider(0), before);
}

#[test]
fn a_struck_voxel_is_written_back_in_full_bits() {
    let size = 2;
    let voxels = grid(size, &[(1, 0, 1, [1, 2, 3, 4])]);
    let mut physics = Physics::new(&voxels, size);
    physics.input(Some(0), vector(1.0, 0.0, 0.0));
    let mut written = new_zero_buf(size);
    assert!(physics.write_voxels(size, &mut written).is_empty());
    assert_eq!(written, grid(size, &[(1, 0, 1, [255, 255, 255, 255])]));
}

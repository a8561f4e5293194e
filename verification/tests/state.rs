use voxels::physics::{position_of, Interaction, Vector};
use voxels::scalar::Scalar;
use voxels::state::{check_resolution, checked_volume, power_of_two, ConfigError, State};
use voxels::ui::AppEvent;
use voxels::voxel::{caves, ZERO};

fn scalar(value: f32) -> Scalar {
    Scalar::from_bits(value.to_bits())
}

fn ramp(size: usize) -> Vec<Scalar> {
    let cells = size * size * size;
    (0..cells).map(|i| scalar(i as f32 / cells as f32)).collect()
}

fn translations(state: &State) -> Vec<Vector> {
    let physics = state.physics();
    (0..physics.len()).map(|i| physics.collider(i).translation).collect()
}

#[test]
fn app_event_requests_a_redraw() {
    let event = AppEvent::RequestRedraw;
    assert_eq!(event, AppEvent::RequestRedraw);
    assert!(matches!(event.clone(), AppEvent::RequestRedraw));
}

#[test]
fn power_of_two_tells_the_powers() {
    for n in 0..1025usize {
        assert_eq!(power_of_two(n), n.is_power_of_two(), "{}", n);
    }
    assert!(power_of_two(1 << 40));
    assert!(!power_of_two((1 << 40) + 1));
    assert!(!power_of_two(usize::MAX));
}

#[test]
fn checked_volume_is_the_cube_where_it_fits() {
    assert_eq!(checked_volume(0), Some(0));
    assert_eq!(checked_volume(4), Some(64));
    assert_eq!(checked_volume(512), Some(134_217_728));
    assert_eq!(checked_volume(usize::MAX), None);
    assert_eq!(checked_volume(1 << 22), None);
    assert_eq!(checked_volume(1 << 21), Some(1 << 63));
}

#[test]
fn check_resolution_names_the_first_fault() {
    assert_eq!(check_resolution(0), Err(ConfigError::NotPositive));
    assert_eq!(check_resolution(3), Err(ConfigError::NotPowerOfTwo));
    assert_eq!(check_resolution(100), Err(ConfigError::NotPowerOfTwo));
    assert_eq!(check_resolution(usize::MAX), Err(ConfigError::NotPowerOfTwo));
    assert_eq!(check_resolution(1 << 22), Err(ConfigError::TooLarge));
    assert_eq!(check_resolution(1 << 63), Err(ConfigError::TooLarge));
    assert_eq!(check_resolution(1), Ok(1));
    assert_eq!(check_resolution(2), Ok(8));
    assert_eq!(check_resolution(64), Ok(262_144));
}

#[test]
fn new_state_generates_and_builds() {
    let size = 4;
    let noise = ramp(size);
    let threshold = scalar(0.25);
    let mut state = State::new(size, &noise, threshold).unwrap();
    assert_eq!(state.voxel_resolution(), size);
    assert_eq!(*state.current_voxel_grid(), caves(size, &noise, threshold).unwrap());
    assert_eq!(state.physics().len(), 47);
    assert_eq!(state.physics().collider(0).translation, position_of(1, 0, 1, size));
    assert_eq!(state.resolution_changed(), None);
}

#[test]
fn new_state_refuses_what_is_wrong() {
    assert!(matches!(State::new(0, &Vec::new(), scalar(0.6)), Err(ConfigError::NotPositive)));
    assert!(matches!(State::new(0, &ramp(2), scalar(0.6)), Err(ConfigError::NotPositive)));
    assert!(matches!(State::new(3, &ramp(3), scalar(0.6)), Err(ConfigError::NotPowerOfTwo)));
    assert!(matches!(State::new(1 << 30, &ramp(2), scalar(0.6)), Err(ConfigError::TooLarge)));
    assert!(matches!(State::new(4, &ramp(2), scalar(0.6)), Err(ConfigError::SizeMismatch)));
    assert!(matches!(State::new(2, &Vec::new(), scalar(0.6)), Err(ConfigError::SizeMismatch)));
    assert!(State::new(2, &ramp(2), scalar(0.6)).is_ok());
}

#[test]
fn set_voxel_resolution_rebuilds_and_tells_the_renderer_once() {
    let mut state = State::new(2, &ramp(2), scalar(0.5)).unwrap();
    state.input(Some(0), Vector { x: scalar(0.0), y: scalar(0.0), z: scalar(1.0) });
    let noise = ramp(4);
    assert_eq!(state.set_voxel_resolution(4, &noise, scalar(0.75)), Ok(()));
    assert_eq!(state.voxel_resolution(), 4);
    assert_eq!(*state.current_voxel_grid(), caves(4, &noise, scalar(0.75)).unwrap());
    assert_eq!(state.physics().len(), 15);
    assert!((0..15).all(|i| state.physics().collider(i).user_data != 0xFFFF_FFFF));
    assert_eq!(state.resolution_changed(), Some(4));
    assert_eq!(state.resolution_changed(), None);
}

#[test]
fn a_refused_resolution_changes_nothing() {
    let noise = ramp(2);
    let mut state = State::new(2, &noise, scalar(0.5)).unwrap();
    let grid = state.current_voxel_grid().clone();
    let faults = [
        (0usize, ramp(2), ConfigError::NotPositive),
        (6, ramp(6), ConfigError::NotPowerOfTwo),
        (1 << 25, ramp(2), ConfigError::TooLarge),
        (4, ramp(3), ConfigError::SizeMismatch),
    ];
    for (size, noise, fault) in faults {
        assert_eq!(state.set_voxel_resolution(size, &noise, scalar(0.1)), Err(fault));
        assert_eq!(state.voxel_resolution(), 2);
        assert_eq!(*state.current_voxel_grid(), grid);
        assert_eq!(state.physics().len(), 3);
        assert_eq!(state.resolution_changed(), None);
    }
}

#[test]
fn with_voxels_takes_a_grid_over() {
    let noise = ramp(4);
    let grid = caves(4, &noise, scalar(0.5)).unwrap();
    let mut state = State::with_voxels(4, grid.clone()).unwrap();
    assert_eq!(*state.current_voxel_grid(), grid);
    assert_eq!(state.physics().len(), 31);
    assert_eq!(state.resolution_changed(), None);
    assert!(matches!(State::with_voxels(0, Vec::new()), Err(ConfigError::NotPositive)));
    assert!(matches!(State::with_voxels(5, vec![ZERO; 125]), Err(ConfigError::NotPowerOfTwo)));
    assert!(matches!(State::with_voxels(1 << 22, Vec::new()), Err(ConfigError::TooLarge)));
    assert!(matches!(State::with_voxels(4, vec![ZERO; 63]), Err(ConfigError::SizeMismatch)));
    assert_eq!(state.set_voxels(2, vec![[1, 2, 3, 4]; 8]), Ok(()));
    assert_eq!(state.voxel_resolution(), 2);
    assert_eq!(state.physics().len(), 8);
    assert_eq!(state.resolution_changed(), Some(2));
    assert_eq!(state.set_voxels(2, vec![ZERO; 9]), Err(ConfigError::SizeMismatch));
    assert_eq!(state.physics().len(), 8);
    assert_eq!(state.resolution_changed(), None);
}

#[test]
fn update_writes_the_world_back_and_evicts() {
    let size = 2;
    let mut state = State::new(size, &ramp(size), scalar(0.5)).unwrap();
    let generated = state.current_voxel_grid().clone();
    assert_eq!(state.physics().len(), 3);
    let still = translations(&state);
    assert!(state.update(&still).is_empty());
    assert_eq!(*state.current_voxel_grid(), generated);

    let mut moved = still.clone();
    moved[1].y = scalar(-3.0);
    assert_eq!(state.update(&moved), vec![1]);
    assert_eq!(state.physics().len(), 2);
    let grid = state.current_voxel_grid();
    assert_eq!(grid[5], generated[5]);
    assert_eq!(grid[6], ZERO);
    assert_eq!(grid[7], generated[7]);
    assert_eq!(state.voxel_resolution(), size);
}

#[test]
fn input_marks_the_struck_collider() {
    let size = 2;
    let mut state = State::new(size, &ramp(size), scalar(0.5)).unwrap();
    let direction = Vector { x: scalar(1.0), y: scalar(0.0), z: scalar(0.0) };
    assert_eq!(state.input(None, direction), Interaction::Miss);
    assert_eq!(state.input(Some(3), direction), Interaction::Miss);
    assert_eq!(
        state.input(Some(0), direction),
        Interaction::Detach { collider: 0, direction, speed: 10 }
    );
    assert_eq!(
        state.input(Some(0), direction),
        Interaction::Redirect { collider: 0, direction, speed: 10 }
    );
    let still = translations(&state);
    assert!(state.update(&still).is_empty());
    assert_eq!(state.current_voxel_grid()[5], [255, 255, 255, 255]);
}

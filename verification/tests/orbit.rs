use nalgebra_glm as glm;
use scenegraph::entity::{Entity, EntityRegistry};
use scenegraph::orbit::{
    OrbitCameraController, OrbitInput, OrbitState, Point, FULL_TURN, MIN_DISTANCE, PITCH_LIMIT,
    QUARTER_TURN,
};
use scenegraph::propagate::propagate;
use scenegraph::transform::TransformStore;

#[derive(Clone, Debug, PartialEq)]
struct Local {
    translation: glm::Vec3,
    rotation: glm::Quat,
}

const ORIGIN: Point = Point { x: 0, y: 0, z: 0 };
const STILL: OrbitInput = OrbitInput { yaw_delta: 0, pitch_delta: 0, zoom_delta: 0 };

fn look_direction(s: &OrbitState) -> glm::Vec3 {
    let yaw = (s.yaw as f32 / 1000.0).to_radians();
    let pitch = (s.pitch as f32 / 1000.0).to_radians();
    -glm::vec3(pitch.cos() * yaw.cos(), pitch.sin(), pitch.cos() * yaw.sin())
}

/// The camera sits on the sphere around the target and faces the target.
fn pose(s: &OrbitState) -> Local {
    let target = glm::vec3(
        s.target.x as f32 / 1000.0,
        s.target.y as f32 / 1000.0,
        s.target.z as f32 / 1000.0,
    );
    let towards = look_direction(s);
    let translation = target - towards * (s.distance as f32 / 1000.0);
    let rotation = glm::quat_inverse(&glm::quat_look_at(&towards, &glm::vec3(0.0, 1.0, 0.0)));
    Local { translation, rotation }
}

fn to_matrix(l: &Local) -> glm::Mat4 {
    glm::translation(&l.translation) * glm::quat_to_mat4(&l.rotation)
}

fn combine(parent: &glm::Mat4, local: &glm::Mat4) -> glm::Mat4 {
    parent * local
}

fn near(a: &glm::Vec3, b: &glm::Vec3) -> bool {
    (a - b).norm() < 1e-5
}

type Store = TransformStore<Local, glm::Mat4>;

fn rig() -> (EntityRegistry, Store, OrbitCameraController) {
    (EntityRegistry::new(), Store::new(), OrbitCameraController::new())
}

fn state(distance: u32, yaw: i32, pitch: i32) -> OrbitState {
    OrbitState::new(ORIGIN, distance, yaw, pitch)
}

#[test]
fn zero_input_keeps_camera_on_reference_axis() {
    let (mut reg, mut store, mut ctl) = rig();
    let cam = ctl.spawn_orbit_camera(&mut reg, &mut store, ORIGIN, 8000, 0, 0, pose);
    let after = ctl.update(&reg, &mut store, cam, STILL, pose);
    assert_eq!(
        after,
        Some(OrbitState { target: ORIGIN, distance: 8000, yaw: 0, pitch: 0 })
    );
    let local = store.get(&reg, cam).unwrap().clone();
    assert_eq!(local.translation, glm::vec3(8.0, 0.0, 0.0));
    // The camera looks down its negative z axis: that axis points at the origin.
    let forward = glm::quat_rotate_vec3(&local.rotation, &glm::vec3(0.0, 0.0, -1.0));
    assert!(near(&forward, &glm::vec3(-1.0, 0.0, 0.0)));
    assert!(near(&(local.translation + forward * 8.0), &glm::vec3(0.0, 0.0, 0.0)));

    assert!(store.is_dirty(&reg, cam));
    assert_eq!(propagate(&mut store, to_matrix, combine), Ok(()));
    let world = store.world_matrix(&reg, cam).unwrap();
    assert_eq!((world[(0, 3)], world[(1, 3)], world[(2, 3)]), (8.0, 0.0, 0.0));
}

#[test]
fn spawn_registers_state_and_root_transform() {
    let (mut reg, mut store, mut ctl) = rig();
    let target = Point { x: 1000, y: 2000, z: 3000 };
    let cam = ctl.spawn_orbit_camera(&mut reg, &mut store, target, 5000, 90_000, 0, pose);
    assert!(reg.is_alive(cam));
    assert_eq!(
        ctl.orbit_state(&reg, cam),
        Some(OrbitState { target, distance: 5000, yaw: 90_000, pitch: 0 })
    );
    assert!(store.contains(cam));
    assert_eq!(store.parent(&reg, cam), None);
    assert!(store.is_dirty(&reg, cam));
    let local = store.get(&reg, cam).unwrap();
    assert!(near(&local.translation, &glm::vec3(1.0, 2.0, 8.0)));
}

#[test]
fn spawn_brings_requested_values_within_limits() {
    let (mut reg, mut store, mut ctl) = rig();
    let cam = ctl.spawn_orbit_camera(&mut reg, &mut store, ORIGIN, 0, -90_000, 120_000, pose);
    assert_eq!(
        ctl.orbit_state(&reg, cam),
        Some(OrbitState { target: ORIGIN, distance: MIN_DISTANCE, yaw: 270_000, pitch: PITCH_LIMIT })
    );
}

#[test]
fn pitch_clamps_short_of_the_poles() {
    let up = state(8000, 0, 0).advance(OrbitInput { pitch_delta: 200_000, ..STILL });
    assert_eq!(up.pitch, 89_000);
    assert!(up.pitch < QUARTER_TURN);
    let down = state(8000, 0, 0).advance(OrbitInput { pitch_delta: -200_000, ..STILL });
    assert_eq!(down.pitch, -89_000);
    assert!(down.pitch > -QUARTER_TURN);
    let edge = state(8000, 0, 88_999).advance(OrbitInput { pitch_delta: 1, ..STILL });
    assert_eq!(edge.pitch, 89_000);
    let over = state(8000, 0, 88_999).advance(OrbitInput { pitch_delta: 2, ..STILL });
    assert_eq!(over.pitch, 89_000);
    let extreme = state(8000, 0, 89_000).advance(OrbitInput { pitch_delta: i32::MAX, ..STILL });
    assert_eq!(extreme.pitch, 89_000);
    let other = state(8000, 0, -89_000).advance(OrbitInput { pitch_delta: i32::MIN, ..STILL });
    assert_eq!(other.pitch, -89_000);
}

#[test]
fn pitch_within_limits_is_the_sum() {
    let s = state(8000, 0, 10_000).advance(OrbitInput { pitch_delta: -25_500, ..STILL });
    assert_eq!(s.pitch, -15_500);
}

#[test]
fn yaw_wraps_modulo_a_full_turn() {
    let fwd = state(8000, 350_000, 0).advance(OrbitInput { yaw_delta: 20_000, ..STILL });
    assert_eq!(fwd.yaw, 10_000);
    let back = state(8000, 10_000, 0).advance(OrbitInput { yaw_delta: -20_000, ..STILL });
    assert_eq!(back.yaw, 350_000);
    let exact = state(8000, 0, 0).advance(OrbitInput { yaw_delta: FULL_TURN, ..STILL });
    assert_eq!(exact.yaw, 0);
    let many = state(8000, 1, 0).advance(OrbitInput { yaw_delta: 7 * FULL_TURN + 5, ..STILL });
    assert_eq!(many.yaw, 6);
    let most = state(8000, 359_999, 0).advance(OrbitInput { yaw_delta: i32::MAX, ..STILL });
    assert_eq!(most.yaw as i64, (359_999i64 + i32::MAX as i64).rem_euclid(360_000));
    let least = state(8000, 0, 0).advance(OrbitInput { yaw_delta: i32::MIN, ..STILL });
    assert_eq!(least.yaw as i64, (i32::MIN as i64).rem_euclid(360_000));
    assert_eq!(least.yaw, 276_352);
}

#[test]
fn yaw_never_grows_over_a_long_session() {
    let mut s = state(8000, 0, 0);
    for _ in 0..10_000 {
        s = s.advance(OrbitInput { yaw_delta: 1_234, ..STILL });
        assert!(0 <= s.yaw && s.yaw < FULL_TURN);
    }
    assert_eq!(s.yaw as i64, (10_000i64 * 1_234).rem_euclid(360_000));
}

#[test]
fn distance_clamps_to_positive_minimum() {
    let closer = state(8000, 0, 0).advance(OrbitInput { zoom_delta: 3000, ..STILL });
    assert_eq!(closer.distance, 5000);
    let through = state(8000, 0, 0).advance(OrbitInput { zoom_delta: 8000, ..STILL });
    assert_eq!(through.distance, MIN_DISTANCE);
    let beyond = state(8000, 0, 0).advance(OrbitInput { zoom_delta: i32::MAX, ..STILL });
    assert_eq!(beyond.distance, 100);
    let away = state(8000, 0, 0).advance(OrbitInput { zoom_delta: -2000, ..STILL });
    assert_eq!(away.distance, 10_000);
    let far = state(u32::MAX, 0, 0).advance(OrbitInput { zoom_delta: -1, ..STILL });
    assert_eq!(far.distance, u32::MAX);
    assert_eq!(state(0, 0, 0).distance, 100);
    assert_eq!(state(99, 0, 0).distance, 100);
    assert_eq!(state(101, 0, 0).distance, 101);
}

#[test]
fn new_state_is_normalized() {
    let s = OrbitState::new(Point { x: 1, y: -2, z: 3 }, 50, 725_000, -300_000);
    assert_eq!(
        s,
        OrbitState { target: Point { x: 1, y: -2, z: 3 }, distance: 100, yaw: 5_000, pitch: -89_000 }
    );
    let t = OrbitState::new(ORIGIN, 8000, -1, 89_000);
    assert_eq!(t, OrbitState { target: ORIGIN, distance: 8000, yaw: 359_999, pitch: 89_000 });
}

#[test]
fn update_moves_the_camera_and_marks_it_dirty() {
    let (mut reg, mut store, mut ctl) = rig();
    let cam = ctl.spawn_orbit_camera(&mut reg, &mut store, ORIGIN, 8000, 0, 0, pose);
    assert_eq!(propagate(&mut store, to_matrix, combine), Ok(()));
    assert!(!store.is_dirty(&reg, cam));
    let input = OrbitInput { yaw_delta: 90_000, pitch_delta: 0, zoom_delta: 4000 };
    let after = ctl.update(&reg, &mut store, cam, input, pose).unwrap();
    assert_eq!(after, OrbitState { target: ORIGIN, distance: 4000, yaw: 90_000, pitch: 0 });
    assert_eq!(ctl.orbit_state(&reg, cam), Some(after));
    assert!(store.is_dirty(&reg, cam));
    assert!(near(&store.get(&reg, cam).unwrap().translation, &glm::vec3(0.0, 0.0, 4.0)));
    // The world matrix lags until the next propagation.
    let world = store.world_matrix(&reg, cam).unwrap();
    assert_eq!((world[(0, 3)], world[(1, 3)], world[(2, 3)]), (8.0, 0.0, 0.0));
    assert_eq!(propagate(&mut store, to_matrix, combine), Ok(()));
    let world = store.world_matrix(&reg, cam).unwrap();
    assert!(near(&glm::vec3(world[(0, 3)], world[(1, 3)], world[(2, 3)]), &glm::vec3(0.0, 0.0, 4.0)));
}

#[test]
fn update_overrides_hand_edits() {
    let (mut reg, mut store, mut ctl) = rig();
    let cam = ctl.spawn_orbit_camera(&mut reg, &mut store, ORIGIN, 8000, 0, 0, pose);
    store.get_mut(&reg, cam).unwrap().translation = glm::vec3(50.0, 50.0, 50.0);
    assert!(ctl.update(&reg, &mut store, cam, STILL, pose).is_some());
    assert_eq!(store.get(&reg, cam).unwrap().translation, glm::vec3(8.0, 0.0, 0.0));
}

#[test]
fn update_ignores_strangers_and_the_dead() {
    let (mut reg, mut store, mut ctl) = rig();
    let cam = ctl.spawn_orbit_camera(&mut reg, &mut store, ORIGIN, 8000, 0, 0, pose);
    let plain = reg.spawn();
    assert!(store.insert(&reg, plain, pose(&state(1000, 0, 0)), None).is_ok());
    let turn = OrbitInput { yaw_delta: 1000, ..STILL };
    assert_eq!(ctl.update(&reg, &mut store, plain, turn, pose), None);
    assert_eq!(ctl.update(&reg, &mut store, Entity::new(40, 0), turn, pose), None);
    assert!(reg.despawn(cam).is_ok());
    assert_eq!(ctl.update(&reg, &mut store, cam, turn, pose), None);
    assert_eq!(ctl.orbit_state(&reg, cam), None);
}

#[test]
fn update_without_transform_does_nothing() {
    let (mut reg, mut store, mut ctl) = rig();
    let cam = ctl.spawn_orbit_camera(&mut reg, &mut store, ORIGIN, 8000, 0, 0, pose);
    assert!(store.remove(cam));
    let turn = OrbitInput { yaw_delta: 1000, ..STILL };
    assert_eq!(ctl.update(&reg, &mut store, cam, turn, pose), None);
    assert_eq!(ctl.orbit_state(&reg, cam).unwrap().yaw, 0);
    assert!(!store.contains(cam));
}

#[test]
fn detach_stops_steering() {
    let (mut reg, mut store, mut ctl) = rig();
    let cam = ctl.spawn_orbit_camera(&mut reg, &mut store, ORIGIN, 8000, 0, 0, pose);
    assert!(ctl.detach(cam));
    assert!(!ctl.detach(cam));
    assert_eq!(ctl.orbit_state(&reg, cam), None);
    assert_eq!(ctl.update(&reg, &mut store, cam, STILL, pose), None);
    // Entity and transform live on.
    assert!(reg.is_alive(cam));
    assert!(store.contains(cam));
}

#[test]
fn camera_in_reused_slot_starts_afresh() {
    let (mut reg, mut store, mut ctl) = rig();
    let first = ctl.spawn_orbit_camera(&mut reg, &mut store, ORIGIN, 8000, 10_000, 0, pose);
    assert!(reg.despawn(first).is_ok());
    let second = ctl.spawn_orbit_camera(&mut reg, &mut store, ORIGIN, 3000, 20_000, 0, pose);
    assert_eq!(second.index, first.index);
    assert_eq!(ctl.orbit_state(&reg, first), None);
    assert_eq!(ctl.orbit_state(&reg, second).unwrap().distance, 3000);
    assert!(!store.contains(first));
    assert!(!ctl.detach(first));
}

#[test]
fn two_cameras_are_steered_apart() {
    let (mut reg, mut store, mut ctl) = rig();
    let a = ctl.spawn_orbit_camera(&mut reg, &mut store, ORIGIN, 8000, 0, 0, pose);
    let b = ctl.spawn_orbit_camera(&mut reg, &mut store, ORIGIN, 2000, 0, 0, pose);
    let turn = OrbitInput { yaw_delta: 45_000, ..STILL };
    assert!(ctl.update(&reg, &mut store, a, turn, pose).is_some());
    assert_eq!(ctl.orbit_state(&reg, a).unwrap().yaw, 45_000);
    assert_eq!(ctl.orbit_state(&reg, b).unwrap().yaw, 0);
    assert_eq!(store.get(&reg, b).unwrap().translation, glm::vec3(2.0, 0.0, 0.0));
}

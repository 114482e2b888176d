use pathtracer::camera::{
    CameraController, ALTITUDE_DELTA_MICRO, MICRO_PI, MIN_DISTANCE_MICRO,
};
use pathtracer::driver::{Pathtracer, DEFAULT_MAX_SAMPLES};

#[test]
fn k_dispatches_give_sample_k_and_weight_one_over_k() {
    let mut pt = Pathtracer::new(800, 600);
    for k in 1..=64u32 {
        let d = pt.dispatch().expect("within budget");
        assert_eq!(pt.sample_count(), k);
        assert_eq!(d.sample, k);
        assert_eq!(d.weight_denominator, k);
        let weight = 1.0f32 / d.weight_denominator as f32;
        assert_eq!(weight, 1.0f32 / k as f32);
    }
}

#[test]
fn invalidate_then_dispatch_has_weight_exactly_one() {
    let mut pt = Pathtracer::new(800, 600);
    for _ in 0..10 {
        pt.dispatch();
    }
    pt.invalidate();
    assert_eq!(pt.sample_count(), 0);
    let d = pt.dispatch().unwrap();
    assert_eq!(d.sample, 1);
    assert_eq!(d.weight_denominator, 1);
    assert_eq!(1.0f32 / d.weight_denominator as f32, 1.0f32);
}

#[test]
fn dispatch_is_a_no_op_exactly_at_the_budget() {
    let mut pt = Pathtracer::new(64, 64);
    for _ in 0..DEFAULT_MAX_SAMPLES {
        assert!(pt.dispatch().is_some());
    }
    assert_eq!(pt.sample_count(), DEFAULT_MAX_SAMPLES);
    assert!(pt.dispatch().is_none());
    assert_eq!(pt.sample_count(), DEFAULT_MAX_SAMPLES);
    pt.invalidate();
    assert!(pt.dispatch().is_some());
}

#[test]
fn resize_to_same_dimensions_is_a_no_op() {
    let mut pt = Pathtracer::new(1000, 800);
    for _ in 0..5 {
        pt.dispatch();
    }
    let before = pt;
    pt.resize(1000, 800);
    assert_eq!(pt, before, "resize to identical dimensions must change nothing");
    pt.resize(1000, 801);
    assert_eq!(pt.sample_count(), 0);
    assert_eq!(pt.surface_height, 801);
}

#[test]
fn resolution_factor_change_resizes_output_and_resets() {
    let mut pt = Pathtracer::new(1000, 1000);
    for _ in 0..3 {
        pt.dispatch();
    }
    pt.set_resolution_factor_permille(500);
    // floor(1000 * 0.5 / 8) * 8 = 496 on both axes
    assert_eq!(pt.out_width, 496);
    assert_eq!(pt.out_height, 496);
    assert_eq!(pt.sample_count(), 0);
}

#[test]
fn workgroup_grid_covers_the_output() {
    let mut pt = Pathtracer::new(1000, 1000);
    pt.set_resolution_factor_permille(500);
    let d = pt.dispatch().unwrap();
    assert_eq!(d.groups_x, 62);
    assert_eq!(d.groups_y, 62);
    assert_eq!(d.groups_x * 8, pt.out_width);
}

#[test]
fn default_output_dimensions_are_multiples_of_eight() {
    let pt = Pathtracer::new(1234, 777);
    assert_eq!(pt.out_width % 8, 0);
    assert_eq!(pt.out_height % 8, 0);
    // floor(1234 * 0.3 / 8) * 8 = floor(370.2 / 8) * 8 = 46 * 8
    assert_eq!(pt.out_width, 368);
    // floor(777 * 0.3 / 8) * 8 = floor(233.1 / 8) * 8 = 29 * 8
    assert_eq!(pt.out_height, 232);
}

#[test]
fn bounce_change_invalidates() {
    let mut pt = Pathtracer::new(100, 100);
    pt.dispatch();
    pt.set_bounces(4);
    assert_eq!(pt.sample_count(), 0);
    assert_eq!(pt.bounces, 4);
    pt.set_bounces(1000);
    assert_eq!(pt.bounces, 32, "bounce budget clamps at the slider maximum");
}

#[test]
fn orbit_marks_camera_dirty_and_next_dispatch_restarts() {
    let mut camera = CameraController::new();
    let mut pt = Pathtracer::new(640, 480);
    // settle: first update consumes the initial dirty flag
    assert!(camera.update());
    assert!(!camera.update());
    for _ in 0..12 {
        pt.dispatch();
    }
    // one small orbit, as a mouse-wheel tick would produce
    camera.orbit(10_000, 0);
    assert!(camera.update(), "orbit must mark the camera dirty");
    pt.invalidate();
    let d = pt.dispatch().unwrap();
    assert_eq!(d.sample, 1);
    assert_eq!(d.weight_denominator, 1);
}

#[test]
fn orbit_clamps_altitude_and_wraps_yaw() {
    let mut camera = CameraController::new();
    camera.orbit(0, 100 * MICRO_PI);
    assert_eq!(camera.altitude_micro, ALTITUDE_DELTA_MICRO);
    camera.orbit(0, -100 * MICRO_PI);
    assert_eq!(camera.altitude_micro, MICRO_PI - ALTITUDE_DELTA_MICRO);
    camera.orbit(5 * MICRO_PI, 0);
    assert!(camera.yaw_micro.abs() < 2 * MICRO_PI);
}

#[test]
fn moving_the_target_translates_and_marks_dirty() {
    let mut camera = CameraController::new();
    camera.update();
    camera.move_target(pathtracer::geom::Vec3i { x: 1_000_000, y: -2_000_000, z: 0 });
    assert_eq!(camera.target.x, 1_000_000);
    assert_eq!(camera.target.y, -2_000_000);
    assert!(camera.is_dirty);
    assert!(camera.update());
}

#[test]
fn zoom_clamps_at_minimum_distance() {
    let mut camera = CameraController::new();
    let start = camera.distance_micro;
    camera.zoom(1_000_000);
    assert_eq!(camera.distance_micro, start - 1_000_000);
    camera.zoom(i64::MAX / 4);
    assert_eq!(camera.distance_micro, MIN_DISTANCE_MICRO);
    assert!(camera.is_dirty);
}

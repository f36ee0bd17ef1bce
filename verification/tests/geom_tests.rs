use waypoint::geom::COORD_LIMIT;
use waypoint::geom::PointerInput;
use waypoint::geom::SPEED;
use waypoint::geom::Vec2;
use waypoint::geom::Viewport;
use waypoint::geom::compute_target;
use waypoint::geom::isqrt;
use waypoint::geom::mirror_shift;
use waypoint::geom::screen_to_world;
use waypoint::geom::steer_step;

fn vp() -> Viewport {
    // 800x600 pixels at scale 1.0, in milli units.
    Viewport { width: 800_000, height: 600_000, scale: 1000 }
}

#[test]
fn screen_center_maps_to_world_origin() {
    let r = screen_to_world(Vec2 { x: 400_000, y: 300_000 }, &vp());
    assert_eq!(r, Vec2 { x: 0, y: 0 });
}

#[test]
fn screen_top_left_maps_to_half_extents() {
    let r = screen_to_world(Vec2 { x: 0, y: 0 }, &vp());
    assert_eq!(r, Vec2 { x: -400_000, y: 300_000 });
}

#[test]
fn screen_transform_divides_by_scale() {
    // Scale 2.0: the 800x600 viewport is 400x300 logical pixels.
    let scaled = Viewport { width: 800_000, height: 600_000, scale: 2000 };
    let center = screen_to_world(Vec2 { x: 400_000, y: 300_000 }, &scaled);
    assert_eq!(center, Vec2 { x: 0, y: 0 });
    let corner = screen_to_world(Vec2 { x: 0, y: 0 }, &scaled);
    assert_eq!(corner, Vec2 { x: -200_000, y: 150_000 });
}

#[test]
fn pointer_absent_gives_no_target() {
    let inp = PointerInput { move_active: true, pointer: None, viewport: vp() };
    assert_eq!(compute_target(&inp), None);
}

#[test]
fn pointer_present_gives_world_target() {
    let inp = PointerInput {
        move_active: true,
        pointer: Some(Vec2 { x: 500_000, y: 200_000 }),
        viewport: vp(),
    };
    assert_eq!(compute_target(&inp), Some(Vec2 { x: 100_000, y: 100_000 }));
}

#[test]
fn step_along_one_axis_moves_exactly_speed() {
    let r = steer_step(Vec2 { x: 0, y: 0 }, Vec2 { x: 100_000, y: 0 });
    assert_eq!(r, Vec2 { x: SPEED, y: 0 });
}

#[test]
fn step_diagonal_splits_speed_between_axes() {
    // 5 / sqrt(2) = 3.535... world units per axis.
    let r = steer_step(Vec2 { x: 0, y: 0 }, Vec2 { x: 100_000, y: 100_000 });
    assert_eq!(r, Vec2 { x: 3535, y: 3535 });
}

#[test]
fn step_within_one_speed_lands_on_target() {
    // Distance exactly 5 units (3-4-5 triangle).
    let r = steer_step(Vec2 { x: 0, y: 0 }, Vec2 { x: 3000, y: 4000 });
    assert_eq!(r, Vec2 { x: 3000, y: 4000 });
}

#[test]
fn step_at_target_stays_put() {
    let p = Vec2 { x: 1234, y: -567 };
    assert_eq!(steer_step(p, p), p);
}

#[test]
fn step_moves_toward_negative_targets_too() {
    let r = steer_step(Vec2 { x: 0, y: 0 }, Vec2 { x: -100_000, y: 0 });
    assert_eq!(r, Vec2 { x: -SPEED, y: 0 });
}

#[test]
fn isqrt_exact_values() {
    assert_eq!(isqrt(0), 0);
    assert_eq!(isqrt(1), 1);
    assert_eq!(isqrt(2), 1);
    assert_eq!(isqrt(4), 2);
    assert_eq!(isqrt(24), 4);
    assert_eq!(isqrt(25), 5);
    assert_eq!(isqrt(20_000_000_000), 141_421);
}

#[test]
fn mirror_shift_saturates_at_coordinate_range() {
    let near_edge = Vec2 { x: COORD_LIMIT - 1, y: 0 };
    let r = mirror_shift(near_edge, SPEED, -SPEED);
    assert_eq!(r, Vec2 { x: COORD_LIMIT, y: -SPEED });
}

use waypoint::geom::PointerInput;
use waypoint::geom::Vec2;
use waypoint::geom::Viewport;
use waypoint::steering::acquire_targets;
use waypoint::steering::advance_markers;
use waypoint::steering::integrate_motion;
use waypoint::tick;
use waypoint::world::Entity;
use waypoint::world::Movable;
use waypoint::world::World;

const MARKER_VISUAL: u32 = 2;

fn object_at(x: i64, y: i64) -> Entity {
    Entity {
        alive: true,
        is_marker: false,
        selected: false,
        pos: Some(Vec2 { x, y }),
        ui_pos: Some(Vec2 { x, y }),
        movable: Some(Movable::new()),
        link: None,
        visual: Some(0),
    }
}

fn vp() -> Viewport {
    Viewport { width: 800_000, height: 600_000, scale: 1000 }
}

/// Pointer held at the screen point that maps to world (100, 100).
fn move_to_100_100() -> PointerInput {
    PointerInput {
        move_active: true,
        pointer: Some(Vec2 { x: 500_000, y: 200_000 }),
        viewport: vp(),
    }
}

fn idle_input() -> PointerInput {
    PointerInput { move_active: false, pointer: None, viewport: vp() }
}

fn ordered_to(w: &World, id: usize) -> Option<Vec2> {
    w.entity_at(id).movable.unwrap().ordered_to
}

#[test]
fn scenario_select_command_and_move() {
    let mut w = World::new(MARKER_VISUAL);
    let a = w.spawn(object_at(0, 0));
    w.set_selected(a, true);

    tick(&mut w, &move_to_100_100()).unwrap();

    // The order was taken and one step of length 5 was walked toward it:
    // 5 / sqrt(2) = 3.535... world units per axis.
    assert_eq!(ordered_to(&w, a), Some(Vec2 { x: 100_000, y: 100_000 }));
    assert_eq!(w.entity_at(a).pos, Some(Vec2 { x: 3535, y: 3535 }));
    assert_eq!(w.entity_at(a).ui_pos, Some(Vec2 { x: 3535, y: 3535 }));

    // A marker exists, linked to the entity, at its pre-step position.
    let m = w.entity_at(a).link.expect("a marker should be linked");
    let marker = w.entity_at(m);
    assert!(marker.alive && marker.is_marker);
    assert_eq!(marker.pos, Some(Vec2 { x: 0, y: 0 }));
    assert_eq!(marker.visual, Some(MARKER_VISUAL));

    // Deselecting tears marker and link down within one tick.
    w.set_selected(a, false);
    tick(&mut w, &idle_input()).unwrap();
    assert!(!w.is_alive(m));
    assert_eq!(w.entity_at(a).link, None);
}

#[test]
fn marker_trails_toward_the_source_target() {
    let mut w = World::new(MARKER_VISUAL);
    let a = w.spawn(object_at(0, 0));
    w.set_selected(a, true);
    tick(&mut w, &move_to_100_100()).unwrap();
    let m = w.entity_at(a).link.unwrap();
    assert_eq!(w.entity_at(m).pos, Some(Vec2 { x: 0, y: 0 }));

    // The next tick advances the marker from its own position toward the
    // source's target, while the source keeps walking.
    tick(&mut w, &idle_input()).unwrap();
    assert_eq!(w.entity_at(m).pos, Some(Vec2 { x: 3535, y: 3535 }));
    assert_eq!(w.entity_at(a).pos, Some(Vec2 { x: 7070, y: 7070 }));
}

#[test]
fn released_command_keeps_the_standing_order() {
    let mut w = World::new(MARKER_VISUAL);
    let a = w.spawn(object_at(0, 0));
    w.set_selected(a, true);
    tick(&mut w, &move_to_100_100()).unwrap();
    tick(&mut w, &idle_input()).unwrap();
    assert_eq!(ordered_to(&w, a), Some(Vec2 { x: 100_000, y: 100_000 }));
}

#[test]
fn command_without_pointer_clears_the_order() {
    let mut w = World::new(MARKER_VISUAL);
    let a = w.spawn(object_at(0, 0));
    w.set_selected(a, true);
    tick(&mut w, &move_to_100_100()).unwrap();
    let lost = PointerInput { move_active: true, pointer: None, viewport: vp() };
    tick(&mut w, &lost).unwrap();
    assert_eq!(ordered_to(&w, a), None);
}

#[test]
fn unselected_entities_take_no_orders() {
    let mut w = World::new(MARKER_VISUAL);
    let a = w.spawn(object_at(0, 0));
    tick(&mut w, &move_to_100_100()).unwrap();
    assert_eq!(ordered_to(&w, a), None);
    assert_eq!(w.entity_at(a).pos, Some(Vec2 { x: 0, y: 0 }));
}

#[test]
fn acquisition_motion_and_marker_passes_compose() {
    let mut w = World::new(MARKER_VISUAL);
    let a = w.spawn(object_at(0, 0));
    w.set_selected(a, true);
    acquire_targets(&mut w, &move_to_100_100());
    assert_eq!(ordered_to(&w, a), Some(Vec2 { x: 100_000, y: 100_000 }));
    integrate_motion(&mut w);
    assert_eq!(w.entity_at(a).pos, Some(Vec2 { x: 3535, y: 3535 }));
    // Without a marker link there is nothing to advance.
    advance_markers(&mut w);
    assert_eq!(w.entity_at(a).pos, Some(Vec2 { x: 3535, y: 3535 }));
}

#[test]
fn marker_without_transform_is_stepped_from_the_origin() {
    let mut w = World::new(MARKER_VISUAL);
    let a = w.spawn(object_at(50_000, 0));
    let m = w.spawn(Entity {
        alive: true,
        is_marker: true,
        selected: false,
        pos: None,
        ui_pos: None,
        movable: None,
        link: None,
        visual: Some(MARKER_VISUAL),
    });
    w.insert_link(a, m).unwrap();
    w.set_selected(a, true);
    acquire_targets(&mut w, &move_to_100_100());
    advance_markers(&mut w);
    // The pass lazily gave the marker a default transform at the origin
    // and stepped it toward (100, 100) from there.
    assert_eq!(w.entity_at(m).pos, Some(Vec2 { x: 3535, y: 3535 }));
}

#[test]
fn tick_on_an_empty_world_does_nothing() {
    let mut w = World::new(MARKER_VISUAL);
    tick(&mut w, &move_to_100_100()).unwrap();
    assert_eq!(w.num_entities(), 0);
}

#[test]
fn links_and_markers_stay_coupled_across_ticks() {
    let mut w = World::new(MARKER_VISUAL);
    let a = w.spawn(object_at(0, 0));
    let b = w.spawn(object_at(100_000, 100_000));
    w.set_selected(a, true);
    tick(&mut w, &move_to_100_100()).unwrap();
    w.set_selected(a, false);
    w.set_selected(b, true);
    tick(&mut w, &idle_input()).unwrap();
    tick(&mut w, &idle_input()).unwrap();
    // Every link names a live marker, and every live marker is named by
    // exactly one link.
    let mut linked_markers: Vec<usize> = Vec::new();
    for id in 0..w.num_entities() {
        if let Some(m) = w.entity_at(id).link {
            assert!(w.is_alive(m) && w.entity_at(m).is_marker);
            assert!(!linked_markers.contains(&m));
            linked_markers.push(m);
        }
    }
    let mut live_markers: usize = 0;
    for id in 0..w.num_entities() {
        let e = w.entity_at(id);
        if e.alive && e.is_marker {
            live_markers += 1;
            assert!(linked_markers.contains(&id));
        }
    }
    assert_eq!(live_markers, linked_markers.len());
}

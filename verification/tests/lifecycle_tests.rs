use waypoint::geom::Vec2;
use waypoint::lifecycle::creation_pass;
use waypoint::lifecycle::lifecycle_pass;
use waypoint::lifecycle::teardown_pass;
use waypoint::world::Entity;
use waypoint::world::Movable;
use waypoint::world::World;

const MARKER_VISUAL: u32 = 2;

fn object_at(x: i64, y: i64) -> Entity {
    Entity {
        alive: true,
        is_marker: false,
        selected: false,
        pos: Some(Vec2 { x, y }),
        ui_pos: Some(Vec2 { x, y }),
        movable: Some(Movable::new()),
        link: None,
        visual: Some(0),
    }
}

fn count_live_markers(w: &World) -> usize {
    let mut count: usize = 0;
    for id in 0..w.num_entities() {
        let e = w.entity_at(id);
        if e.alive && e.is_marker {
            count += 1;
        }
    }
    count
}

fn count_selected(w: &World) -> usize {
    let mut count: usize = 0;
    for id in 0..w.num_entities() {
        let e = w.entity_at(id);
        if e.alive && !e.is_marker && e.selected {
            count += 1;
        }
    }
    count
}

#[test]
fn creation_makes_a_marker_for_the_selected_entity() {
    let mut w = World::new(MARKER_VISUAL);
    let a = w.spawn(object_at(7_000, -3_000));
    w.set_selected(a, true);
    let created = creation_pass(&mut w).unwrap();
    let m = created.expect("a marker should have been created");
    assert_eq!(w.entity_at(a).link, Some(m));
    let marker = w.entity_at(m);
    assert!(marker.alive && marker.is_marker);
    assert!(!marker.selected);
    assert_eq!(marker.pos, Some(Vec2 { x: 7_000, y: -3_000 }));
    assert_eq!(marker.visual, Some(MARKER_VISUAL));
    assert_eq!(marker.movable, None);
}

#[test]
fn creation_without_selection_does_nothing() {
    let mut w = World::new(MARKER_VISUAL);
    let a = w.spawn(object_at(0, 0));
    assert_eq!(creation_pass(&mut w), Ok(None));
    assert_eq!(w.entity_at(a).link, None);
    assert_eq!(w.num_entities(), 1);
}

#[test]
fn creation_handles_one_candidate_per_pass() {
    let mut w = World::new(MARKER_VISUAL);
    let a = w.spawn(object_at(0, 0));
    let b = w.spawn(object_at(100_000, 100_000));
    w.set_selected(a, true);
    w.set_selected(b, true);
    let first = creation_pass(&mut w).unwrap();
    // The scan keeps the last match, so entity `b` is served first.
    assert_eq!(w.entity_at(b).link, first);
    assert_eq!(w.entity_at(a).link, None);
    let second = creation_pass(&mut w).unwrap();
    assert_eq!(w.entity_at(a).link, second);
    assert_eq!(count_live_markers(&w), 2);
}

#[test]
fn teardown_destroys_marker_and_link_on_deselection() {
    let mut w = World::new(MARKER_VISUAL);
    let a = w.spawn(object_at(0, 0));
    w.set_selected(a, true);
    let m = creation_pass(&mut w).unwrap().unwrap();
    w.set_selected(a, false);
    let processed = teardown_pass(&mut w);
    assert_eq!(processed, Some(a));
    assert!(!w.is_alive(m));
    assert_eq!(w.entity_at(a).link, None);
}

#[test]
fn teardown_of_externally_destroyed_marker_still_removes_the_link() {
    let mut w = World::new(MARKER_VISUAL);
    let a = w.spawn(object_at(0, 0));
    w.set_selected(a, true);
    let m = creation_pass(&mut w).unwrap().unwrap();
    // Someone else already deleted the marker entity.
    w.destroy(m);
    w.set_selected(a, false);
    let processed = teardown_pass(&mut w);
    assert_eq!(processed, Some(a));
    assert_eq!(w.entity_at(a).link, None);
}

#[test]
fn teardown_leaves_selected_entities_alone() {
    let mut w = World::new(MARKER_VISUAL);
    let a = w.spawn(object_at(0, 0));
    w.set_selected(a, true);
    let m = creation_pass(&mut w).unwrap().unwrap();
    assert_eq!(teardown_pass(&mut w), None);
    assert!(w.is_alive(m));
    assert_eq!(w.entity_at(a).link, Some(m));
}

#[test]
fn live_markers_match_selected_entities_after_each_pass() {
    let mut w = World::new(MARKER_VISUAL);
    let a = w.spawn(object_at(0, 0));
    let b = w.spawn(object_at(100_000, 100_000));
    w.set_selected(a, true);
    lifecycle_pass(&mut w).unwrap();
    assert_eq!(count_live_markers(&w), count_selected(&w));
    // Move the selection from one entity to the other, one change per pass.
    w.set_selected(a, false);
    lifecycle_pass(&mut w).unwrap();
    assert_eq!(count_live_markers(&w), 0);
    assert_eq!(count_live_markers(&w), count_selected(&w));
    w.set_selected(b, true);
    lifecycle_pass(&mut w).unwrap();
    assert_eq!(count_live_markers(&w), 1);
    assert_eq!(count_live_markers(&w), count_selected(&w));
}

#[test]
fn reselection_restarts_the_marker_cycle() {
    let mut w = World::new(MARKER_VISUAL);
    let a = w.spawn(object_at(0, 0));
    w.set_selected(a, true);
    lifecycle_pass(&mut w).unwrap();
    let m1 = w.entity_at(a).link.unwrap();
    w.set_selected(a, false);
    lifecycle_pass(&mut w).unwrap();
    assert_eq!(w.entity_at(a).link, None);
    w.set_selected(a, true);
    lifecycle_pass(&mut w).unwrap();
    let m2 = w.entity_at(a).link.unwrap();
    assert_ne!(m1, m2);
    assert!(!w.is_alive(m1));
    assert!(w.is_alive(m2));
}

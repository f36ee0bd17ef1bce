use waypoint::geom::Vec2;
use waypoint::world::Entity;
use waypoint::world::LinkError;
use waypoint::world::Movable;
use waypoint::world::World;

fn object_at(x: i64, y: i64) -> Entity {
    Entity {
        alive: true,
        is_marker: false,
        selected: false,
        pos: Some(Vec2 { x, y }),
        ui_pos: Some(Vec2 { x, y }),
        movable: Some(Movable::new()),
        link: None,
        visual: Some(0),
    }
}

fn bare_marker() -> Entity {
    Entity {
        alive: true,
        is_marker: true,
        selected: false,
        pos: None,
        ui_pos: None,
        movable: None,
        link: None,
        visual: Some(2),
    }
}

#[test]
fn movable_starts_without_order() {
    assert_eq!(Movable::new().ordered_to, None);
}

#[test]
fn spawn_assigns_fresh_identities() {
    let mut w = World::new(2);
    assert_eq!(w.num_entities(), 0);
    let a = w.spawn(object_at(0, 0));
    let b = w.spawn(object_at(100_000, 100_000));
    assert_eq!((a, b), (0, 1));
    assert_eq!(w.num_entities(), 2);
    assert!(w.is_alive(a) && w.is_alive(b));
    assert_eq!(w.entity_at(b).pos, Some(Vec2 { x: 100_000, y: 100_000 }));
}

#[test]
fn destroy_keeps_the_slot_but_kills_the_entity() {
    let mut w = World::new(2);
    let a = w.spawn(object_at(0, 0));
    w.destroy(a);
    assert!(!w.is_alive(a));
    assert_eq!(w.num_entities(), 1);
    // The liveness query is total: unknown identities are simply not alive.
    assert!(!w.is_alive(17));
}

#[test]
fn selection_flag_round_trip() {
    let mut w = World::new(2);
    let a = w.spawn(object_at(0, 0));
    assert!(!w.entity_at(a).selected);
    w.set_selected(a, true);
    assert!(w.entity_at(a).selected);
    w.set_selected(a, false);
    assert!(!w.entity_at(a).selected);
}

#[test]
fn insert_link_records_the_marker() {
    let mut w = World::new(2);
    let a = w.spawn(object_at(0, 0));
    let m = w.spawn(bare_marker());
    assert_eq!(w.insert_link(a, m), Ok(()));
    assert_eq!(w.entity_at(a).link, Some(m));
}

#[test]
fn insert_link_over_existing_link_is_refused() {
    let mut w = World::new(2);
    let a = w.spawn(object_at(0, 0));
    let m1 = w.spawn(bare_marker());
    let m2 = w.spawn(bare_marker());
    assert_eq!(w.insert_link(a, m1), Ok(()));
    assert_eq!(w.insert_link(a, m2), Err(LinkError::AlreadyLinked));
    // The store is left as it was.
    assert_eq!(w.entity_at(a).link, Some(m1));
}

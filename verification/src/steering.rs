//! Waypoint steering: read the pointer state into per-entity movement
//! commands, advance commanded entities toward their targets at a bounded
//! speed, and let each selection marker trail its source's target.
//!
//! The marker is advanced from the marker's own position toward the
//! source's target — not snapped to the source — so it tracks the same
//! destination while trailing behind.

use crate::geom::PointerInput;
use crate::geom::Vec2;
use crate::geom::clamp_coord;
use crate::geom::compute_target;
use crate::geom::in_bounds;
use crate::geom::mirror_shift;
use crate::geom::steer_spec;
use crate::geom::steer_step;
use crate::world::Entity;
use crate::world::Movable;
use crate::world::World;
use vstd::prelude::*;

verus! {

/// Entity `i` takes movement commands: live, selected, movable, with a
/// world transform.
pub open spec fn command_candidate(w: World, i: int) -> bool {
    w.sel(i) && w.ent(i).movable is Some && w.ent(i).pos is Some
}

/// Entity `i` has a pending order and both positions to advance.
pub open spec fn motion_candidate(w: World, i: int) -> bool {
    &&& w.live(i)
    &&& w.ent(i).pos is Some
    &&& w.ent(i).ui_pos is Some
    &&& w.ent(i).movable is Some
    &&& w.ent(i).movable->Some_0.ordered_to is Some
}

/// What target acquisition does: while the move command is held, every
/// commandable selected entity's order becomes the point the pointer
/// names (or is cleared when the pointer is unavailable); with the command
/// released, nothing changes.
pub open spec fn acquire_rel(a: World, b: World, inp: PointerInput) -> bool {
    &&& b.marker_visual == a.marker_visual
    &&& b.ents@.len() == a.ents@.len()
    &&& forall|i: int| 0 <= i < a.n() ==> #[trigger] b.ent(i) == (if command_candidate(a, i)
        && inp.move_active {
        Entity { movable: Some(Movable { ordered_to: inp.new_target() }), ..a.ent(i) }
    } else {
        a.ent(i)
    })
}

/// Entity `i` after one motion step: its transform advances one steering
/// step toward its order, and its UI-space mirror shifts by the same
/// displacement (saturating at the coordinate range).
pub open spec fn stepped(a: World, i: int) -> Entity {
    let e = a.ent(i);
    let p = e.pos->Some_0;
    let t = e.movable->Some_0.ordered_to->Some_0;
    let np = steer_spec(p, t);
    let u = e.ui_pos->Some_0;
    Entity {
        pos: Some(np),
        ui_pos: Some(
            Vec2 {
                x: clamp_coord(u.x + np.x - p.x) as i64,
                y: clamp_coord(u.y + np.y - p.y) as i64,
            },
        ),
        ..e
    }
}

/// What motion integration does: every entity with a pending order and
/// both positions takes one step, everything else stays put.
pub open spec fn motion_rel(a: World, b: World) -> bool {
    &&& b.marker_visual == a.marker_visual
    &&& b.ents@.len() == a.ents@.len()
    &&& forall|i: int| 0 <= i < a.n() ==> #[trigger] b.ent(i) == (if motion_candidate(a, i) {
        stepped(a, i)
    } else {
        a.ent(i)
    })
}

/// Entity `i` drives its marker: it has a pending order and a marker link.
pub open spec fn advance_candidate(w: World, i: int) -> bool {
    &&& 0 <= i < w.n()
    &&& w.ent(i).movable is Some
    &&& w.ent(i).movable->Some_0.ordered_to is Some
    &&& w.ent(i).link is Some
}

/// The pending order of driver `i`.
pub open spec fn marker_target(w: World, i: int) -> Vec2 {
    w.ent(i).movable->Some_0.ordered_to->Some_0
}

/// A marker entity that lacks a transform is stepped from the origin, the
/// default transform the pass lazily gives it.
pub open spec fn pos_or_origin(e: Entity) -> Vec2 {
    match e.pos {
        Some(p) => p,
        None => Vec2 { x: 0, y: 0 },
    }
}

/// Marker `j` is live and driven by some candidate within the first `upto`
/// entities.
pub open spec fn advanced_marker_by(w: World, j: int, upto: int) -> bool {
    w.live(j) && exists|k: int|
        0 <= k < upto && #[trigger] advance_candidate(w, k) && w.link_of(k) == j
}

/// Marker `j` is live and driven by some candidate.
pub open spec fn advanced_marker(w: World, j: int) -> bool {
    advanced_marker_by(w, j, w.n())
}

/// The candidate driving marker `j` (unique, since no two entities link
/// the same marker).
pub open spec fn driver_of(w: World, j: int) -> int {
    choose|k: int| 0 <= k < w.n() && #[trigger] advance_candidate(w, k) && w.link_of(k) == j
}

/// Marker `j` after one trailing step toward its driver's target, from the
/// marker's own position (or the lazily defaulted origin).
pub open spec fn marker_stepped(w: World, j: int) -> Entity {
    let e = w.ent(j);
    Entity { pos: Some(steer_spec(pos_or_origin(e), marker_target(w, driver_of(w, j)))), ..e }
}

/// What marker advance does: every live marker whose source has a pending
/// order takes one trailing step, everything else stays put.
pub open spec fn advance_rel(a: World, b: World) -> bool {
    &&& b.marker_visual == a.marker_visual
    &&& b.ents@.len() == a.ents@.len()
    &&& forall|j: int| 0 <= j < a.n() ==> #[trigger] b.ent(j) == (if advanced_marker(a, j) {
        marker_stepped(a, j)
    } else {
        a.ent(j)
    })
}

/// Acquire movement targets from the pointer, as `acquire_rel` describes.
pub fn acquire_targets(w: &mut World, inp: &PointerInput)
    requires
        old(w).wf(),
        inp.valid(),
    ensures
        final(w).wf(),
        acquire_rel(*old(w), *final(w), *inp),
{
    let ghost pre = *w;
    let target = compute_target(inp);
    let n = w.ents.len();
    let mut i: usize = 0;
    while i < n
        invariant
            pre.wf(),
            target == inp.new_target(),
            match target {
                Some(t) => in_bounds(t),
                None => true,
            },
            n as int == pre.n(),
            i <= n,
            w.marker_visual == pre.marker_visual,
            w.ents@.len() == pre.ents@.len(),
            forall|j: int| 0 <= j < pre.n() ==> w.ent(j) == pre.ent(j)
                || crate::world::bounded_ent(#[trigger] w.ent(j)),
            forall|j: int| i <= j < pre.n() ==> w.ent(j) == pre.ent(j),
            forall|j: int| 0 <= j < i ==> #[trigger] w.ent(j) == (if command_candidate(pre, j)
                && inp.move_active {
                Entity { movable: Some(Movable { ordered_to: inp.new_target() }), ..pre.ent(j) }
            } else {
                pre.ent(j)
            }),
        decreases n - i,
    {
        let e = w.ents[i];
        if inp.move_active && e.alive && !e.is_marker && e.selected && e.movable.is_some()
            && e.pos.is_some() {
            proof {
                assert(pre.wf_at(i as int));
            }
            w.ents[i] = Entity { movable: Some(Movable { ordered_to: target }), ..e };
            proof {
                assert(crate::world::bounded_ent(w.ent(i as int)));
            }
        }
        i += 1;
    }
    proof {
        assert forall|i2: int| 0 <= i2 < pre.n() implies {
            let a = #[trigger] pre.ent(i2);
            let b = w.ent(i2);
            b.alive == a.alive && b.is_marker == a.is_marker && b.selected == a.selected && b.link
                == a.link && (b == a || crate::world::bounded_ent(b)) && (a.movable is None
                ==> b.movable is None) && (a.ui_pos is None ==> b.ui_pos is None)
        } by {
            assert(pre.wf_at(i2));
        }
        lemma_componentwise_wf(pre, *w);
    }
}

/// Advance every commanded entity one step toward its order, as
/// `motion_rel` describes.
pub fn integrate_motion(w: &mut World)
    requires
        old(w).wf(),
    ensures
        final(w).wf(),
        motion_rel(*old(w), *final(w)),
{
    let ghost pre = *w;
    let n = w.ents.len();
    let mut i: usize = 0;
    while i < n
        invariant
            pre.wf(),
            n as int == pre.n(),
            i <= n,
            w.marker_visual == pre.marker_visual,
            w.ents@.len() == pre.ents@.len(),
            forall|j: int| 0 <= j < pre.n() ==> w.ent(j) == pre.ent(j)
                || crate::world::bounded_ent(#[trigger] w.ent(j)),
            forall|j: int| i <= j < pre.n() ==> w.ent(j) == pre.ent(j),
            forall|j: int| 0 <= j < i ==> #[trigger] w.ent(j) == (if motion_candidate(pre, j) {
                stepped(pre, j)
            } else {
                pre.ent(j)
            }),
        decreases n - i,
    {
        let e = w.ents[i];
        if e.alive && e.pos.is_some() && e.ui_pos.is_some() && e.movable.is_some() {
            match e.movable.unwrap().ordered_to {
                Some(t) => {
                    proof {
                        assert(pre.wf_at(i as int));
                    }
                    let p = e.pos.unwrap();
                    let np = steer_step(p, t);
                    let u = e.ui_pos.unwrap();
                    let nu = mirror_shift(u, np.x - p.x, np.y - p.y);
                    w.ents[i] = Entity { pos: Some(np), ui_pos: Some(nu), ..e };
                    proof {
                        assert(crate::world::bounded_ent(w.ent(i as int)));
                    }
                },
                None => {},
            }
        }
        i += 1;
    }
    proof {
        assert forall|i2: int| 0 <= i2 < pre.n() implies {
            let a = #[trigger] pre.ent(i2);
            let b = w.ent(i2);
            b.alive == a.alive && b.is_marker == a.is_marker && b.selected == a.selected && b.link
                == a.link && (b == a || crate::world::bounded_ent(b)) && (a.movable is None
                ==> b.movable is None) && (a.ui_pos is None ==> b.ui_pos is None)
        } by {
            assert(pre.wf_at(i2));
        }
        lemma_componentwise_wf(pre, *w);
    }
}

/// Advance every live marker one trailing step toward its source's
/// target, as `advance_rel` describes.
pub fn advance_markers(w: &mut World)
    requires
        old(w).wf(),
    ensures
        final(w).wf(),
        advance_rel(*old(w), *final(w)),
{
    let ghost pre = *w;
    let n = w.ents.len();
    let mut i: usize = 0;
    while i < n
        invariant
            pre.wf(),
            n as int == pre.n(),
            i <= n,
            w.marker_visual == pre.marker_visual,
            w.ents@.len() == pre.ents@.len(),
            forall|j: int| 0 <= j < pre.n() ==> w.ent(j) == pre.ent(j)
                || crate::world::bounded_ent(#[trigger] w.ent(j)),
            forall|j: int| 0 <= j < pre.n() ==> #[trigger] w.ent(j) == (if advanced_marker_by(
                pre,
                j,
                i as int,
            ) {
                marker_stepped(pre, j)
            } else {
                pre.ent(j)
            }),
        decreases n - i,
    {
        let ghost w_entry = *w;
        let e = w.ents[i];
        if e.movable.is_some() && e.link.is_some() {
            proof {
                // A marker never carries a movable, so entity `i` is not an
                // advanced marker and still reads as it did at entry.
                if advanced_marker_by(pre, i as int, i as int) {
                    let k = choose|k: int|
                        0 <= k < i && #[trigger] advance_candidate(pre, k) && pre.link_of(k)
                            == i as int;
                    assert(pre.wf_at(k));
                    assert(pre.ent(i as int).is_marker);
                    assert(pre.wf_at(i as int));
                    assert(pre.ent(i as int).movable is None);
                    assert(w.ent(i as int) == marker_stepped(pre, i as int));
                    assert(w.ent(i as int).movable is None);
                }
                assert(w.ent(i as int) == pre.ent(i as int));
                assert(pre.wf_at(i as int));
            }
            match e.movable.unwrap().ordered_to {
                Some(t) => {
                    let m = e.link.unwrap();
                    proof {
                        assert(advance_candidate(pre, i as int));
                        assert((m as int) < pre.n() && pre.ent(m as int).is_marker);
                        // No earlier candidate drives this marker: links are
                        // injective, so its only driver is `i` itself.
                        if advanced_marker_by(pre, m as int, i as int) {
                            let k = choose|k: int|
                                0 <= k < i && #[trigger] advance_candidate(pre, k) && pre.link_of(
                                    k,
                                ) == m as int;
                            assert(pre.linked(k) && pre.linked(i as int));
                            assert(pre.link_of(k) == pre.link_of(i as int));
                        }
                        assert(!advanced_marker_by(pre, m as int, i as int));
                        assert(w.ent(m as int) == pre.ent(m as int));
                        assert(pre.wf_at(m as int));
                    }
                    if w.is_alive(m) {
                        let me = w.ents[m];
                        let mp = match me.pos {
                            Some(p) => p,
                            None => Vec2 { x: 0, y: 0 },
                        };
                        proof {
                            assert(mp == pos_or_origin(pre.ent(m as int)));
                            assert(in_bounds(mp));
                        }
                        let np = steer_step(mp, t);
                        w.ents[m] = Entity { pos: Some(np), ..me };
                        proof {
                            assert(crate::world::bounded_ent(w.ent(m as int)));
                            assert forall|j: int| 0 <= j < pre.n() implies w.ent(j) == pre.ent(j)
                                || crate::world::bounded_ent(#[trigger] w.ent(j)) by {
                                if j != m as int {
                                    assert(w.ent(j) == w_entry.ent(j));
                                }
                            }
                            assert(advance_candidate(pre, i as int) && pre.link_of(i as int)
                                == m as int);
                            let d = driver_of(pre, m as int);
                            assert(0 <= d < pre.n() && advance_candidate(pre, d) && pre.link_of(d)
                                == m as int);
                            assert(pre.linked(d) && pre.linked(i as int));
                            assert(d == i as int);
                            assert(t == marker_target(pre, d));
                            assert(w.ent(m as int) == marker_stepped(pre, m as int));
                            assert(advanced_marker_by(pre, m as int, i as int + 1));
                            assert forall|j: int| 0 <= j < pre.n() implies #[trigger] w.ent(j) == (
                            if advanced_marker_by(pre, j, i as int + 1) {
                                marker_stepped(pre, j)
                            } else {
                                pre.ent(j)
                            }) by {
                                if j != m as int {
                                    assert(w.ent(j) == w_entry.ent(j));
                                    if advanced_marker_by(pre, j, i as int + 1) {
                                        let k = choose|k: int|
                                            0 <= k < i as int + 1 && #[trigger] advance_candidate(
                                                pre,
                                                k,
                                            ) && pre.link_of(k) == j;
                                        assert(k != i as int);
                                        assert(advanced_marker_by(pre, j, i as int));
                                    }
                                }
                            }
                        }
                    } else {
                        proof {
                            assert(!pre.live(m as int));
                            assert forall|j: int| 0 <= j < pre.n() implies #[trigger] w.ent(j) == (
                            if advanced_marker_by(pre, j, i as int + 1) {
                                marker_stepped(pre, j)
                            } else {
                                pre.ent(j)
                            }) by {
                                if advanced_marker_by(pre, j, i as int + 1)
                                    && !advanced_marker_by(pre, j, i as int) {
                                    let k = choose|k: int|
                                        0 <= k < i as int + 1 && #[trigger] advance_candidate(
                                            pre,
                                            k,
                                        ) && pre.link_of(k) == j;
                                    assert(k == i as int);
                                    assert(j == m as int);
                                    assert(false);
                                }
                            }
                        }
                    }
                },
                None => {
                    proof {
                        assert(!advance_candidate(pre, i as int));
                        lemma_no_new_driver(pre, *w, i as int);
                    }
                },
            }
        } else {
            proof {
                // Entity `i`, whether untouched or an already-stepped
                // marker, has no order or no link, so it drives nothing.
                if advance_candidate(pre, i as int) {
                    assert(pre.wf_at(i as int));
                    if advanced_marker_by(pre, i as int, i as int) {
                        let k = choose|k: int|
                            0 <= k < i && #[trigger] advance_candidate(pre, k) && pre.link_of(k)
                                == i as int;
                        assert(pre.wf_at(k));
                        assert(pre.ent(i as int).is_marker);
                        assert(pre.ent(i as int).movable is None);
                    }
                    assert(w.ent(i as int) == pre.ent(i as int));
                    assert(false);
                }
                lemma_no_new_driver(pre, *w, i as int);
            }
        }
        i += 1;
    }
    proof {
        assert forall|j: int| 0 <= j < pre.n() implies advanced_marker_by(pre, j, pre.n())
            == advanced_marker(pre, j) by {}
        assert forall|i2: int| 0 <= i2 < pre.n() implies {
            let a = #[trigger] pre.ent(i2);
            let b = w.ent(i2);
            b.alive == a.alive && b.is_marker == a.is_marker && b.selected == a.selected && b.link
                == a.link && (b == a || crate::world::bounded_ent(b)) && (a.movable is None
                ==> b.movable is None) && (a.ui_pos is None ==> b.ui_pos is None)
        } by {
            assert(pre.wf_at(i2));
        }
        lemma_componentwise_wf(pre, *w);
    }
}

/// When entity `i` is no advance candidate, extending the scanned prefix
/// past it drives no new marker.
proof fn lemma_no_new_driver(pre: World, cur: World, i: int)
    requires
        !advance_candidate(pre, i),
        forall|j: int| 0 <= j < pre.n() ==> #[trigger] cur.ent(j) == (if advanced_marker_by(
            pre,
            j,
            i,
        ) {
            marker_stepped(pre, j)
        } else {
            pre.ent(j)
        }),
    ensures
        forall|j: int| 0 <= j < pre.n() ==> #[trigger] cur.ent(j) == (if advanced_marker_by(
            pre,
            j,
            i + 1,
        ) {
            marker_stepped(pre, j)
        } else {
            pre.ent(j)
        }),
{
    assert forall|j: int| 0 <= j < pre.n() implies #[trigger] cur.ent(j) == (
    if advanced_marker_by(pre, j, i + 1) {
        marker_stepped(pre, j)
    } else {
        pre.ent(j)
    }) by {
        if advanced_marker_by(pre, j, i + 1) && !advanced_marker_by(pre, j, i) {
            let k = choose|k: int|
                0 <= k < i + 1 && #[trigger] advance_candidate(pre, k) && pre.link_of(k) == j;
            assert(k == i);
            assert(false);
        }
    }
}

/// Well-formedness survives any pass that only rewrites positions, UI
/// mirrors and movement state to bounded values, leaving liveness,
/// selection, marker nature and links alone.
proof fn lemma_componentwise_wf(pre: World, cur: World)
    requires
        pre.wf(),
        cur.ents@.len() == pre.ents@.len(),
        forall|i: int| 0 <= i < pre.n() ==> {
            let a = #[trigger] pre.ent(i);
            let b = cur.ent(i);
            b.alive == a.alive && b.is_marker == a.is_marker && b.selected == a.selected && b.link
                == a.link && (b == a || crate::world::bounded_ent(b)) && (a.movable is None
                ==> b.movable is None) && (a.ui_pos is None ==> b.ui_pos is None)
        },
    ensures
        cur.wf(),
{
    assert forall|i: int| 0 <= i < cur.n() implies cur.wf_at(i) by {
        assert(pre.wf_at(i));
        if cur.linked(i) {
            let m = cur.link_of(i);
            assert(pre.linked(i) && pre.link_of(i) == m);
            assert(cur.ent(m).is_marker == pre.ent(m).is_marker);
        }
    }
    assert forall|i: int, j: int|
        cur.linked(i) && cur.linked(j) && i != j implies #[trigger] cur.link_of(i)
        != #[trigger] cur.link_of(j) by {
        assert(pre.linked(i) && pre.linked(j));
        assert(pre.link_of(i) == cur.link_of(i) && pre.link_of(j) == cur.link_of(j));
    }
}

} // verus!

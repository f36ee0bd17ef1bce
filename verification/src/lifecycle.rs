//! Selection marker lifecycle: create a marker entity for a newly selected
//! entity, and tear the marker down when the selection ends.
//!
//! Each pass acts on at most one candidate per tick — the last matching
//! entity of the scan — a deliberate bound on per-tick work, so a burst of
//! simultaneous selection changes is worked off over the following ticks.
//! Teardown is idempotent: a marker that was already destroyed elsewhere is
//! skipped, and the stale link is removed all the same.

use crate::world::Entity;
use crate::world::LinkError;
use crate::world::World;
use vstd::prelude::*;

verus! {

/// Two stores hold the same entities and configuration.
pub open spec fn same_world(a: World, b: World) -> bool {
    b.ents@ == a.ents@ && b.marker_visual == a.marker_visual
}

/// Entity `i` is ready to receive a marker: live, selected, with a world
/// transform, and not yet linked to one.
pub open spec fn creation_candidate(w: World, i: int) -> bool {
    w.sel(i) && w.ent(i).link is None && w.ent(i).pos is Some
}

/// Entity `i` still holds a marker link but is no longer selected.
pub open spec fn teardown_candidate(w: World, i: int) -> bool {
    w.live(i) && w.ent(i).link is Some && !w.ent(i).selected
}

/// At most one entity awaits a marker.
pub open spec fn lone_creation(w: World) -> bool {
    forall|i: int, j: int|
        #[trigger] creation_candidate(w, i) && #[trigger] creation_candidate(w, j) ==> i == j
}

/// At most one entity awaits teardown.
pub open spec fn lone_teardown(w: World) -> bool {
    forall|i: int, j: int|
        #[trigger] teardown_candidate(w, i) && #[trigger] teardown_candidate(w, j) ==> i == j
}

/// The marker entity created for source `s`: a fresh live entity cloning
/// the source's transform, wearing the configured marker visual, itself
/// neither selectable nor movable.
pub open spec fn marker_for(w: World, s: int) -> Entity {
    Entity {
        alive: true,
        is_marker: true,
        selected: false,
        pos: w.ent(s).pos,
        ui_pos: None,
        movable: None,
        link: None,
        visual: Some(w.marker_visual),
    }
}

/// `b` is `a` after creating a marker for source `s`: `s` is the last
/// creation candidate of the scan, the marker takes the next fresh slot,
/// and `s` is linked to it.
pub open spec fn created_from(a: World, b: World, s: int) -> bool {
    &&& creation_candidate(a, s)
    &&& forall|j: int| s < j < a.n() ==> !creation_candidate(a, j)
    &&& b.marker_visual == a.marker_visual
    &&& b.ents@ == a.ents@.update(
        s,
        (Entity { link: Some(a.n() as usize), ..a.ent(s) }),
    ).push(marker_for(a, s))
}

/// What one creation pass does: nothing when no entity awaits a marker,
/// otherwise exactly the `created_from` step.
pub open spec fn creation_rel(a: World, b: World) -> bool {
    if exists|i: int| creation_candidate(a, i) {
        exists|s: int| #[trigger] created_from(a, b, s)
    } else {
        same_world(a, b)
    }
}

/// `c` is `b` after tearing down the marker of source `s`: `s` is the last
/// teardown candidate of the scan, its marker is destroyed if it is still
/// alive, and the link is removed either way.
pub open spec fn torn_from(b: World, c: World, s: int) -> bool {
    &&& teardown_candidate(b, s)
    &&& forall|j: int| s < j < b.n() ==> !teardown_candidate(b, j)
    &&& c.marker_visual == b.marker_visual
    &&& {
        let m = b.link_of(s);
        if b.live(m) {
            c.ents@ == b.ents@.update(
                m,
                (Entity { alive: false, selected: false, link: None, ..b.ent(m) }),
            ).update(s, (Entity { link: None, ..b.ent(s) }))
        } else {
            c.ents@ == b.ents@.update(s, (Entity { link: None, ..b.ent(s) }))
        }
    }
}

/// What one teardown pass does: nothing when no marker is stale, otherwise
/// exactly the `torn_from` step.
pub open spec fn teardown_rel(b: World, c: World) -> bool {
    if exists|i: int| teardown_candidate(b, i) {
        exists|s: int| #[trigger] torn_from(b, c, s)
    } else {
        same_world(b, c)
    }
}

/// What the whole lifecycle pass does: a creation step followed by a
/// teardown step.
pub open spec fn lifecycle_rel(a: World, c: World) -> bool {
    exists|b: World| #[trigger] creation_rel(a, b) && teardown_rel(b, c)
}

/// Create a marker for the last entity of the scan that is selected but
/// not yet marked, if any; returns the new marker's identity.
///
/// Inserting the link cannot find one already present — the candidate was
/// chosen for lacking one — so the pass always succeeds; the error branch
/// exists because a link collision would mean invariant I3 was broken
/// elsewhere, and it must surface rather than be overwritten.
pub fn creation_pass(w: &mut World) -> (r: Result<Option<usize>, LinkError>)
    requires
        old(w).wf(),
    ensures
        final(w).wf(),
        r is Ok,
        creation_rel(*old(w), *final(w)),
        match r {
            Ok(created) => match created {
                Some(m) => m as int == old(w).n() && (exists|i: int|
                    creation_candidate(*old(w), i)),
                None => !(exists|i: int| creation_candidate(*old(w), i)),
            },
            Err(_) => false,
        },
{
    let ghost pre = *w;
    let n = w.ents.len();
    let mut found: Option<usize> = None;
    let mut i: usize = 0;
    while i < n
        invariant
            w.ents@ == pre.ents@,
            w.marker_visual == pre.marker_visual,
            n as int == pre.n(),
            i <= n,
            match found {
                Some(s) => creation_candidate(pre, s as int) && (s as int) < i && (forall|j: int|
                    s < j < i ==> !creation_candidate(pre, j)),
                None => forall|j: int| 0 <= j < i ==> !creation_candidate(pre, j),
            },
        decreases n - i,
    {
        let e = w.ents[i];
        if e.alive && !e.is_marker && e.selected && e.link.is_none() && e.pos.is_some() {
            found = Some(i);
        }
        i += 1;
    }
    match found {
        None => {
            proof {
                assert(forall|j: int| 0 <= j < pre.n() ==> !creation_candidate(pre, j));
                assert(!(exists|j: int| creation_candidate(pre, j)));
            }
            Ok(None)
        },
        Some(s) => {
            proof {
                assert(pre.wf_at(s as int));
            }
            let src = w.ents[s];
            let marker = Entity {
                alive: true,
                is_marker: true,
                selected: false,
                pos: src.pos,
                ui_pos: None,
                movable: None,
                link: None,
                visual: Some(w.marker_visual),
            };
            let m = w.spawn(marker);
            proof {
                assert forall|j: int| #[trigger] w.linked(j) implies w.link_of(j)
                    != m as int by {
                    if j < pre.n() {
                        assert(pre.linked(j));
                        assert(pre.wf_at(j));
                    } else {
                        assert(w.ent(j).link is None);
                    }
                }
                assert(w.ent(s as int) == pre.ent(s as int));
            }
            let lr = w.insert_link(s, m);
            match lr {
                Ok(_) => {
                    proof {
                        let mid = pre.ents@.push(marker);
                        assert(w.ents@ =~= pre.ents@.update(
                            s as int,
                            (Entity { link: Some(m), ..pre.ent(s as int) }),
                        ).push(marker_for(pre, s as int)));
                        assert(created_from(pre, *w, s as int));
                    }
                    Ok(Some(m))
                },
                Err(e) => Err(e),
            }
        },
    }
}

/// Tear down the marker of the last entity of the scan that is marked but
/// no longer selected, if any; returns the processed source entity.
///
/// The marker is destroyed only if it is still alive — destroying one that
/// is already gone is a no-op, not an error — and the stale link is
/// removed unconditionally afterwards.
pub fn teardown_pass(w: &mut World) -> (r: Option<usize>)
    requires
        old(w).wf(),
    ensures
        final(w).wf(),
        teardown_rel(*old(w), *final(w)),
        match r {
            Some(s) => exists|i: int| teardown_candidate(*old(w), i),
            None => !(exists|i: int| teardown_candidate(*old(w), i)),
        },
{
    let ghost pre = *w;
    let n = w.ents.len();
    let mut found: Option<usize> = None;
    let mut i: usize = 0;
    while i < n
        invariant
            w.ents@ == pre.ents@,
            w.marker_visual == pre.marker_visual,
            n as int == pre.n(),
            i <= n,
            match found {
                Some(s) => teardown_candidate(pre, s as int) && (s as int) < i && (forall|j: int|
                    s < j < i ==> !teardown_candidate(pre, j)),
                None => forall|j: int| 0 <= j < i ==> !teardown_candidate(pre, j),
            },
        decreases n - i,
    {
        let e = w.ents[i];
        if e.alive && e.link.is_some() && !e.selected {
            found = Some(i);
        }
        i += 1;
    }
    match found {
        None => {
            proof {
                assert(forall|j: int| 0 <= j < pre.n() ==> !teardown_candidate(pre, j));
                assert(!(exists|j: int| teardown_candidate(pre, j)));
            }
            None
        },
        Some(s) => {
            proof {
                assert(pre.wf_at(s as int));
            }
            let m = w.ents[s].link.unwrap();
            if w.is_alive(m) {
                w.destroy(m);
                proof {
                    assert(s as int != m as int);
                    assert(w.ent(s as int) == pre.ent(s as int));
                }
                w.remove_link(s);
                proof {
                    assert(torn_from(pre, *w, s as int));
                }
            } else {
                w.remove_link(s);
                proof {
                    assert(torn_from(pre, *w, s as int));
                }
            }
            Some(s)
        },
    }
}

/// One full lifecycle pass: the creation scan, then the teardown scan.
pub fn lifecycle_pass(w: &mut World) -> (r: Result<(), LinkError>)
    requires
        old(w).wf(),
    ensures
        final(w).wf(),
        r is Ok,
        lifecycle_rel(*old(w), *final(w)),
{
    let cr = creation_pass(w);
    let ghost mid = *w;
    match cr {
        Ok(_) => {
            teardown_pass(w);
            proof {
                assert(creation_rel(*old(w), mid) && teardown_rel(mid, *w));
            }
            Ok(())
        },
        Err(e) => Err(e),
    }
}

/// Creating a marker preserves well-formedness and touches nothing but
/// the source's link and the fresh slot.
proof fn lemma_creation_wf(a: World, b: World, s: int)
    requires
        a.wf(),
        created_from(a, b, s),
    ensures
        b.wf(),
        b.n() == a.n() + 1,
        b.ent(s) == (Entity { link: Some(a.n() as usize), ..a.ent(s) }),
        b.ent(a.n()) == marker_for(a, s),
        forall|j: int| 0 <= j < a.n() && j != s ==> b.ent(j) == a.ent(j),
{
    vstd::std_specs::vec::axiom_spec_len(&a.ents);
    vstd::std_specs::vec::axiom_spec_len(&b.ents);
    assert(a.wf_at(s));
    let upd = a.ents@.update(s, (Entity { link: Some(a.n() as usize), ..a.ent(s) }));
    assert(b.ents@ == upd.push(marker_for(a, s)));
    assert(b.ents@.len() == a.ents@.len() + 1);
    assert(b.ent(s) == upd[s]);
    assert(b.ent(a.n()) == marker_for(a, s));
    assert forall|j: int| 0 <= j < a.n() && j != s implies b.ent(j) == a.ent(j) by {
        assert(b.ents@[j] == upd[j]);
    }
    assert(b.linked(s) && b.link_of(s) == a.n());
    assert forall|i: int| 0 <= i < b.n() implies b.wf_at(i) by {
        if i < a.n() {
            assert(a.wf_at(i));
            if b.linked(i) {
                let m = b.link_of(i);
                if i == s {
                    assert(m == a.n());
                    assert(b.ent(m).is_marker);
                } else {
                    assert(a.linked(i) && a.link_of(i) == m);
                    assert(b.ent(m) == a.ent(m));
                }
            }
        }
    }
    assert forall|i: int, j: int|
        b.linked(i) && b.linked(j) && i != j implies #[trigger] b.link_of(i) != #[trigger] b.link_of(
        j,
    ) by {
        assert(!b.linked(a.n()));
        if i != s && j != s {
            assert(a.linked(i) && a.linked(j));
            assert(a.link_of(i) == b.link_of(i) && a.link_of(j) == b.link_of(j));
        } else {
            let k = if i == s { j } else { i };
            assert(a.linked(k));
            assert(a.wf_at(k));
            assert(a.link_of(k) < a.n());
            assert(b.link_of(s) == a.n());
        }
    }
}

/// The lifecycle pass keeps the link/marker coupling (invariant I2) and
/// leaves no candidate waiting, provided the environment changed at most
/// one selection each way since the last pass and destroyed no marker of a
/// still-selected entity.
///
/// Well-formedness of the post-state is among the hypotheses because the
/// pass itself guarantees it.
pub proof fn lemma_lifecycle_invariants(a: World, c: World)
    requires
        a.wf(),
        c.wf(),
        lifecycle_rel(a, c),
        a.sel_links_live(),
        a.no_orphans(),
        lone_creation(a),
        lone_teardown(a),
    ensures
        c.coupled(),
        c.no_orphans(),
        forall|i: int| !creation_candidate(c, i),
        forall|i: int| !teardown_candidate(c, i),
        forall|i: int| #[trigger] c.sel(i) ==> a.sel(i) && c.ent(i).pos == a.ent(i).pos,
{
    vstd::std_specs::vec::axiom_spec_len(&a.ents);
    vstd::std_specs::vec::axiom_spec_len(&c.ents);
    let b = choose|b: World| #[trigger] creation_rel(a, b) && teardown_rel(b, c);
    vstd::std_specs::vec::axiom_spec_len(&b.ents);

    // Facts about the creation step.
    assert(b.wf() && sel_links_live_of(b) && no_orphans_of(b) && tc_same(a, b) && sel_pos_same(
        a,
        b,
    ) && no_cc(b)) by {
        if exists|i: int| creation_candidate(a, i) {
            let s1 = choose|s1: int| #[trigger] created_from(a, b, s1);
            lemma_creation_wf(a, b, s1);
            let m = a.n();
            assert(b.linked(s1) && b.link_of(s1) == m && b.live_marker(m));
            assert forall|j: int| #[trigger] b.linked(j) && b.ent(j).selected implies b.live_marker(
                b.link_of(j),
            ) by {
                if j != s1 {
                    assert(b.ent(j) == a.ent(j));
                    assert(a.linked(j) && a.link_of(j) == b.link_of(j));
                    assert(a.live_marker(a.link_of(j)));
                    assert(a.wf_at(j));
                    assert(b.ent(a.link_of(j)) == a.ent(a.link_of(j)));
                }
            }
            assert forall|x: int| #[trigger] b.live_marker(x) implies exists|j: int|
                #[trigger] b.linked(j) && b.link_of(j) == x by {
                if x == m {
                    assert(b.linked(s1) && b.link_of(s1) == x);
                } else {
                    assert(b.ent(x) == a.ent(x) || x == s1);
                    assert(a.live_marker(x));
                    let j = choose|j: int| #[trigger] a.linked(j) && a.link_of(j) == x;
                    assert(j != s1);
                    assert(b.ent(j) == a.ent(j));
                    assert(b.linked(j) && b.link_of(j) == x);
                }
            }
            assert forall|j: int| teardown_candidate(b, j) == teardown_candidate(a, j) by {
                if j == s1 || j == m || !(0 <= j < a.n()) {
                    assert(!teardown_candidate(b, j) && !teardown_candidate(a, j));
                } else {
                    assert(b.ent(j) == a.ent(j));
                }
            }
            assert forall|i: int| #[trigger] b.sel(i) implies a.sel(i) && b.ent(i).pos == a.ent(
                i,
            ).pos by {
                if i != s1 {
                    assert(i == m || b.ent(i) == a.ent(i));
                }
            }
            assert forall|i: int| !creation_candidate(b, i) by {
                if creation_candidate(b, i) {
                    assert(i != s1 && i != m);
                    assert(b.ent(i) == a.ent(i));
                    assert(creation_candidate(a, i));
                    assert(i == s1);
                }
            }
        } else {
            assert(b.ents@ == a.ents@);
            assert forall|i: int| 0 <= i < b.n() implies b.wf_at(i) by {
                assert(a.wf_at(i));
                assert(b.ent(i) == a.ent(i));
                if b.linked(i) {
                    assert(b.ent(b.link_of(i)) == a.ent(b.link_of(i)));
                }
            }
            assert forall|i: int, j: int|
                b.linked(i) && b.linked(j) && i != j implies #[trigger] b.link_of(i)
                != #[trigger] b.link_of(j) by {
                assert(a.linked(i) && a.linked(j));
                assert(a.link_of(i) == b.link_of(i) && a.link_of(j) == b.link_of(j));
            }
            assert forall|j: int| #[trigger] b.linked(j) && b.ent(j).selected implies b.live_marker(
                b.link_of(j),
            ) by {
                assert(b.ent(j) == a.ent(j));
                assert(a.linked(j) && a.link_of(j) == b.link_of(j));
                assert(b.ent(a.link_of(j)) == a.ent(a.link_of(j)));
            }
            assert forall|x: int| #[trigger] b.live_marker(x) implies exists|j: int|
                #[trigger] b.linked(j) && b.link_of(j) == x by {
                assert(b.ent(x) == a.ent(x));
                assert(a.live_marker(x));
                let j = choose|j: int| #[trigger] a.linked(j) && a.link_of(j) == x;
                assert(b.ent(j) == a.ent(j));
                assert(b.linked(j) && b.link_of(j) == x);
            }
            assert forall|j: int| teardown_candidate(b, j) == teardown_candidate(a, j) by {
                if 0 <= j < a.n() {
                    assert(b.ent(j) == a.ent(j));
                }
            }
            assert forall|i: int| #[trigger] b.sel(i) implies a.sel(i) && b.ent(i).pos == a.ent(
                i,
            ).pos by {
                assert(b.ent(i) == a.ent(i));
            }
            assert forall|i: int| !creation_candidate(b, i) by {
                if creation_candidate(b, i) {
                    assert(b.ent(i) == a.ent(i));
                    assert(creation_candidate(a, i));
                }
            }
        }
    }

    // The teardown step.
    if exists|i: int| teardown_candidate(b, i) {
        let s2 = choose|s2: int| #[trigger] torn_from(b, c, s2);
        let mk = b.link_of(s2);
        assert(b.wf_at(s2));
        assert(!b.ent(s2).is_marker && b.linked(s2));
        assert(s2 != mk) by {
            assert(b.ent(mk).is_marker);
        }
        assert(c.ent(s2) == (Entity { link: None, ..b.ent(s2) }));
        assert forall|j: int| 0 <= j < b.n() && j != s2 && j != mk implies c.ent(j) == b.ent(
            j,
        ) by {}
        assert forall|j: int| #[trigger] c.linked(j) implies c.live_marker(c.link_of(j)) by {
            assert(j != s2);
            assert(c.ent(j).link == b.ent(j).link) by {
                if j == mk {
                    assert(b.ent(mk).is_marker && b.wf_at(mk));
                }
            }
            assert(b.linked(j) && b.link_of(j) == c.link_of(j));
            if b.ent(j).selected {
                assert(b.live_marker(b.link_of(j)));
                assert(b.link_of(j) != mk) by {
                    if b.link_of(j) == mk {
                        assert(b.link_of(j) == b.link_of(s2));
                    }
                }
                assert(c.ent(b.link_of(j)) == b.ent(b.link_of(j)));
            } else {
                assert(b.wf_at(j));
                assert(teardown_candidate(b, j) && teardown_candidate(b, s2));
                assert(j == s2);
            }
        }
        assert forall|x: int| #[trigger] c.live_marker(x) implies exists|j: int|
            #[trigger] c.linked(j) && c.link_of(j) == x by {
            assert(x != s2) by {
                assert(!b.ent(s2).is_marker);
            }
            assert(x != mk || !b.live(mk)) by {
                if b.live(mk) && x == mk {
                    assert(!c.ent(mk).alive);
                }
            }
            assert(c.ent(x) == b.ent(x));
            assert(b.live_marker(x));
            let j = choose|j: int| #[trigger] b.linked(j) && b.link_of(j) == x;
            assert(j != s2) by {
                if j == s2 {
                    assert(x == mk);
                    assert(b.live(mk));
                }
            }
            assert(j != mk) by {
                if j == mk {
                    assert(b.wf_at(mk));
                }
            }
            assert(c.ent(j) == b.ent(j));
            assert(c.linked(j) && c.link_of(j) == x);
        }
        assert forall|i: int| !creation_candidate(c, i) by {
            if creation_candidate(c, i) {
                assert(i != s2 && i != mk);
                assert(c.ent(i) == b.ent(i));
                assert(creation_candidate(b, i));
            }
        }
        assert forall|i: int| !teardown_candidate(c, i) by {
            if teardown_candidate(c, i) {
                assert(i != s2);
                assert(i != mk) by {
                    if i == mk {
                        assert(b.wf_at(mk) && b.ent(mk).is_marker);
                        assert(c.ent(mk).link == b.ent(mk).link);
                    }
                }
                assert(c.ent(i) == b.ent(i));
                assert(teardown_candidate(b, i) && teardown_candidate(b, s2));
                assert(i == s2);
            }
        }
        assert forall|i: int| #[trigger] c.sel(i) implies a.sel(i) && c.ent(i).pos == a.ent(
            i,
        ).pos by {
            assert(i != mk || !b.live(mk)) by {
                if b.live(mk) && i == mk {
                    assert(!c.ent(mk).alive);
                }
            }
            if i == mk {
                assert(b.ent(mk).is_marker && !c.ent(i).is_marker);
            }
            assert(i != s2 ==> c.ent(i) == b.ent(i));
            assert(b.sel(i));
        }
    } else {
        assert(c.ents@ == b.ents@);
        assert forall|j: int| #[trigger] c.linked(j) implies c.live_marker(c.link_of(j)) by {
            assert(c.ent(j) == b.ent(j));
            assert(b.linked(j) && b.link_of(j) == c.link_of(j));
            assert(b.wf_at(j));
            if b.ent(j).selected {
                assert(b.live_marker(b.link_of(j)));
            } else {
                assert(teardown_candidate(b, j));
            }
            assert(c.ent(b.link_of(j)) == b.ent(b.link_of(j)));
        }
        assert forall|x: int| #[trigger] c.live_marker(x) implies exists|j: int|
            #[trigger] c.linked(j) && c.link_of(j) == x by {
            assert(c.ent(x) == b.ent(x));
            assert(b.live_marker(x));
            let j = choose|j: int| #[trigger] b.linked(j) && b.link_of(j) == x;
            assert(c.ent(j) == b.ent(j));
            assert(c.linked(j) && c.link_of(j) == x);
        }
        assert forall|i: int| !creation_candidate(c, i) by {
            if creation_candidate(c, i) {
                assert(c.ent(i) == b.ent(i));
                assert(creation_candidate(b, i));
            }
        }
        assert forall|i: int| !teardown_candidate(c, i) by {
            if teardown_candidate(c, i) {
                assert(c.ent(i) == b.ent(i));
                assert(teardown_candidate(b, i));
            }
        }
        assert forall|i: int| #[trigger] c.sel(i) implies a.sel(i) && c.ent(i).pos == a.ent(
            i,
        ).pos by {
            assert(c.ent(i) == b.ent(i));
            assert(b.sel(i));
        }
    }
}

/// Helper conjuncts about the intermediate world of a lifecycle pass.
spec fn sel_links_live_of(b: World) -> bool {
    b.sel_links_live()
}

spec fn no_orphans_of(b: World) -> bool {
    b.no_orphans()
}

spec fn tc_same(a: World, b: World) -> bool {
    forall|j: int| teardown_candidate(b, j) == teardown_candidate(a, j)
}

spec fn sel_pos_same(a: World, b: World) -> bool {
    forall|i: int| #[trigger] b.sel(i) ==> a.sel(i) && b.ent(i).pos == a.ent(i).pos
}

spec fn no_cc(b: World) -> bool {
    forall|i: int| !creation_candidate(b, i)
}

/// Marker exclusivity: after a lifecycle pass under the assumptions of
/// `lemma_lifecycle_invariants` — and with every selected entity carrying
/// a transform — the number of live marker entities equals the number of
/// selected entities.
pub proof fn lemma_marker_exclusivity(a: World, c: World)
    requires
        a.wf(),
        c.wf(),
        lifecycle_rel(a, c),
        a.sel_links_live(),
        a.no_orphans(),
        lone_creation(a),
        lone_teardown(a),
        forall|i: int| #[trigger] a.sel(i) ==> a.ent(i).pos is Some,
    ensures
        c.marker_ids().finite(),
        c.selected_ids().finite(),
        c.marker_ids().len() == c.selected_ids().len(),
{
    lemma_lifecycle_invariants(a, c);
    assert forall|i: int| #[trigger] c.sel(i) implies c.linked(i) by {
        assert(a.sel(i) && c.ent(i).pos == a.ent(i).pos);
        if !c.linked(i) {
            assert(creation_candidate(c, i));
        }
    }
    assert forall|i: int| #[trigger] c.linked(i) implies c.sel(i) by {
        assert(c.wf_at(i));
        if !c.ent(i).selected {
            assert(teardown_candidate(c, i));
        }
    }
    crate::world::lemma_marker_count_matches_selection(c);
}

/// Idempotent teardown: when the processed entity's marker was already
/// destroyed elsewhere, the pass still removes the stale link and touches
/// nothing else.
pub proof fn lemma_teardown_idempotent(b: World, c: World, s: int)
    requires
        b.wf(),
        torn_from(b, c, s),
        !b.live(b.link_of(s)),
    ensures
        c.ent(s).link is None,
        c.ent(s) == (Entity { link: None, ..b.ent(s) }),
        c.ents@.len() == b.ents@.len(),
        forall|j: int| 0 <= j < b.n() && j != s ==> c.ent(j) == b.ent(j),
{
    assert forall|j: int| 0 <= j < b.n() && j != s implies c.ent(j) == b.ent(j) by {
        assert(c.ents@[j] == b.ents@[j]);
    }
}

/// Entities `i` agree as in `same_core`, and non-marker entities agree
/// entirely: what a pass that moves only marker transforms leaves behind.
pub open spec fn same_nonmarker(a: World, b: World, i: int) -> bool {
    crate::world::same_core(a, b, i) && (!a.ent(i).is_marker ==> b.ent(i) == a.ent(i))
}

/// The lifecycle pass's environment assumptions are insensitive to marker
/// positions: a pass that moved only marker transforms (leaving every
/// non-marker entity untouched) carries them over.
pub proof fn lemma_assumptions_frame(a: World, b: World)
    requires
        a.wf(),
        b.ents@.len() == a.ents@.len(),
        forall|i: int| 0 <= i < a.n() ==> #[trigger] same_nonmarker(a, b, i),
    ensures
        a.sel_links_live() ==> b.sel_links_live(),
        a.no_orphans() ==> b.no_orphans(),
        lone_creation(a) ==> lone_creation(b),
        lone_teardown(a) ==> lone_teardown(b),
        (forall|i: int| #[trigger] a.sel(i) ==> a.ent(i).pos is Some) ==> (forall|i: int|
            #[trigger] b.sel(i) ==> b.ent(i).pos is Some),
{
    assert forall|i: int| 0 <= i < a.n() implies #[trigger] crate::world::same_core(a, b, i) by {
        assert(same_nonmarker(a, b, i));
    }
    crate::world::lemma_coupling_frame(a, b);
    if a.sel_links_live() {
        assert forall|j: int| #[trigger] b.linked(j) && b.ent(j).selected implies b.live_marker(
            b.link_of(j),
        ) by {
            assert(same_nonmarker(a, b, j));
            assert(a.linked(j) && a.link_of(j) == b.link_of(j));
            assert(a.live_marker(a.link_of(j)));
            if 0 <= a.link_of(j) < a.n() {
                assert(same_nonmarker(a, b, a.link_of(j)));
            }
        }
    }
    assert forall|i: int| #[trigger] creation_candidate(b, i) implies creation_candidate(
        a,
        i,
    ) by {
        assert(same_nonmarker(a, b, i));
        assert(a.wf_at(i));
    }
    assert forall|i: int| #[trigger] teardown_candidate(b, i) == teardown_candidate(a, i) by {
        if 0 <= i < a.n() {
            assert(same_nonmarker(a, b, i));
        }
    }
    if lone_creation(a) {
        assert forall|i: int, j: int|
            #[trigger] creation_candidate(b, i) && #[trigger] creation_candidate(b, j) implies i
            == j by {
            assert(creation_candidate(a, i) && creation_candidate(a, j));
        }
    }
    if forall|i: int| #[trigger] a.sel(i) ==> a.ent(i).pos is Some {
        assert forall|i: int| #[trigger] b.sel(i) implies b.ent(i).pos is Some by {
            assert(same_nonmarker(a, b, i));
            assert(a.sel(i));
            assert(a.wf_at(i));
        }
    }
}


} // verus!

//! The shared entity/component store, modelled as plain data.
//!
//! An entity is an index into a vector; indices are never reused, so a
//! destroyed entity keeps its slot with `alive` false and a stored marker
//! link stays meaningful as a weak reference that must be paired with a
//! liveness check. Components are optional fields on the entity record:
//! a world transform, a UI-space mirror of it, the movement command, the
//! selection flag supplied by the input collaborator, the link from a
//! selected entity to its marker, and an opaque visual index.

use crate::geom::Vec2;
use crate::geom::in_bounds;
use vstd::prelude::*;
use vstd::set_lib::lemma_int_range;
use vstd::set_lib::lemma_len_subset;
use vstd::set_lib::lemma_map_size;
use vstd::relations::injective_on;

verus! {

/// The pending movement command of a selectable object: the world-space
/// point it was last ordered to, or absent while no order is pending.
#[derive(Clone, Copy, Debug, PartialEq, Eq, Structural)]
pub struct Movable {
    pub ordered_to: Option<Vec2>,
}

impl Movable {
    /// A movable component with no order pending.
    pub fn new() -> (r: Movable)
        ensures
            r.ordered_to is None,
    {
        Movable { ordered_to: None }
    }
}

/// One entity with the components attached to it. `is_marker` records that
/// the entity was created by the marker lifecycle as a selection marker.
#[derive(Clone, Copy, Debug)]
pub struct Entity {
    pub alive: bool,
    pub is_marker: bool,
    pub selected: bool,
    pub pos: Option<Vec2>,
    pub ui_pos: Option<Vec2>,
    pub movable: Option<Movable>,
    pub link: Option<usize>,
    pub visual: Option<u32>,
}

/// Every stored coordinate of the entity is within the coordinate range.
pub open spec fn bounded_ent(e: Entity) -> bool {
    &&& match e.pos {
        Some(p) => in_bounds(p),
        None => true,
    }
    &&& match e.ui_pos {
        Some(p) => in_bounds(p),
        None => true,
    }
    &&& match e.movable {
        Some(m) => match m.ordered_to {
            Some(t) => in_bounds(t),
            None => true,
        },
        None => true,
    }
}

/// The internal-consistency failure of the marker lifecycle: a marker link
/// was about to be recorded on an entity that already carries one.
#[derive(Clone, Copy, Debug, PartialEq, Eq, Structural)]
pub enum LinkError {
    AlreadyLinked,
}

/// The entity store, together with the configured visual index that every
/// new marker entity is given.
#[derive(Debug)]
pub struct World {
    pub ents: Vec<Entity>,
    pub marker_visual: u32,
}

impl World {
    /// Number of slots ever created.
    pub open spec fn n(self) -> int {
        self.ents@.len() as int
    }

    pub open spec fn ent(self, i: int) -> Entity {
        self.ents@[i]
    }

    /// Entity `i` exists and has not been destroyed.
    pub open spec fn live(self, i: int) -> bool {
        0 <= i < self.n() && self.ent(i).alive
    }

    /// Entity `i` is a live marker entity.
    pub open spec fn live_marker(self, i: int) -> bool {
        self.live(i) && self.ent(i).is_marker
    }

    /// Entity `i` is a live, selected source entity.
    pub open spec fn sel(self, i: int) -> bool {
        self.live(i) && !self.ent(i).is_marker && self.ent(i).selected
    }

    /// Entity `i` carries a marker link.
    pub open spec fn linked(self, i: int) -> bool {
        0 <= i < self.n() && self.ent(i).link is Some
    }

    /// The marker entity that `i`'s link names.
    pub open spec fn link_of(self, i: int) -> int {
        self.ent(i).link->Some_0 as int
    }

    /// Per-entity well-formedness: coordinates bounded, only live
    /// non-marker entities selected, markers carry no movement or UI
    /// state and no link of their own, and a link names a marker slot.
    pub open spec fn wf_at(self, i: int) -> bool {
        let e = self.ent(i);
        &&& bounded_ent(e)
        &&& e.selected ==> e.alive && !e.is_marker
        &&& e.is_marker ==> e.movable is None && e.ui_pos is None && e.link is None
        &&& e.link matches Some(m) ==> e.alive && !e.is_marker && (m as int) < self.n()
            && self.ent(m as int).is_marker
    }

    /// No two entities link the same marker (part of invariant I3).
    pub open spec fn links_injective(self) -> bool {
        forall|i: int, j: int|
            #![trigger self.link_of(i), self.link_of(j)]
            self.linked(i) && self.linked(j) && i != j ==> self.link_of(i) != self.link_of(j)
    }

    pub open spec fn wf(self) -> bool {
        &&& forall|i: int| 0 <= i < self.n() ==> #[trigger] self.wf_at(i)
        &&& self.links_injective()
    }

    /// Invariant I2, one direction: every link names a live marker.
    pub open spec fn coupled(self) -> bool {
        forall|i: int| #[trigger] self.linked(i) ==> self.live_marker(self.link_of(i))
    }

    /// Invariant I2, the other direction: every live marker is named by a
    /// link.
    pub open spec fn no_orphans(self) -> bool {
        forall|m: int| #[trigger] self.live_marker(m)
            ==> exists|i: int| #[trigger] self.linked(i) && self.link_of(i) == m
    }

    /// The marker of every still-selected entity is live: the environment
    /// has not destroyed a marker out from under an ongoing selection.
    pub open spec fn sel_links_live(self) -> bool {
        forall|i: int| #[trigger] self.linked(i) && self.ent(i).selected
            ==> self.live_marker(self.link_of(i))
    }

    pub open spec fn marker_ids(self) -> Set<int> {
        Set::new(|i: int| self.live_marker(i))
    }

    pub open spec fn linked_ids(self) -> Set<int> {
        Set::new(|i: int| self.linked(i))
    }

    pub open spec fn selected_ids(self) -> Set<int> {
        Set::new(|i: int| self.sel(i))
    }

    /// An empty store configured with the visual index for markers.
    pub fn new(marker_visual: u32) -> (r: World)
        ensures
            r.wf(),
            r.n() == 0,
            r.marker_visual == marker_visual,
    {
        World { ents: Vec::new(), marker_visual }
    }

    pub fn num_entities(&self) -> (r: usize)
        ensures
            r as int == self.n(),
    {
        self.ents.len()
    }

    /// Liveness query for a weak entity reference.
    pub fn is_alive(&self, id: usize) -> (r: bool)
        ensures
            r == self.live(id as int),
    {
        id < self.ents.len() && self.ents[id].alive
    }

    pub fn entity_at(&self, id: usize) -> (r: Entity)
        requires
            (id as int) < self.n(),
        ensures
            r == self.ent(id as int),
    {
        self.ents[id]
    }

    /// Create an entity with the given initial component set; its identity
    /// is the next fresh slot.
    pub fn spawn(&mut self, e: Entity) -> (id: usize)
        requires
            old(self).wf(),
            e.alive,
            e.link is None,
            bounded_ent(e),
            e.is_marker ==> !e.selected && e.movable is None && e.ui_pos is None,
        ensures
            final(self).wf(),
            id as int == old(self).n(),
            final(self).ents@ == old(self).ents@.push(e),
            final(self).marker_visual == old(self).marker_visual,
    {
        let id = self.ents.len();
        self.ents.push(e);
        proof {
            assert forall|i: int| 0 <= i < self.n() implies self.wf_at(i) by {
                if i < old(self).n() {
                    assert(old(self).wf_at(i));
                    assert(self.ent(i) == old(self).ent(i));
                }
            }
            assert forall|i: int, j: int|
                self.linked(i) && self.linked(j) && i != j implies #[trigger] self.link_of(i)
                != #[trigger] self.link_of(j) by {
                assert(self.ent(old(self).n()).link is None);
                assert(i < old(self).n() && j < old(self).n());
                assert(self.ent(i) == old(self).ent(i) && self.ent(j) == old(self).ent(j));
                assert(old(self).linked(i) && old(self).linked(j));
                assert(old(self).link_of(i) != old(self).link_of(j));
            }
        }
        id
    }

    /// Destroy an entity: its slot stays, dead, with no selection and no
    /// link, so stored references to it turn stale rather than dangle.
    pub fn destroy(&mut self, id: usize)
        requires
            old(self).wf(),
            (id as int) < old(self).n(),
        ensures
            final(self).wf(),
            final(self).ents@ == old(self).ents@.update(
                id as int,
                (Entity { alive: false, selected: false, link: None, ..old(self).ent(id as int) }),
            ),
            final(self).marker_visual == old(self).marker_visual,
    {
        let e = self.ents[id];
        self.ents[id] = Entity { alive: false, selected: false, link: None, ..e };
        proof {
            self.lemma_update_wf(*old(self), id as int);
        }
    }

    /// Set or clear the selection flag on a live source entity; the
    /// selection state itself is owned by the input collaborator.
    pub fn set_selected(&mut self, id: usize, on: bool)
        requires
            old(self).wf(),
            (id as int) < old(self).n(),
            old(self).ent(id as int).alive,
            !old(self).ent(id as int).is_marker,
        ensures
            final(self).wf(),
            final(self).ents@ == old(self).ents@.update(
                id as int,
                (Entity { selected: on, ..old(self).ent(id as int) }),
            ),
            final(self).marker_visual == old(self).marker_visual,
    {
        let e = self.ents[id];
        self.ents[id] = Entity { selected: on, ..e };
        proof {
            self.lemma_update_wf(*old(self), id as int);
        }
    }

    /// Record the marker link on a source entity.
    ///
    /// Recording a link where one is already present would break invariant
    /// I3, so it is refused as an internal-consistency error and the store
    /// is left unchanged; the error comes exactly on that input.
    pub fn insert_link(&mut self, source: usize, marker: usize) -> (r: Result<(), LinkError>)
        requires
            old(self).wf(),
            (source as int) < old(self).n(),
            (marker as int) < old(self).n(),
            old(self).ent(source as int).alive,
            !old(self).ent(source as int).is_marker,
            old(self).ent(marker as int).is_marker,
            forall|j: int| #[trigger] old(self).linked(j) ==> old(self).link_of(j) != marker as int,
        ensures
            final(self).wf(),
            final(self).marker_visual == old(self).marker_visual,
            old(self).ent(source as int).link is Some ==> r
                == Err::<(), LinkError>(LinkError::AlreadyLinked) && final(self).ents@ == old(
                self,
            ).ents@,
            old(self).ent(source as int).link is None ==> r == Ok::<(), LinkError>(())
                && final(self).ents@ == old(self).ents@.update(
                source as int,
                (Entity { link: Some(marker), ..old(self).ent(source as int) }),
            ),
    {
        if self.ents[source].link.is_some() {
            return Err(LinkError::AlreadyLinked);
        }
        let e = self.ents[source];
        self.ents[source] = Entity { link: Some(marker), ..e };
        proof {
            self.lemma_update_wf(*old(self), source as int);
        }
        Ok(())
    }

    /// Remove the marker link from an entity, whatever it names.
    pub fn remove_link(&mut self, source: usize)
        requires
            old(self).wf(),
            (source as int) < old(self).n(),
        ensures
            final(self).wf(),
            final(self).marker_visual == old(self).marker_visual,
            final(self).ents@ == old(self).ents@.update(
                source as int,
                (Entity { link: None, ..old(self).ent(source as int) }),
            ),
    {
        let e = self.ents[source];
        self.ents[source] = Entity { link: None, ..e };
        proof {
            self.lemma_update_wf(*old(self), source as int);
        }
    }

    /// Re-establish well-formedness after replacing one entity, when the
    /// replacement keeps the entity's marker nature, positions and movement
    /// state, and either keeps its link, drops it, or adds a link to a
    /// marker slot nobody else links.
    pub proof fn lemma_update_wf(self, pre: World, id: int)
        requires
            pre.wf(),
            0 <= id < pre.n(),
            self.ents@ == pre.ents@.update(id, self.ents@[id]),
            self.ent(id).is_marker == pre.ent(id).is_marker,
            self.ent(id).pos == pre.ent(id).pos,
            self.ent(id).ui_pos == pre.ent(id).ui_pos,
            self.ent(id).movable == pre.ent(id).movable,
            self.ent(id).link is Some ==> self.ent(id).alive,
            (self.ent(id).selected == pre.ent(id).selected && self.ent(id).alive == pre.ent(
                id,
            ).alive) || (self.ent(id).selected ==> self.ent(id).alive && !self.ent(id).is_marker),
            self.ent(id).link == pre.ent(id).link || self.ent(id).link is None || (self.ent(
                id,
            ).alive && !self.ent(id).is_marker && self.ent(id).link is Some && self.link_of(id)
                < pre.n() && pre.ent(self.link_of(id)).is_marker && forall|j: int|
                #[trigger] pre.linked(j) ==> pre.link_of(j) != self.link_of(id)),
        ensures
            self.wf(),
    {
        assert(self.n() == pre.n());
        assert(pre.wf_at(id));
        assert forall|i: int| 0 <= i < self.n() implies self.wf_at(i) by {
            assert(pre.wf_at(i));
            if i != id {
                assert(self.ent(i) == pre.ent(i));
            }
            if self.linked(i) {
                let m = self.link_of(i);
                if i == id {
                    if self.ent(id).link == pre.ent(id).link {
                        assert(pre.linked(id) && pre.link_of(id) == m);
                        assert(pre.ent(m).is_marker && m < pre.n());
                    }
                } else {
                    assert(pre.linked(i) && pre.link_of(i) == m);
                    assert(pre.ent(m).is_marker && m < pre.n());
                }
                assert(m == id || self.ent(m) == pre.ent(m));
                assert(self.ent(m).is_marker == pre.ent(m).is_marker);
            }
        }
        assert forall|i: int, j: int|
            self.linked(i) && self.linked(j) && i != j implies #[trigger] self.link_of(i)
            != #[trigger] self.link_of(j) by {
            if i != id {
                assert(self.ent(i) == pre.ent(i));
                assert(pre.linked(i) && pre.link_of(i) == self.link_of(i));
            }
            if j != id {
                assert(self.ent(j) == pre.ent(j));
                assert(pre.linked(j) && pre.link_of(j) == self.link_of(j));
            }
            if i == id || j == id {
                let k = if i == id { j } else { i };
                if self.ent(id).link == pre.ent(id).link {
                    assert(pre.linked(id) && pre.link_of(id) == self.link_of(id));
                    assert(pre.link_of(id) != pre.link_of(k));
                } else {
                    assert(pre.linked(k));
                    assert(pre.link_of(k) != self.link_of(id));
                }
            }
        }
    }
}

/// Marker exclusivity: when every link names a live marker, every live
/// marker is named by a link, and the linked entities are exactly the
/// selected ones, there are exactly as many live marker entities as
/// selected entities.
pub proof fn lemma_marker_count_matches_selection(w: World)
    requires
        w.wf(),
        w.coupled(),
        w.no_orphans(),
        forall|i: int| #[trigger] w.sel(i) ==> w.linked(i),
        forall|i: int| #[trigger] w.linked(i) ==> w.sel(i),
    ensures
        w.marker_ids().finite(),
        w.selected_ids().finite(),
        w.marker_ids().len() == w.selected_ids().len(),
{
    let range = vstd::set_lib::set_int_range(0, w.n());
    lemma_int_range(0, w.n());
    lemma_len_subset(w.marker_ids(), range);
    lemma_len_subset(w.linked_ids(), range);
    lemma_len_subset(w.selected_ids(), range);
    assert(w.linked_ids() =~= w.selected_ids());
    let f = |i: int| w.link_of(i);
    assert(w.linked_ids().map(f) =~= w.marker_ids()) by {
        assert forall|m: int| w.marker_ids().contains(m) implies w.linked_ids().map(
            f,
        ).contains(m) by {
            assert(w.live_marker(m));
            let i = choose|i: int| #[trigger] w.linked(i) && w.link_of(i) == m;
            assert(w.linked_ids().contains(i) && f(i) == m);
        }
    }
    assert(injective_on(f, w.linked_ids()));
    lemma_map_size(w.linked_ids(), w.marker_ids(), f);
}

/// Entities `i` of the two stores agree on liveness, marker nature,
/// selection and link.
pub open spec fn same_core(a: World, b: World, i: int) -> bool {
    &&& b.ent(i).alive == a.ent(i).alive
    &&& b.ent(i).is_marker == a.ent(i).is_marker
    &&& b.ent(i).selected == a.ent(i).selected
    &&& b.ent(i).link == a.ent(i).link
}

/// Link/marker coupling, orphan-freedom and the marker and selection
/// counts depend only on liveness, marker nature, selection and links —
/// a pass that rewrites nothing but positions and movement state keeps
/// them all.
pub proof fn lemma_coupling_frame(a: World, b: World)
    requires
        b.ents@.len() == a.ents@.len(),
        forall|i: int| 0 <= i < a.n() ==> #[trigger] same_core(a, b, i),
    ensures
        a.coupled() ==> b.coupled(),
        a.no_orphans() ==> b.no_orphans(),
        b.marker_ids() == a.marker_ids(),
        b.selected_ids() == a.selected_ids(),
{
    assert forall|j: int| #[trigger] b.linked(j) implies a.linked(j) && a.link_of(j) == b.link_of(
        j,
    ) by {
        assert(same_core(a, b, j));
    }
    assert forall|j: int| #[trigger] a.linked(j) implies b.linked(j) by {
        assert(same_core(a, b, j));
    }
    assert forall|x: int| #[trigger] b.live_marker(x) == a.live_marker(x) by {
        if 0 <= x < a.n() {
            assert(same_core(a, b, x));
        }
    }
    if a.coupled() {
        assert forall|j: int| #[trigger] b.linked(j) implies b.live_marker(b.link_of(j)) by {
            assert(a.linked(j) && a.live_marker(a.link_of(j)));
        }
    }
    if a.no_orphans() {
        assert forall|x: int| #[trigger] b.live_marker(x) implies exists|j: int|
            #[trigger] b.linked(j) && b.link_of(j) == x by {
            assert(a.live_marker(x));
            let j = choose|j: int| #[trigger] a.linked(j) && a.link_of(j) == x;
            assert(b.linked(j) && b.link_of(j) == x);
        }
    }
    assert(b.marker_ids() =~= a.marker_ids());
    assert forall|i: int| #[trigger] b.sel(i) == a.sel(i) by {
        if 0 <= i < a.n() {
            assert(same_core(a, b, i));
        }
    }
    assert(b.selected_ids() =~= a.selected_ids());
}


} // verus!

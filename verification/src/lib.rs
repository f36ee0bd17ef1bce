//! Core simulation logic for a pointer-driven "select and move" demo.
//!
//! Two subsystems run once per simulation tick over a shared entity store:
//! waypoint steering (translate pointer state into a movement command and
//! advance entities toward their targets at a bounded speed) and the
//! selection-marker lifecycle (keep exactly one marker entity alive per
//! selected entity). Rendering, asset loading, input polling and windowing
//! are collaborators outside this crate; the store and all coordinates are
//! modelled here with plain data so the per-tick rules can be verified.
//!
//! World-space and screen-space coordinates are fixed-point integers in
//! thousandths of a unit ("milli-units"), so one world unit is 1000.

use vstd::prelude::*;

pub mod geom;
pub mod lifecycle;
pub mod steering;
pub mod world;

use crate::geom::PointerInput;
use crate::lifecycle::lemma_assumptions_frame;
use crate::lifecycle::lemma_lifecycle_invariants;
use crate::lifecycle::lemma_marker_exclusivity;
use crate::lifecycle::lifecycle_pass;
use crate::lifecycle::lifecycle_rel;
use crate::lifecycle::lone_creation;
use crate::lifecycle::lone_teardown;
use crate::lifecycle::same_nonmarker;
use crate::steering::acquire_rel;
use crate::steering::acquire_targets;
use crate::steering::advance_markers;
use crate::steering::advance_candidate;
use crate::steering::advance_rel;
use crate::steering::advanced_marker;
use crate::steering::integrate_motion;
use crate::steering::marker_stepped;
use crate::steering::motion_rel;
use crate::world::LinkError;
use crate::world::World;
use crate::world::lemma_coupling_frame;
use crate::world::same_core;

verus! {

/// Relates the world before a tick to the world after it: marker advance,
/// then the marker lifecycle, then target acquisition, then motion
/// integration, each exactly as its own pass describes.
pub open spec fn tick_rel(a: World, d: World, inp: PointerInput) -> bool {
    exists|b: World, c: World, cq: World|
        #![trigger lifecycle_rel(b, c), acquire_rel(c, cq, inp)]
        advance_rel(a, b) && lifecycle_rel(b, c) && acquire_rel(c, cq, inp) && motion_rel(cq, d)
}

/// One simulation tick.
///
/// The passes are ordered so that a marker created this tick, and a movement
/// command issued this tick, first move a marker on the next tick: markers
/// advance before the lifecycle pass runs and before new commands are read.
/// Source entities, by contrast, obey a fresh command within the same tick.
///
/// The last two clauses state the per-tick invariants. When the environment
/// changed at most one selection each way since the last tick and destroyed
/// no marker of a still-selected entity, then after the tick every marker
/// link names a live marker and every live marker is named by a link; and
/// when every selected entity also carries a transform, the live markers
/// are in one-to-one correspondence with the selected entities.
pub fn tick(w: &mut World, inp: &PointerInput) -> (r: Result<(), LinkError>)
    requires
        old(w).wf(),
        inp.valid(),
    ensures
        final(w).wf(),
        r is Ok,
        tick_rel(*old(w), *final(w), *inp),
        old(w).sel_links_live() && old(w).no_orphans() && lone_creation(*old(w)) && lone_teardown(
            *old(w),
        ) ==> final(w).coupled() && final(w).no_orphans(),
        old(w).sel_links_live() && old(w).no_orphans() && lone_creation(*old(w)) && lone_teardown(
            *old(w),
        ) && (forall|i: int| #[trigger] old(w).sel(i) ==> old(w).ent(i).pos is Some)
            ==> final(w).marker_ids().finite() && final(w).selected_ids().finite()
            && final(w).marker_ids().len() == final(w).selected_ids().len(),
{
    let ghost w0 = *w;
    advance_markers(w);
    let ghost wa = *w;
    let lr = lifecycle_pass(w);
    let ghost wl = *w;
    match lr {
        Ok(_) => {
            acquire_targets(w, inp);
            let ghost wq = *w;
            integrate_motion(w);
            proof {
                assert(advance_rel(w0, wa) && lifecycle_rel(wa, wl) && acquire_rel(wl, wq, *inp)
                    && motion_rel(wq, *w));
                assert forall|i: int| 0 <= i < w0.n() implies #[trigger] same_nonmarker(
                    w0,
                    wa,
                    i,
                ) by {
                    if advanced_marker(w0, i) {
                        let k = choose|k: int|
                            0 <= k < w0.n() && #[trigger] advance_candidate(w0, k) && w0.link_of(k)
                                == i;
                        assert(w0.wf_at(k));
                        assert(w0.ent(i).is_marker);
                        assert(wa.ent(i) == marker_stepped(w0, i));
                    } else {
                        assert(wa.ent(i) == w0.ent(i));
                    }
                }
                lemma_assumptions_frame(w0, wa);
                assert forall|i: int| 0 <= i < wl.n() implies #[trigger] same_core(wl, wq, i) by {
                    assert(wq.ent(i).alive == wl.ent(i).alive);
                }
                lemma_coupling_frame(wl, wq);
                assert forall|i: int| 0 <= i < wq.n() implies #[trigger] same_core(
                    wq,
                    *w,
                    i,
                ) by {
                    assert(w.ent(i).alive == wq.ent(i).alive);
                }
                lemma_coupling_frame(wq, *w);
                if w0.sel_links_live() && w0.no_orphans() && lone_creation(w0) && lone_teardown(
                    w0,
                ) {
                    lemma_lifecycle_invariants(wa, wl);
                    if forall|i: int| #[trigger] w0.sel(i) ==> w0.ent(i).pos is Some {
                        lemma_marker_exclusivity(wa, wl);
                    }
                }
            }
            Ok(())
        },
        Err(e) => Err(e),
    }
}

} // verus!

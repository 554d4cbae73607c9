//! The functional model of a propagation pass.
//!
//! A pass is modelled as a *plan*: the finite map from entity handle to the
//! computed value the pass leaves in that entity's slot.  `None` in place of
//! a plan models the fatal abort on a corrupted hierarchy.  The executable
//! propagators are verified to realize exactly these plans.
//!
//! The model walks the change-gated strategy; the unconditional strategy is
//! the same walk with the inbound changed bit pinned on, which makes every
//! node recompute.

use vstd::prelude::*;
use crate::forest::Forest;
use crate::recipe::Propagate;

verus! {

/// The recursive step at entity `e`, reached from `expected_parent` with the
/// parent's `payload` and the inbound `changed` bit.
///
/// An entity that lacks the value pair or a parent link is skipped silently
/// together with its descendants (it may have been despawned).  A recorded
/// parent other than `expected_parent`, an entity reached twice, or
/// exhausted fuel (a walk deeper than the arena has entities) is fatal.
/// Otherwise the node's computed value is recomputed when the changed bit —
/// grown by the node's own local-changed flag — is set, and carried over
/// from the previous pass when it is not; the children are then walked with
/// the bit further grown by the children-list-changed flag.
pub open spec fn step_plan<T: Propagate>(
    w: Forest<T>,
    payload: T::Payload,
    expected_parent: int,
    e: int,
    changed: bool,
    acc: Map<int, T::Computed>,
    fuel: nat,
) -> Option<Map<int, T::Computed>>
    decreases fuel, 0int,
{
    if fuel == 0 {
        Option::None
    } else if !w.live(e) {
        Option::Some(acc)
    } else if w.parent@[e] is None {
        Option::Some(acc)
    } else if w.parent_of(e) != expected_parent {
        Option::None
    } else if acc.dom().contains(e) {
        Option::None
    } else {
        let now_changed = changed || w.local_changed@[e];
        let c = if now_changed {
            T::compute_spec(payload, w.local_at(e))
        } else {
            w.computed_at(e)
        };
        let acc1 = acc.insert(e, c);
        if w.has_kids(e) {
            kids_plan(
                w,
                T::payload_spec(c),
                e,
                w.kids_of(e),
                0,
                now_changed || w.children_changed@[e],
                acc1,
                (fuel - 1) as nat,
            )
        } else {
            Option::Some(acc1)
        }
    }
}

/// Walk the listed children of `parent_e` from index `k` on, threading the
/// accumulated plan; any fatal step aborts the whole pass.
pub open spec fn kids_plan<T: Propagate>(
    w: Forest<T>,
    payload: T::Payload,
    parent_e: int,
    kids: Seq<usize>,
    k: int,
    changed: bool,
    acc: Map<int, T::Computed>,
    fuel: nat,
) -> Option<Map<int, T::Computed>>
    decreases fuel, 1int + kids.len() - k,
{
    if k < 0 || k >= kids.len() {
        Option::Some(acc)
    } else {
        match step_plan(w, payload, parent_e, kids[k] as int, changed, acc, fuel) {
            Option::Some(acc1) => kids_plan(w, payload, parent_e, kids, k + 1, changed, acc1, fuel),
            Option::None => Option::None,
        }
    }
}

/// The root scan of the unconditional strategy: every root's computed value
/// is recomputed from its local value alone, and its subtree is walked with
/// the changed bit pinned on, so every reachable descendant recomputes.
pub open spec fn always_roots_plan<T: Propagate>(
    w: Forest<T>,
    r: int,
    acc: Map<int, T::Computed>,
) -> Option<Map<int, T::Computed>>
    decreases w.entity_count() - r,
{
    if r < 0 || r >= w.entity_count() {
        Option::Some(acc)
    } else if w.is_root(r) {
        let c = T::root_spec(w.local_at(r));
        let acc1 = acc.insert(r, c);
        let walked = if w.has_kids(r) {
            kids_plan(
                w,
                T::payload_spec(c),
                r,
                w.kids_of(r),
                0,
                true,
                acc1,
                w.entity_count() as nat,
            )
        } else {
            Option::Some(acc1)
        };
        match walked {
            Option::Some(acc2) => always_roots_plan(w, r + 1, acc2),
            Option::None => Option::None,
        }
    } else {
        always_roots_plan(w, r + 1, acc)
    }
}

/// The root scan of the change-gated strategy: a root recomputes only when
/// its local-changed flag is set, and its subtree is walked with the changed
/// bit seeded by the root's local-changed and children-list-changed flags.
/// The payload handed down is always derived from whatever the root's
/// computed value now is, freshly recomputed or carried over.
pub open spec fn gated_roots_plan<T: Propagate>(
    w: Forest<T>,
    r: int,
    acc: Map<int, T::Computed>,
) -> Option<Map<int, T::Computed>>
    decreases w.entity_count() - r,
{
    if r < 0 || r >= w.entity_count() {
        Option::Some(acc)
    } else if w.is_root(r) {
        let ch = w.local_changed@[r];
        let c = if ch {
            T::root_spec(w.local_at(r))
        } else {
            w.computed_at(r)
        };
        let acc1 = acc.insert(r, c);
        let walked = if w.has_kids(r) {
            kids_plan(
                w,
                T::payload_spec(c),
                r,
                w.kids_of(r),
                0,
                ch || w.children_changed@[r],
                acc1,
                w.entity_count() as nat,
            )
        } else {
            Option::Some(acc1)
        };
        match walked {
            Option::Some(acc2) => gated_roots_plan(w, r + 1, acc2),
            Option::None => Option::None,
        }
    } else {
        gated_roots_plan(w, r + 1, acc)
    }
}

/// What one unconditional pass writes: for every handle in the plan's
/// domain, the computed value it is left with.  `None` models the fatal
/// abort on a corrupted hierarchy.
pub open spec fn always_plan<T: Propagate>(w: Forest<T>) -> Option<Map<int, T::Computed>> {
    always_roots_plan(w, 0, Map::empty())
}

/// What one change-gated pass leaves in the computed slot of every entity it
/// visits (recomputed or carried over); entities outside the domain are not
/// visited at all.
pub open spec fn gated_plan<T: Propagate>(w: Forest<T>) -> Option<Map<int, T::Computed>> {
    gated_roots_plan(w, 0, Map::empty())
}

} // verus!

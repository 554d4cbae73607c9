//! Hierarchical value propagation over an entity forest.
//!
//! Entities form a forest: each entity has at most one parent, roots have
//! none.  Every participating entity carries a user-supplied *local* value
//! and a derived *computed* value.  A propagation pass walks each root's
//! subtree depth-first and pre-order, deriving every computed value from the
//! parent's payload and the node's own local value; a root's computed value
//! derives from its local value alone.
//!
//! Two interchangeable strategies are offered: [`always::AlwaysPropagate`]
//! recomputes every reachable entity on every run, and
//! [`if_changed::PropagateIfChanged`] recomputes only entities whose own
//! inputs, or one of whose ancestors' inputs, are marked changed.

use vstd::prelude::*;

pub mod recipe;
pub mod forest;
pub mod plan;
pub mod walk;
pub mod always;
pub mod if_changed;
pub mod laws;
pub mod scale;

use crate::forest::Forest;
use crate::forest::MalformedHierarchy;
use crate::recipe::Propagate;
use crate::plan::always_plan;
use crate::plan::gated_plan;

verus! {

/// Which propagation strategy a pass should use.
pub enum PropagateKind {
    /// Recompute every reachable entity's computed value on every run.
    Always,
    /// Recompute only entities reachable from something marked changed.
    IfChanged,
}

/// Update the computed values of `forest` according to the chosen strategy.
///
/// This is pure dispatch: the whole contract is the chosen strategy's
/// contract.  An `Err` means the walk found a corrupted hierarchy (a child
/// whose recorded parent is not the node that listed it, an entity reached
/// twice, or a walk deeper than the arena allows: all signs of a cycle).
pub fn propagate_system<T: Propagate>(forest: &mut Forest<T>, kind: PropagateKind) -> (r: Result<
    (),
    MalformedHierarchy,
>)
    requires
        old(forest).wf(),
    ensures
        final(forest).wf(),
        forest::same_skeleton(*old(forest), *final(forest)),
        final(forest).local_changed@ == old(forest).local_changed@,
        final(forest).children_changed@ == old(forest).children_changed@,
        match kind {
            PropagateKind::Always => match always_plan(*old(forest)) {
                Option::Some(m) => {
                    &&& r is Ok
                    &&& forall|i: int|
                        m.dom().contains(i) ==> final(forest).computed@[i] == Option::Some(m[i])
                    &&& forall|i: int|
                        0 <= i < old(forest).entity_count() && !m.dom().contains(i)
                            ==> final(forest).computed@[i] == old(forest).computed@[i]
                },
                Option::None => r is Err,
            },
            PropagateKind::IfChanged => match gated_plan(*old(forest)) {
                Option::Some(m) => {
                    &&& r is Ok
                    &&& forall|i: int|
                        m.dom().contains(i) ==> final(forest).computed@[i] == Option::Some(m[i])
                    &&& forall|i: int|
                        0 <= i < old(forest).entity_count() && !m.dom().contains(i)
                            ==> final(forest).computed@[i] == old(forest).computed@[i]
                },
                Option::None => r is Err,
            },
        },
{
    match kind {
        PropagateKind::Always => always::AlwaysPropagate::propagate(forest),
        PropagateKind::IfChanged => if_changed::PropagateIfChanged::propagate(forest),
    }
}

} // verus!

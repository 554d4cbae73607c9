//! The value recipe: how local values become computed values.

use vstd::prelude::*;

verus! {

/// A per-value-kind recipe describing how propagation combines values.
///
/// The implementing type is the *local* value stored on each entity;
/// [`Propagate::Computed`] is the derived value the propagators write, and
/// [`Propagate::Payload`] is what a node hands down to its children.  The
/// three spec functions pin each operation down exactly; the propagators
/// never interpret the values themselves.
pub trait Propagate: Sized {
    /// The derived value a propagation pass writes.
    type Computed;

    /// The value a node hands to its children as their input.
    type Payload;

    /// What the computed value of a root must be.
    spec fn root_spec(local: Self) -> Self::Computed;

    /// What the computed value of a non-root must be, given its parent's
    /// payload and its own local value.
    spec fn compute_spec(payload: Self::Payload, local: Self) -> Self::Computed;

    /// What a computed value hands down to children.
    spec fn payload_spec(computed: Self::Computed) -> Self::Payload;

    /// Initialize a root's computed value from its local value alone.
    fn compute_root(local: &Self) -> (computed: Self::Computed)
        ensures
            computed == Self::root_spec(*local),
    ;

    /// Derive this node's computed value from the parent's payload and the
    /// node's local value.
    fn compute(payload: &Self::Payload, local: &Self) -> (computed: Self::Computed)
        ensures
            computed == Self::compute_spec(*payload, *local),
    ;

    /// Reduce a computed value to the payload handed to children.
    fn payload(computed: &Self::Computed) -> (payload: Self::Payload)
        ensures
            payload == Self::payload_spec(*computed),
    ;
}

} // verus!

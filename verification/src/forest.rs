//! The entity arena: per-entity component columns indexed by handle.

use vstd::prelude::*;
use crate::recipe::Propagate;

verus! {

/// The hierarchy the walk found is corrupted: a child's recorded parent is
/// not the node that listed it, an entity was reached twice, or the walk ran
/// deeper than the arena has entities.  All of these signal a cycle or an
/// improperly maintained parent/children relation; the pass halts rather
/// than loop or write stale state.
pub struct MalformedHierarchy;

/// One propagation run's view of the entity store: a column per component,
/// indexed by integer entity handle.  `None` in a slot means the entity does
/// not carry that component (for example because it was despawned between
/// construction of a children list and the walk).
pub struct Forest<T: Propagate> {
    /// The externally owned local value of each entity.
    pub local: Vec<Option<T>>,
    /// The derived value; written exclusively by the propagators.
    pub computed: Vec<Option<T::Computed>>,
    /// The recorded parent handle; `None` marks a root.
    pub parent: Vec<Option<usize>>,
    /// The ordered children list; `None` means no children component.
    pub children: Vec<Option<Vec<usize>>>,
    /// Externally maintained flag: the local value was written since the
    /// flag was last cleared.
    pub local_changed: Vec<bool>,
    /// Externally maintained flag: the children list was written since the
    /// flag was last cleared.
    pub children_changed: Vec<bool>,
}

impl<T: Propagate> Forest<T> {
    /// Every component column covers the same entity handles.
    pub open spec fn wf(self) -> bool {
        &&& self.computed@.len() == self.local@.len()
        &&& self.parent@.len() == self.local@.len()
        &&& self.children@.len() == self.local@.len()
        &&& self.local_changed@.len() == self.local@.len()
        &&& self.children_changed@.len() == self.local@.len()
    }

    /// How many entity handles the arena covers.
    pub open spec fn entity_count(self) -> int {
        self.local@.len() as int
    }

    /// The entity carries both the local and the computed component, so a
    /// pass is responsible for (re)computing it.
    pub open spec fn live(self, e: int) -> bool {
        &&& 0 <= e < self.entity_count()
        &&& self.local@[e] is Some
        &&& self.computed@[e] is Some
    }

    /// A root: carries the value pair and records no parent.
    pub open spec fn is_root(self, e: int) -> bool {
        self.live(e) && self.parent@[e] is None
    }

    /// A non-root the recursive step can fetch: carries the value pair and
    /// records a parent.
    pub open spec fn linked(self, e: int) -> bool {
        self.live(e) && self.parent@[e] is Some
    }

    /// The recorded parent of a linked entity.
    pub open spec fn parent_of(self, e: int) -> int {
        self.parent@[e]->Some_0 as int
    }

    /// The local value of a live entity.
    pub open spec fn local_at(self, e: int) -> T {
        self.local@[e]->Some_0
    }

    /// The computed value currently stored for a live entity.
    pub open spec fn computed_at(self, e: int) -> T::Computed {
        self.computed@[e]->Some_0
    }

    /// Whether the entity carries a children list.
    pub open spec fn has_kids(self, e: int) -> bool {
        0 <= e < self.entity_count() && self.children@[e] is Some
    }

    /// The children list of an entity that carries one.
    pub open spec fn kids_of(self, e: int) -> Seq<usize> {
        self.children@[e]->Some_0@
    }
}

/// The two forests agree on everything a pass may read except the computed
/// values themselves: same columns for local values, parents, children and
/// flags, and the same pattern of present computed slots.  A propagation
/// pass only rewrites computed slots, so it always relates its input to its
/// output by this predicate.
pub open spec fn same_skeleton<T: Propagate>(w1: Forest<T>, w2: Forest<T>) -> bool {
    &&& w2.local@ == w1.local@
    &&& w2.parent@ == w1.parent@
    &&& w2.children@ == w1.children@
    &&& w2.computed@.len() == w1.computed@.len()
    &&& forall|i: int|
        0 <= i < w1.computed@.len() ==> (w1.computed@[i] is Some <==> w2.computed@[i] is Some)
}

/// Referential consistency of the parent/children relation, as required of a
/// proper forest: every listed child that is live and records a parent
/// records the listing node, and no children list names a handle twice.
pub open spec fn consistent_links<T: Propagate>(w: Forest<T>) -> bool {
    &&& forall|p: int, k: int|
        w.has_kids(p) && 0 <= k < w.kids_of(p).len() && w.linked(#[trigger] w.kids_of(p)[k] as int)
            ==> w.parent_of(w.kids_of(p)[k] as int) == p
    &&& forall|p: int, k1: int, k2: int|
        w.has_kids(p) && 0 <= k1 < k2 < w.kids_of(p).len() ==> #[trigger] w.kids_of(p)[k1]
            != #[trigger] w.kids_of(p)[k2]
}

/// A witness that no entity is its own ancestor: a rank that strictly grows
/// from parent to child, bounded by the arena size.
pub open spec fn rank_ok<T: Propagate>(w: Forest<T>, rank: spec_fn(int) -> nat) -> bool {
    &&& forall|e: int| #[trigger] w.linked(e) ==> rank(e) > rank(w.parent_of(e))
    &&& forall|e: int| #[trigger] w.live(e) ==> rank(e) < w.entity_count()
}

/// No entity is its own ancestor.
pub open spec fn acyclic<T: Propagate>(w: Forest<T>) -> bool {
    exists|rank: spec_fn(int) -> nat| rank_ok(w, rank)
}

/// A proper forest: consistent links and no cycles.  On such a forest a
/// pass always runs to completion.
pub open spec fn proper_forest<T: Propagate>(w: Forest<T>) -> bool {
    &&& w.wf()
    &&& consistent_links(w)
    &&& acyclic(w)
}

/// Additionally, every non-root that carries the value pair has a live
/// parent that lists it among its children, so every live entity is reached
/// by a pass.
pub open spec fn complete_forest<T: Propagate>(w: Forest<T>) -> bool {
    &&& proper_forest(w)
    &&& forall|e: int|
        #[trigger] w.linked(e) ==> {
            &&& w.live(w.parent_of(e))
            &&& w.has_kids(w.parent_of(e))
            &&& exists|k: int|
                0 <= k < w.kids_of(w.parent_of(e)).len() && w.kids_of(w.parent_of(e))[k] as int
                    == e
        }
}

/// Every changed flag is clear: nothing was written since the last pass.
pub open spec fn flags_clear<T: Propagate>(w: Forest<T>) -> bool {
    &&& forall|i: int| 0 <= i < w.local_changed@.len() ==> !w.local_changed@[i]
    &&& forall|i: int| 0 <= i < w.children_changed@.len() ==> !w.children_changed@[i]
}

} // verus!

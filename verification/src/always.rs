//! The unconditional propagation strategy.

use vstd::prelude::*;
use crate::forest::Forest;
use crate::forest::MalformedHierarchy;
use crate::forest::same_skeleton;
use crate::plan::always_plan;
use crate::plan::always_roots_plan;
use crate::plan::kids_plan;
use crate::recipe::Propagate;
use crate::walk::marks_match;
use crate::walk::walk_kids;

verus! {

/// Recompute every reachable entity's computed value on every run.
pub struct AlwaysPropagate;

impl AlwaysPropagate {
    /// One unconditional pass over the whole forest: every root's computed
    /// value is recomputed from its local value alone, and every entity
    /// reachable through the children lists is recomputed from its parent's
    /// payload and its own local value — the shared walk with the changed
    /// bit pinned on.  Exactly the slots `always_plan` covers are written,
    /// with exactly the planned values; every other slot, and every other
    /// column, is left untouched.  `Err` reports a corrupted hierarchy.
    pub fn propagate<T: Propagate>(w: &mut Forest<T>) -> (r: Result<(), MalformedHierarchy>)
        requires
            old(w).wf(),
        ensures
            final(w).wf(),
            same_skeleton(*old(w), *final(w)),
            final(w).local_changed@ == old(w).local_changed@,
            final(w).children_changed@ == old(w).children_changed@,
            match always_plan(*old(w)) {
                Option::Some(m) => {
                    &&& r is Ok
                    &&& forall|i: int|
                        #[trigger] m.dom().contains(i) ==> final(w).computed@[i] == Option::Some(
                            m[i],
                        )
                    &&& forall|i: int|
                        0 <= i < old(w).entity_count() && !m.dom().contains(i)
                            ==> final(w).computed@[i] == old(w).computed@[i]
                },
                Option::None => r is Err,
            },
    {
        let ghost w0 = *w;
        let n = w.local.len();
        let mut visited: Vec<bool> = Vec::new();
        while visited.len() < n
            invariant
                visited@.len() <= n,
                forall|i: int| 0 <= i < visited@.len() ==> !visited@[i],
            decreases n - visited.len(),
        {
            visited.push(false);
        }
        let ghost mut cur: Map<int, T::Computed> = Map::empty();
        let mut r: usize = 0;
        while r < n
            invariant
                w0 == *old(w),
                w.wf(),
                same_skeleton(w0, *w),
                w.local_changed@ == w0.local_changed@,
                w.children_changed@ == w0.children_changed@,
                marks_match(w0, *w, visited@, cur),
                r <= n,
                n == w0.entity_count(),
                always_roots_plan(w0, r as int, cur) == always_plan(w0),
            decreases n - r,
        {
            let root_here = w.parent[r].is_none() && w.local[r].is_some()
                && w.computed[r].is_some();
            if root_here {
                proof {
                    assert(w0.is_root(r as int));
                }
                let c = match &w.local[r] {
                    Option::Some(l) => T::compute_root(l),
                    Option::None => {
                        proof {
                            assert(false);
                        }
                        return Result::Err(MalformedHierarchy);
                    },
                };
                let ghost cg: T::Computed = c;
                let pl = T::payload(&c);
                w.computed[r] = Option::Some(c);
                visited[r] = true;
                proof {
                    cur = cur.insert(r as int, cg);
                    assert(cg == T::root_spec(w0.local_at(r as int)));
                    assert(marks_match(w0, *w, visited@, cur));
                }
                if w.children[r].is_some() {
                    let ghost before_kids = cur;
                    let res = walk_kids(w, &mut visited, &pl, r, true, n, Ghost(w0), Ghost(cur));
                    match res {
                        Result::Err(err) => {
                            return Result::Err(err);
                        },
                        Result::Ok(_u) => {},
                    }
                    proof {
                        cur = kids_plan(
                            w0,
                            T::payload_spec(cg),
                            r as int,
                            w0.kids_of(r as int),
                            0,
                            true,
                            before_kids,
                            n as nat,
                        )->Some_0;
                    }
                }
            }
            r = r + 1;
        }
        Result::Ok(())
    }
}

} // verus!

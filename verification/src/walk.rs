//! The shared executable walker both strategies run.
//!
//! The recursive step carries the inbound changed bit; the unconditional
//! strategy pins it on, the gated strategy seeds and grows it from the
//! changed flags.  The walker holds indices, never live references, and
//! re-derives access at each step; a visited mark per entity makes "reached
//! twice" as fatal as a parent mismatch, so the walk can never touch an
//! entity's computed slot from two branches of one pass.

use vstd::prelude::*;
use crate::forest::Forest;
use crate::forest::MalformedHierarchy;
use crate::forest::same_skeleton;
use crate::plan::kids_plan;
use crate::plan::step_plan;
use crate::recipe::Propagate;

verus! {

/// The walk's bookkeeping matches the plan built so far: an entity is
/// marked visited exactly when the plan covers it, every covered computed
/// slot holds the planned value, and every uncovered slot still holds what
/// it held when the pass began (in `w0`).
pub open spec fn marks_match<T: Propagate>(
    w0: Forest<T>,
    w: Forest<T>,
    visited: Seq<bool>,
    acc: Map<int, T::Computed>,
) -> bool {
    &&& visited.len() == w0.entity_count()
    &&& forall|i: int| 0 <= i < visited.len() ==> (visited[i] <==> acc.dom().contains(i))
    &&& forall|i: int|
        #[trigger] acc.dom().contains(i) ==> 0 <= i < w0.entity_count() && w.computed@[i]
            == Option::Some(acc[i])
    &&& forall|i: int|
        0 <= i < w0.entity_count() && !acc.dom().contains(i) ==> w.computed@[i]
            == w0.computed@[i]
}

/// The recursive per-entity step; realizes `step_plan` exactly.
pub(crate) fn step<T: Propagate>(
    w: &mut Forest<T>,
    visited: &mut Vec<bool>,
    payload: &T::Payload,
    expected_parent: usize,
    e: usize,
    changed: bool,
    fuel: usize,
    Ghost(w0): Ghost<Forest<T>>,
    Ghost(acc): Ghost<Map<int, T::Computed>>,
) -> (r: Result<(), MalformedHierarchy>)
    requires
        old(w).wf(),
        same_skeleton(w0, *old(w)),
        old(w).local_changed@ == w0.local_changed@,
        old(w).children_changed@ == w0.children_changed@,
        marks_match(w0, *old(w), old(visited)@, acc),
    ensures
        final(w).wf(),
        same_skeleton(w0, *final(w)),
        final(w).local_changed@ == w0.local_changed@,
        final(w).children_changed@ == w0.children_changed@,
        match step_plan(w0, *payload, expected_parent as int, e as int, changed, acc, fuel as nat) {
            Option::Some(m) => {
                &&& r is Ok
                &&& marks_match(w0, *final(w), final(visited)@, m)
                &&& forall|i: int|
                    #[trigger] acc.dom().contains(i) ==> m.dom().contains(i) && m[i] == acc[i]
                &&& forall|i: int|
                    #[trigger] m.dom().contains(i) ==> acc.dom().contains(i) || w0.linked(i)
            },
            Option::None => r is Err,
        },
    decreases fuel, 0int,
{
    if fuel == 0 {
        return Result::Err(MalformedHierarchy);
    }
    let n = w.local.len();
    if e >= n {
        return Result::Ok(());
    }
    if w.local[e].is_none() || w.computed[e].is_none() {
        return Result::Ok(());
    }
    let recorded = match &w.parent[e] {
        Option::Some(p) => *p,
        Option::None => {
            return Result::Ok(());
        },
    };
    if recorded != expected_parent {
        return Result::Err(MalformedHierarchy);
    }
    if visited[e] {
        return Result::Err(MalformedHierarchy);
    }
    let now_changed = changed || w.local_changed[e];
    let ghost cg: T::Computed = if now_changed {
        T::compute_spec(*payload, w0.local_at(e as int))
    } else {
        w0.computed_at(e as int)
    };
    let pl: T::Payload;
    if now_changed {
        let c = match &w.local[e] {
            Option::Some(l) => T::compute(payload, l),
            Option::None => {
                proof {
                    assert(false);
                }
                return Result::Err(MalformedHierarchy);
            },
        };
        pl = T::payload(&c);
        w.computed[e] = Option::Some(c);
    } else {
        pl = match &w.computed[e] {
            Option::Some(cur) => T::payload(cur),
            Option::None => {
                proof {
                    assert(false);
                }
                return Result::Err(MalformedHierarchy);
            },
        };
    }
    visited[e] = true;
    let ghost acc1 = acc.insert(e as int, cg);
    proof {
        assert(marks_match(w0, *w, visited@, acc1));
    }
    let descend = now_changed || w.children_changed[e];
    proof {
        assert(w0.live(e as int));
        assert(w0.parent_of(e as int) == expected_parent as int);
        assert(!acc.dom().contains(e as int));
        assert(now_changed == (changed || w0.local_changed@[e as int]));
        assert(pl == T::payload_spec(cg));
        assert(descend == (now_changed || w0.children_changed@[e as int]));
    }
    if w.children[e].is_none() {
        proof {
            assert(!w0.has_kids(e as int));
            assert(step_plan(
                w0,
                *payload,
                expected_parent as int,
                e as int,
                changed,
                acc,
                fuel as nat,
            ) == Option::Some(acc1));
        }
        return Result::Ok(());
    }
    proof {
        assert(w0.has_kids(e as int));
        assert(step_plan(w0, *payload, expected_parent as int, e as int, changed, acc, fuel as nat)
            == kids_plan(
            w0,
            T::payload_spec(cg),
            e as int,
            w0.kids_of(e as int),
            0,
            descend,
            acc1,
            (fuel - 1) as nat,
        ));
    }
    let res = walk_kids(w, visited, &pl, e, descend, fuel - 1, Ghost(w0), Ghost(acc1));
    proof {
        let plan = step_plan(w0, *payload, expected_parent as int, e as int, changed, acc, fuel as nat);
        if plan is Some {
            let m = plan->Some_0;
            assert forall|i: int| #[trigger] acc.dom().contains(i) implies m.dom().contains(i)
                && m[i] == acc[i] by {
                assert(acc1.dom().contains(i));
                assert(acc1[i] == acc[i]);
            }
            assert forall|i: int| #[trigger] m.dom().contains(i) implies acc.dom().contains(i)
                || w0.linked(i) by {
                if !acc1.dom().contains(i) {
                    assert(w0.linked(i));
                } else if i == e as int {
                    assert(w0.linked(i));
                }
            }
        }
    }
    res
}

/// Walk the listed children of `parent_e`; realizes `kids_plan` exactly.
pub(crate) fn walk_kids<T: Propagate>(
    w: &mut Forest<T>,
    visited: &mut Vec<bool>,
    payload: &T::Payload,
    parent_e: usize,
    changed: bool,
    fuel: usize,
    Ghost(w0): Ghost<Forest<T>>,
    Ghost(acc): Ghost<Map<int, T::Computed>>,
) -> (r: Result<(), MalformedHierarchy>)
    requires
        old(w).wf(),
        same_skeleton(w0, *old(w)),
        old(w).local_changed@ == w0.local_changed@,
        old(w).children_changed@ == w0.children_changed@,
        marks_match(w0, *old(w), old(visited)@, acc),
        w0.has_kids(parent_e as int),
    ensures
        final(w).wf(),
        same_skeleton(w0, *final(w)),
        final(w).local_changed@ == w0.local_changed@,
        final(w).children_changed@ == w0.children_changed@,
        match kids_plan(
            w0,
            *payload,
            parent_e as int,
            w0.kids_of(parent_e as int),
            0,
            changed,
            acc,
            fuel as nat,
        ) {
            Option::Some(m) => {
                &&& r is Ok
                &&& marks_match(w0, *final(w), final(visited)@, m)
                &&& forall|i: int|
                    #[trigger] acc.dom().contains(i) ==> m.dom().contains(i) && m[i] == acc[i]
                &&& forall|i: int|
                    #[trigger] m.dom().contains(i) ==> acc.dom().contains(i) || w0.linked(i)
            },
            Option::None => r is Err,
        },
    decreases fuel, 1int,
{
    let kid_count = match &w.children[parent_e] {
        Option::Some(kids) => kids.len(),
        Option::None => {
            proof {
                assert(false);
            }
            0
        },
    };
    let ghost kids_g: Seq<usize> = w0.kids_of(parent_e as int);
    let mut k: usize = 0;
    let ghost mut cur: Map<int, T::Computed> = acc;
    while k < kid_count
        invariant
            w.wf(),
            same_skeleton(w0, *w),
            w.local_changed@ == w0.local_changed@,
            w.children_changed@ == w0.children_changed@,
            marks_match(w0, *w, visited@, cur),
            k <= kid_count,
            w0.has_kids(parent_e as int),
            kids_g == w0.kids_of(parent_e as int),
            kid_count == kids_g.len(),
            kids_plan(w0, *payload, parent_e as int, kids_g, k as int, changed, cur, fuel as nat)
                == kids_plan(w0, *payload, parent_e as int, kids_g, 0, changed, acc, fuel as nat),
            forall|i: int|
                #[trigger] acc.dom().contains(i) ==> cur.dom().contains(i) && cur[i] == acc[i],
            forall|i: int|
                #[trigger] cur.dom().contains(i) ==> acc.dom().contains(i) || w0.linked(i),
        decreases kid_count - k,
    {
        let child: usize = match &w.children[parent_e] {
            Option::Some(kids) => kids[k],
            Option::None => {
                proof {
                    assert(false);
                }
                0
            },
        };
        let res = step(w, visited, payload, parent_e, child, changed, fuel, Ghost(w0), Ghost(cur));
        match res {
            Result::Err(err) => {
                return Result::Err(err);
            },
            Result::Ok(_u) => {},
        }
        proof {
            cur = step_plan(
                w0,
                *payload,
                parent_e as int,
                child as int,
                changed,
                cur,
                fuel as nat,
            )->Some_0;
        }
        k = k + 1;
    }
    Result::Ok(())
}

} // verus!

//! Proved laws relating the two strategies and successive passes.

use vstd::prelude::*;
use crate::forest::Forest;
use crate::forest::complete_forest;
use crate::forest::consistent_links;
use crate::forest::flags_clear;
use crate::forest::proper_forest;
use crate::forest::rank_ok;
use crate::forest::same_skeleton;
use crate::plan::always_plan;
use crate::plan::always_roots_plan;
use crate::plan::gated_plan;
use crate::plan::gated_roots_plan;
use crate::plan::kids_plan;
use crate::plan::step_plan;
use crate::recipe::Propagate;

verus! {

// ---------------------------------------------------------------------------
// Change propagation: a set changed bit makes the gated walk unconditional.
// ---------------------------------------------------------------------------

/// Below any point the changed bit has reached, the gated walk is the
/// unconditional walk: it depends only on the forest's skeleton (local
/// values, links and children), never on the stored computed values or on
/// the changed flags.  So rewiring a subtree under a node whose
/// children-list-changed flag is set — which turns the bit on for every
/// listed child — forces the whole moved subtree to recompute exactly as an
/// unconditional pass would, whatever the subtree's own flags say.
pub proof fn lemma_changed_subtree_recomputes<T: Propagate>(
    w1: Forest<T>,
    w2: Forest<T>,
    payload: T::Payload,
    expected_parent: int,
    e: int,
    acc: Map<int, T::Computed>,
    fuel: nat,
)
    requires
        w1.wf(),
        same_skeleton(w1, w2),
    ensures
        step_plan(w1, payload, expected_parent, e, true, acc, fuel) == step_plan(
            w2,
            payload,
            expected_parent,
            e,
            true,
            acc,
            fuel,
        ),
    decreases fuel, 0int,
{
    if fuel == 0 {
    } else if !w1.live(e) {
        assert(!w2.live(e));
    } else {
        assert(w2.live(e));
        if w1.parent@[e] is None {
        } else if w1.parent_of(e) != expected_parent {
        } else if acc.dom().contains(e) {
        } else {
            let c = T::compute_spec(payload, w1.local_at(e));
            assert(w2.local_at(e) == w1.local_at(e));
            if w1.has_kids(e) {
                lemma_changed_kids_recompute(
                    w1,
                    w2,
                    T::payload_spec(c),
                    e,
                    w1.kids_of(e),
                    0,
                    acc.insert(e, c),
                    (fuel - 1) as nat,
                );
            }
        }
    }
}

/// Companion of [`lemma_changed_subtree_recomputes`] for a children list.
pub proof fn lemma_changed_kids_recompute<T: Propagate>(
    w1: Forest<T>,
    w2: Forest<T>,
    payload: T::Payload,
    parent_e: int,
    kids: Seq<usize>,
    k: int,
    acc: Map<int, T::Computed>,
    fuel: nat,
)
    requires
        w1.wf(),
        same_skeleton(w1, w2),
    ensures
        kids_plan(w1, payload, parent_e, kids, k, true, acc, fuel) == kids_plan(
            w2,
            payload,
            parent_e,
            kids,
            k,
            true,
            acc,
            fuel,
        ),
    decreases fuel, 1int + kids.len() - k,
{
    if k < 0 || k >= kids.len() {
    } else {
        lemma_changed_subtree_recomputes(w1, w2, payload, parent_e, kids[k] as int, acc, fuel);
        match step_plan(w1, payload, parent_e, kids[k] as int, true, acc, fuel) {
            Option::Some(acc1) => {
                lemma_changed_kids_recompute(w1, w2, payload, parent_e, kids, k + 1, acc1, fuel);
            },
            Option::None => {},
        }
    }
}

proof fn lemma_always_roots_skeleton<T: Propagate>(
    w1: Forest<T>,
    w2: Forest<T>,
    r: int,
    acc: Map<int, T::Computed>,
)
    requires
        w1.wf(),
        same_skeleton(w1, w2),
    ensures
        always_roots_plan(w1, r, acc) == always_roots_plan(w2, r, acc),
    decreases w1.entity_count() - r,
{
    if r < 0 || r >= w1.entity_count() {
    } else if w1.is_root(r) {
        assert(w2.is_root(r));
        let c = T::root_spec(w1.local_at(r));
        assert(w2.local_at(r) == w1.local_at(r));
        let acc1 = acc.insert(r, c);
        if w1.has_kids(r) {
            lemma_changed_kids_recompute(
                w1,
                w2,
                T::payload_spec(c),
                r,
                w1.kids_of(r),
                0,
                acc1,
                w1.entity_count() as nat,
            );
            match kids_plan(
                w1,
                T::payload_spec(c),
                r,
                w1.kids_of(r),
                0,
                true,
                acc1,
                w1.entity_count() as nat,
            ) {
                Option::Some(acc2) => lemma_always_roots_skeleton(w1, w2, r + 1, acc2),
                Option::None => {},
            }
        } else {
            lemma_always_roots_skeleton(w1, w2, r + 1, acc1);
        }
    } else {
        assert(!w2.is_root(r));
        lemma_always_roots_skeleton(w1, w2, r + 1, acc);
    }
}

/// Idempotence of the unconditional strategy.  A pass only rewrites computed
/// slots, so it relates its input to its output by `same_skeleton`; and an
/// unconditional plan depends only on the skeleton.  Hence a second pass
/// with no intervening mutation plans — and therefore writes — exactly the
/// computed values the first pass wrote.
pub proof fn lemma_always_idempotent<T: Propagate>(w1: Forest<T>, w2: Forest<T>)
    requires
        w1.wf(),
        same_skeleton(w1, w2),
    ensures
        always_plan(w1) == always_plan(w2),
{
    lemma_always_roots_skeleton(w1, w2, 0, Map::empty());
}

// ---------------------------------------------------------------------------
// With every root flagged, the gated pass is the unconditional pass.
// ---------------------------------------------------------------------------

proof fn lemma_roots_changed_from<T: Propagate>(w: Forest<T>, r: int, acc: Map<int, T::Computed>)
    requires
        forall|rr: int| #[trigger] w.is_root(rr) ==> w.local_changed@[rr],
    ensures
        gated_roots_plan(w, r, acc) == always_roots_plan(w, r, acc),
    decreases w.entity_count() - r,
{
    if r < 0 || r >= w.entity_count() {
    } else if w.is_root(r) {
        assert(w.local_changed@[r]);
        let c = T::root_spec(w.local_at(r));
        let acc1 = acc.insert(r, c);
        if w.has_kids(r) {
            match kids_plan(
                w,
                T::payload_spec(c),
                r,
                w.kids_of(r),
                0,
                true,
                acc1,
                w.entity_count() as nat,
            ) {
                Option::Some(acc2) => lemma_roots_changed_from(w, r + 1, acc2),
                Option::None => {},
            }
        } else {
            lemma_roots_changed_from(w, r + 1, acc1);
        }
    } else {
        lemma_roots_changed_from(w, r + 1, acc);
    }
}

/// Mutating the local values of roots and marking every root changed makes
/// one gated pass plan — and therefore write — exactly what the
/// unconditional pass would: every reachable descendant recomputes from the
/// fresh payload even though no descendant's own value or flag was touched.
pub proof fn lemma_all_roots_changed_gated_equals_always<T: Propagate>(w: Forest<T>)
    requires
        forall|rr: int| #[trigger] w.is_root(rr) ==> w.local_changed@[rr],
    ensures
        gated_plan(w) == always_plan(w),
{
    lemma_roots_changed_from(w, 0, Map::empty());
}

// ---------------------------------------------------------------------------
// With every flag clear, a gated pass changes nothing.
// ---------------------------------------------------------------------------

/// Every entity the plan covers is live and keeps the computed value it
/// already holds in `w`.
pub open spec fn carried_from<T: Propagate>(w: Forest<T>, acc: Map<int, T::Computed>) -> bool {
    forall|i: int| #[trigger] acc.dom().contains(i) ==> w.live(i) && acc[i] == w.computed_at(i)
}

proof fn lemma_step_carried<T: Propagate>(
    w: Forest<T>,
    payload: T::Payload,
    expected_parent: int,
    e: int,
    acc: Map<int, T::Computed>,
    fuel: nat,
)
    requires
        w.wf(),
        flags_clear(w),
        carried_from(w, acc),
    ensures
        match step_plan(w, payload, expected_parent, e, false, acc, fuel) {
            Option::Some(m) => carried_from(w, m),
            Option::None => true,
        },
    decreases fuel, 0int,
{
    if fuel == 0 {
    } else if !w.live(e) {
    } else if w.parent@[e] is None {
    } else if w.parent_of(e) != expected_parent {
    } else if acc.dom().contains(e) {
    } else {
        assert(!w.local_changed@[e]);
        assert(!w.children_changed@[e]);
        let acc1 = acc.insert(e, w.computed_at(e));
        assert(carried_from(w, acc1));
        if w.has_kids(e) {
            lemma_kids_carried(
                w,
                T::payload_spec(w.computed_at(e)),
                e,
                w.kids_of(e),
                0,
                acc1,
                (fuel - 1) as nat,
            );
        }
    }
}

proof fn lemma_kids_carried<T: Propagate>(
    w: Forest<T>,
    payload: T::Payload,
    parent_e: int,
    kids: Seq<usize>,
    k: int,
    acc: Map<int, T::Computed>,
    fuel: nat,
)
    requires
        w.wf(),
        flags_clear(w),
        carried_from(w, acc),
    ensures
        match kids_plan(w, payload, parent_e, kids, k, false, acc, fuel) {
            Option::Some(m) => carried_from(w, m),
            Option::None => true,
        },
    decreases fuel, 1int + kids.len() - k,
{
    if k < 0 || k >= kids.len() {
    } else {
        lemma_step_carried(w, payload, parent_e, kids[k] as int, acc, fuel);
        match step_plan(w, payload, parent_e, kids[k] as int, false, acc, fuel) {
            Option::Some(acc1) => {
                lemma_kids_carried(w, payload, parent_e, kids, k + 1, acc1, fuel);
            },
            Option::None => {},
        }
    }
}

proof fn lemma_gated_roots_carried<T: Propagate>(
    w: Forest<T>,
    r: int,
    acc: Map<int, T::Computed>,
)
    requires
        w.wf(),
        flags_clear(w),
        carried_from(w, acc),
    ensures
        match gated_roots_plan(w, r, acc) {
            Option::Some(m) => carried_from(w, m),
            Option::None => true,
        },
    decreases w.entity_count() - r,
{
    if r < 0 || r >= w.entity_count() {
    } else if w.is_root(r) {
        assert(!w.local_changed@[r]);
        assert(!w.children_changed@[r]);
        let acc1 = acc.insert(r, w.computed_at(r));
        assert(carried_from(w, acc1));
        if w.has_kids(r) {
            lemma_kids_carried(
                w,
                T::payload_spec(w.computed_at(r)),
                r,
                w.kids_of(r),
                0,
                acc1,
                w.entity_count() as nat,
            );
            match kids_plan(
                w,
                T::payload_spec(w.computed_at(r)),
                r,
                w.kids_of(r),
                0,
                false,
                acc1,
                w.entity_count() as nat,
            ) {
                Option::Some(acc2) => lemma_gated_roots_carried(w, r + 1, acc2),
                Option::None => {},
            }
        } else {
            lemma_gated_roots_carried(w, r + 1, acc1);
        }
    } else {
        lemma_gated_roots_carried(w, r + 1, acc);
    }
}

/// With every changed flag clear — as after a pass whose flags were then
/// reset — a gated pass is a no-op on the computed values: every entity its
/// plan covers keeps exactly the value its slot already holds, so nothing
/// the pass writes differs from what was there, and slots outside the plan
/// are not touched at all.
pub proof fn lemma_gated_noop_when_unchanged<T: Propagate>(w: Forest<T>)
    requires
        w.wf(),
        flags_clear(w),
    ensures
        match gated_plan(w) {
            Option::Some(m) => carried_from(w, m),
            Option::None => true,
        },
{
    lemma_gated_roots_carried(w, 0, Map::empty());
}

// ---------------------------------------------------------------------------
// Exactness of the unconditional pass: root and chain correctness.
// ---------------------------------------------------------------------------

/// Every entry of the plan is the exact value propagation owes that entity:
/// a root's entry is `root_spec` of its local value, and every other entry
/// derives from its parent's entry — which the plan also covers — via the
/// payload.
pub open spec fn chain_exact<T: Propagate>(w: Forest<T>, acc: Map<int, T::Computed>) -> bool {
    forall|i: int|
        #[trigger] acc.dom().contains(i) ==> w.live(i) && match w.parent@[i] {
            Option::None => acc[i] == T::root_spec(w.local_at(i)),
            Option::Some(p) => acc.dom().contains(p as int) && acc[i] == T::compute_spec(
                T::payload_spec(acc[p as int]),
                w.local_at(i),
            ),
        }
}

/// Every listed child of `i` that is linked back to `i` is covered by the
/// plan.
pub open spec fn kids_covered_at<T: Propagate>(
    w: Forest<T>,
    acc: Map<int, T::Computed>,
    i: int,
) -> bool {
    w.has_kids(i) ==> forall|k: int|
        0 <= k < w.kids_of(i).len() && w.linked(#[trigger] w.kids_of(i)[k] as int)
            && w.parent_of(w.kids_of(i)[k] as int) == i ==> acc.dom().contains(
            w.kids_of(i)[k] as int,
        )
}

proof fn lemma_map_preserved_trans<V>(m0: Map<int, V>, m1: Map<int, V>, m2: Map<int, V>)
    requires
        forall|i: int| #[trigger] m0.dom().contains(i) ==> m1.dom().contains(i) && m1[i] == m0[i],
        forall|i: int| #[trigger] m1.dom().contains(i) ==> m2.dom().contains(i) && m2[i] == m1[i],
    ensures
        forall|i: int| #[trigger] m0.dom().contains(i) ==> m2.dom().contains(i) && m2[i] == m0[i],
{
}

proof fn lemma_kids_covered_monotone<T: Propagate>(
    w: Forest<T>,
    m1: Map<int, T::Computed>,
    m2: Map<int, T::Computed>,
    i: int,
)
    requires
        kids_covered_at(w, m1, i),
        forall|x: int| #[trigger] m1.dom().contains(x) ==> m2.dom().contains(x),
    ensures
        kids_covered_at(w, m2, i),
{
    if w.has_kids(i) {
        assert forall|k: int|
            0 <= k < w.kids_of(i).len() && w.linked(#[trigger] w.kids_of(i)[k] as int)
                && w.parent_of(w.kids_of(i)[k] as int) == i implies m2.dom().contains(
            w.kids_of(i)[k] as int,
        ) by {
            assert(m1.dom().contains(w.kids_of(i)[k] as int));
        }
    }
}

proof fn lemma_step_chain<T: Propagate>(
    w: Forest<T>,
    payload: T::Payload,
    expected_parent: int,
    e: int,
    acc: Map<int, T::Computed>,
    fuel: nat,
)
    requires
        chain_exact(w, acc),
        acc.dom().contains(expected_parent),
        payload == T::payload_spec(acc[expected_parent]),
        step_plan(w, payload, expected_parent, e, true, acc, fuel) is Some,
    ensures
        ({
            let m = step_plan(w, payload, expected_parent, e, true, acc, fuel)->Some_0;
            &&& forall|i: int|
                #[trigger] acc.dom().contains(i) ==> m.dom().contains(i) && m[i] == acc[i]
            &&& chain_exact(w, m)
            &&& (w.linked(e) && w.parent_of(e) == expected_parent ==> m.dom().contains(e))
            &&& forall|i: int|
                #[trigger] m.dom().contains(i) && !acc.dom().contains(i) ==> w.linked(i)
                    && kids_covered_at(w, m, i)
        }),
    decreases fuel, 0int,
{
    let m = step_plan(w, payload, expected_parent, e, true, acc, fuel)->Some_0;
    if !w.live(e) {
    } else if w.parent@[e] is None {
    } else if w.parent_of(e) != expected_parent {
    } else {
        assert(!acc.dom().contains(e));
        let c = T::compute_spec(payload, w.local_at(e));
        let acc1 = acc.insert(e, c);
        assert(chain_exact(w, acc1)) by {
            assert forall|i: int| #[trigger] acc1.dom().contains(i) implies w.live(i)
                && match w.parent@[i] {
                Option::None => acc1[i] == T::root_spec(w.local_at(i)),
                Option::Some(p) => acc1.dom().contains(p as int) && acc1[i] == T::compute_spec(
                    T::payload_spec(acc1[p as int]),
                    w.local_at(i),
                ),
            } by {
                if i != e {
                    assert(acc.dom().contains(i));
                    if w.parent@[i] is Some {
                        let p = w.parent@[i]->Some_0 as int;
                        assert(acc.dom().contains(p));
                        assert(p != e);
                    }
                }
            }
        }
        if w.has_kids(e) {
            lemma_kids_chain(w, T::payload_spec(c), e, w.kids_of(e), 0, acc1, (fuel - 1) as nat);
            lemma_map_preserved_trans(acc, acc1, m);
            assert(acc1.dom().contains(e));
            assert(kids_covered_at(w, m, e)) by {
                assert forall|k: int|
                    0 <= k < w.kids_of(e).len() && w.linked(#[trigger] w.kids_of(e)[k] as int)
                        && w.parent_of(w.kids_of(e)[k] as int) == e implies m.dom().contains(
                    w.kids_of(e)[k] as int,
                ) by {}
            }
            assert forall|i: int|
                #[trigger] m.dom().contains(i) && !acc.dom().contains(i) implies w.linked(i)
                && kids_covered_at(w, m, i) by {
                if i == e {
                } else {
                    assert(!acc1.dom().contains(i));
                }
            }
        } else {
            assert(m == acc1);
            assert forall|i: int|
                #[trigger] m.dom().contains(i) && !acc.dom().contains(i) implies w.linked(i)
                && kids_covered_at(w, m, i) by {
                assert(i == e);
                assert(!w.has_kids(e));
            }
        }
    }
}

proof fn lemma_kids_chain<T: Propagate>(
    w: Forest<T>,
    payload: T::Payload,
    parent_e: int,
    kids: Seq<usize>,
    k: int,
    acc: Map<int, T::Computed>,
    fuel: nat,
)
    requires
        0 <= k,
        chain_exact(w, acc),
        acc.dom().contains(parent_e),
        payload == T::payload_spec(acc[parent_e]),
        kids_plan(w, payload, parent_e, kids, k, true, acc, fuel) is Some,
    ensures
        ({
            let m = kids_plan(w, payload, parent_e, kids, k, true, acc, fuel)->Some_0;
            &&& forall|i: int|
                #[trigger] acc.dom().contains(i) ==> m.dom().contains(i) && m[i] == acc[i]
            &&& chain_exact(w, m)
            &&& forall|j: int|
                k <= j < kids.len() && w.linked(#[trigger] kids[j] as int) && w.parent_of(
                    kids[j] as int,
                ) == parent_e ==> m.dom().contains(kids[j] as int)
            &&& forall|i: int|
                #[trigger] m.dom().contains(i) && !acc.dom().contains(i) ==> w.linked(i)
                    && kids_covered_at(w, m, i)
        }),
    decreases fuel, 1int + kids.len() - k,
{
    let m = kids_plan(w, payload, parent_e, kids, k, true, acc, fuel)->Some_0;
    if k < 0 || k >= kids.len() {
    } else {
        lemma_step_chain(w, payload, parent_e, kids[k] as int, acc, fuel);
        let m1 = step_plan(w, payload, parent_e, kids[k] as int, true, acc, fuel)->Some_0;
        assert(m1.dom().contains(parent_e) && m1[parent_e] == acc[parent_e]);
        lemma_kids_chain(w, payload, parent_e, kids, k + 1, m1, fuel);
        lemma_map_preserved_trans(acc, m1, m);
        assert forall|j: int|
            k <= j < kids.len() && w.linked(#[trigger] kids[j] as int) && w.parent_of(
                kids[j] as int,
            ) == parent_e implies m.dom().contains(kids[j] as int) by {
            if j == k {
                assert(m1.dom().contains(kids[k] as int));
            }
        }
        assert forall|i: int|
            #[trigger] m.dom().contains(i) && !acc.dom().contains(i) implies w.linked(i)
            && kids_covered_at(w, m, i) by {
            if m1.dom().contains(i) {
                assert(w.linked(i) && kids_covered_at(w, m1, i));
                lemma_kids_covered_monotone(w, m1, m, i);
            }
        }
    }
}

proof fn lemma_always_roots_chain<T: Propagate>(w: Forest<T>, r: int, acc: Map<int, T::Computed>)
    requires
        0 <= r,
        chain_exact(w, acc),
        forall|i: int| #[trigger] acc.dom().contains(i) && w.parent@[i] is None ==> i < r,
        always_roots_plan(w, r, acc) is Some,
    ensures
        ({
            let m = always_roots_plan(w, r, acc)->Some_0;
            &&& forall|i: int|
                #[trigger] acc.dom().contains(i) ==> m.dom().contains(i) && m[i] == acc[i]
            &&& chain_exact(w, m)
            &&& forall|rr: int|
                r <= rr && #[trigger] w.is_root(rr) ==> m.dom().contains(rr) && m[rr]
                    == T::root_spec(w.local_at(rr))
            &&& forall|i: int|
                #[trigger] m.dom().contains(i) && !acc.dom().contains(i) ==> kids_covered_at(
                    w,
                    m,
                    i,
                )
        }),
    decreases w.entity_count() - r,
{
    let m = always_roots_plan(w, r, acc)->Some_0;
    if r < 0 || r >= w.entity_count() {
    } else if w.is_root(r) {
        assert(!acc.dom().contains(r));
        let c = T::root_spec(w.local_at(r));
        let acc1 = acc.insert(r, c);
        assert(chain_exact(w, acc1)) by {
            assert forall|i: int| #[trigger] acc1.dom().contains(i) implies w.live(i)
                && match w.parent@[i] {
                Option::None => acc1[i] == T::root_spec(w.local_at(i)),
                Option::Some(p) => acc1.dom().contains(p as int) && acc1[i] == T::compute_spec(
                    T::payload_spec(acc1[p as int]),
                    w.local_at(i),
                ),
            } by {
                if i != r {
                    assert(acc.dom().contains(i));
                    if w.parent@[i] is Some {
                        let p = w.parent@[i]->Some_0 as int;
                        assert(acc.dom().contains(p));
                        assert(p != r);
                    }
                }
            }
        }
        let acc2 = if w.has_kids(r) {
            lemma_kids_chain(
                w,
                T::payload_spec(c),
                r,
                w.kids_of(r),
                0,
                acc1,
                w.entity_count() as nat,
            );
            kids_plan(
                w,
                T::payload_spec(c),
                r,
                w.kids_of(r),
                0,
                true,
                acc1,
                w.entity_count() as nat,
            )->Some_0
        } else {
            acc1
        };
        lemma_map_preserved_trans(acc, acc1, acc2);
        assert forall|i: int| #[trigger] acc2.dom().contains(i) && w.parent@[i] is None implies i
            < r + 1 by {
            if i != r && !acc.dom().contains(i) {
                if acc1.dom().contains(i) {
                } else {
                    assert(w.linked(i));
                }
            }
        }
        lemma_always_roots_chain(w, r + 1, acc2);
        lemma_map_preserved_trans(acc, acc2, m);
        assert(acc1.dom().contains(r));
        assert(acc2.dom().contains(r) && acc2[r] == c);
        assert(m.dom().contains(r) && m[r] == c);
        assert(kids_covered_at(w, acc2, r)) by {
            if w.has_kids(r) {
                assert forall|kk: int|
                    0 <= kk < w.kids_of(r).len() && w.linked(#[trigger] w.kids_of(r)[kk] as int)
                        && w.parent_of(w.kids_of(r)[kk] as int) == r implies acc2.dom().contains(
                    w.kids_of(r)[kk] as int,
                ) by {}
            }
        }
        assert forall|i: int|
            #[trigger] m.dom().contains(i) && !acc.dom().contains(i) implies kids_covered_at(
            w,
            m,
            i,
        ) by {
            if acc2.dom().contains(i) {
                if i == r {
                    lemma_kids_covered_monotone(w, acc2, m, r);
                } else if acc1.dom().contains(i) {
                    assert(false);
                } else {
                    assert(kids_covered_at(w, acc2, i));
                    lemma_kids_covered_monotone(w, acc2, m, i);
                }
            }
        }
        assert forall|rr: int| r <= rr && #[trigger] w.is_root(rr) implies m.dom().contains(rr)
            && m[rr] == T::root_spec(w.local_at(rr)) by {
            if rr == r {
            }
        }
    } else {
        lemma_always_roots_chain(w, r + 1, acc);
    }
}


/// Root correctness and chain correctness of one unconditional pass that ran
/// to completion: the plan covers every root with exactly `root_spec` of its
/// local value; every covered entity is live; every covered non-root derives,
/// via the payload, from its parent's entry, which is also covered; and every
/// listed child linked back to a covered entity is covered in turn.
pub proof fn lemma_always_exact<T: Propagate>(w: Forest<T>)
    requires
        always_plan(w) is Some,
    ensures
        ({
            let m = always_plan(w)->Some_0;
            &&& forall|r: int|
                #[trigger] w.is_root(r) ==> m.dom().contains(r) && m[r] == T::root_spec(
                    w.local_at(r),
                )
            &&& chain_exact(w, m)
            &&& forall|i: int| #[trigger] m.dom().contains(i) ==> kids_covered_at(w, m, i)
        }),
{
    lemma_always_roots_chain(w, 0, Map::empty());
}

proof fn lemma_covers_rec<T: Propagate>(w: Forest<T>, rank: spec_fn(int) -> nat, e: int)
    requires
        complete_forest(w),
        rank_ok(w, rank),
        always_plan(w) is Some,
        w.live(e),
    ensures
        always_plan(w)->Some_0.dom().contains(e),
    decreases rank(e),
{
    lemma_always_exact(w);
    let m = always_plan(w)->Some_0;
    if w.parent@[e] is None {
        assert(w.is_root(e));
    } else {
        assert(w.linked(e));
        let p = w.parent_of(e);
        assert(rank(e) > rank(p));
        lemma_covers_rec(w, rank, p);
        assert(kids_covered_at(w, m, p));
        let k = choose|k: int|
            0 <= k < w.kids_of(p).len() && w.kids_of(p)[k] as int == e;
        assert(w.linked(w.kids_of(p)[k] as int));
    }
}

/// On a complete forest — every live non-root is listed by its live parent —
/// one unconditional pass that ran to completion covers every live entity.
/// Together with `lemma_always_exact` this says that after the pass every
/// root holds `root_spec` of its local value and every live non-root holds
/// exactly `compute_spec` of its parent's payload and its own local value.
pub proof fn lemma_always_covers_all<T: Propagate>(w: Forest<T>, e: int)
    requires
        complete_forest(w),
        always_plan(w) is Some,
        w.live(e),
    ensures
        always_plan(w)->Some_0.dom().contains(e),
{
    let rank = choose|rank: spec_fn(int) -> nat| rank_ok(w, rank);
    lemma_covers_rec(w, rank, e);
}

// ---------------------------------------------------------------------------
// On a proper forest both passes run to completion.
// ---------------------------------------------------------------------------

/// Every covered entity is live, and every covered non-root's parent is
/// covered too: the plan only ever grows downward from what it has entered.
pub open spec fn dom_closed<T: Propagate>(w: Forest<T>, acc: Map<int, T::Computed>) -> bool {
    forall|i: int|
        #[trigger] acc.dom().contains(i) ==> w.live(i) && (w.parent@[i] is Some
            ==> acc.dom().contains(w.parent_of(i)))
}

proof fn lemma_step_total<T: Propagate>(
    w: Forest<T>,
    payload: T::Payload,
    expected_parent: int,
    e: int,
    changed: bool,
    acc: Map<int, T::Computed>,
    fuel: nat,
    rank: spec_fn(int) -> nat,
)
    requires
        w.wf(),
        consistent_links(w),
        rank_ok(w, rank),
        dom_closed(w, acc),
        acc.dom().contains(expected_parent),
        fuel >= 1,
        w.linked(e) ==> w.parent_of(e) == expected_parent && !acc.dom().contains(e) && fuel
            >= w.entity_count() + 1 - rank(e),
    ensures
        step_plan(w, payload, expected_parent, e, changed, acc, fuel) is Some,
        ({
            let m = step_plan(w, payload, expected_parent, e, changed, acc, fuel)->Some_0;
            &&& forall|i: int| #[trigger] acc.dom().contains(i) ==> m.dom().contains(i)
            &&& dom_closed(w, m)
            &&& forall|i: int|
                #[trigger] m.dom().contains(i) && !acc.dom().contains(i) ==> w.linked(i) && (i == e
                    || (m.dom().contains(w.parent_of(i)) && !acc.dom().contains(w.parent_of(i))))
        }),
    decreases fuel, 0int,
{
    if !w.live(e) {
    } else if w.parent@[e] is None {
    } else {
        assert(w.linked(e));
        let now_changed = changed || w.local_changed@[e];
        let c = if now_changed {
            T::compute_spec(payload, w.local_at(e))
        } else {
            w.computed_at(e)
        };
        let acc1 = acc.insert(e, c);
        assert(dom_closed(w, acc1));
        if w.has_kids(e) {
            let kids = w.kids_of(e);
            assert forall|j: int|
                0 <= j < kids.len() && w.linked(#[trigger] kids[j] as int) implies w.parent_of(
                kids[j] as int,
            ) == e && !acc1.dom().contains(kids[j] as int) && (fuel - 1) as nat
                >= w.entity_count() + 1 - rank(kids[j] as int) by {
                let cj = kids[j] as int;
                assert(w.kids_of(e)[j] == kids[j]);
                assert(w.parent_of(cj) == e);
                if acc.dom().contains(cj) {
                    assert(acc.dom().contains(e));
                    assert(false);
                }
                if cj == e {
                    assert(w.parent_of(e) == e);
                    assert(acc.dom().contains(expected_parent));
                    assert(false);
                }
                assert(rank(cj) > rank(e));
            }
            lemma_kids_total(
                w,
                T::payload_spec(c),
                e,
                kids,
                0,
                now_changed || w.children_changed@[e],
                acc1,
                (fuel - 1) as nat,
                rank,
            );
            let m = step_plan(w, payload, expected_parent, e, changed, acc, fuel)->Some_0;
            assert forall|i: int| #[trigger] acc.dom().contains(i) implies m.dom().contains(i) by {
                assert(acc1.dom().contains(i));
            }
            assert forall|i: int|
                #[trigger] m.dom().contains(i) && !acc.dom().contains(i) implies w.linked(i) && (i
                    == e || (m.dom().contains(w.parent_of(i)) && !acc.dom().contains(
                    w.parent_of(i),
                ))) by {
                if i != e {
                    assert(!acc1.dom().contains(i));
                    assert(w.linked(i));
                    if w.parent_of(i) == e {
                        assert(acc1.dom().contains(e));
                        assert(m.dom().contains(e));
                    } else {
                        assert(!acc1.dom().contains(w.parent_of(i)));
                    }
                }
            }
        }
    }
}

proof fn lemma_kids_total<T: Propagate>(
    w: Forest<T>,
    payload: T::Payload,
    parent_e: int,
    kids: Seq<usize>,
    k: int,
    changed: bool,
    acc: Map<int, T::Computed>,
    fuel: nat,
    rank: spec_fn(int) -> nat,
)
    requires
        w.wf(),
        consistent_links(w),
        rank_ok(w, rank),
        dom_closed(w, acc),
        acc.dom().contains(parent_e),
        0 <= k,
        fuel >= 1,
        forall|j: int|
            k <= j < kids.len() && w.linked(#[trigger] kids[j] as int) ==> w.parent_of(
                kids[j] as int,
            ) == parent_e && !acc.dom().contains(kids[j] as int) && fuel >= w.entity_count() + 1
                - rank(kids[j] as int),
        forall|j1: int, j2: int| 0 <= j1 < j2 < kids.len() ==> kids[j1] != kids[j2],
    ensures
        kids_plan(w, payload, parent_e, kids, k, changed, acc, fuel) is Some,
        ({
            let m = kids_plan(w, payload, parent_e, kids, k, changed, acc, fuel)->Some_0;
            &&& forall|i: int| #[trigger] acc.dom().contains(i) ==> m.dom().contains(i)
            &&& dom_closed(w, m)
            &&& forall|i: int|
                #[trigger] m.dom().contains(i) && !acc.dom().contains(i) ==> w.linked(i)
                    && (w.parent_of(i) == parent_e || (m.dom().contains(w.parent_of(i))
                    && !acc.dom().contains(w.parent_of(i))))
        }),
    decreases fuel, 1int + kids.len() - k,
{
    if k >= kids.len() {
    } else {
        let c = kids[k] as int;
        lemma_step_total(w, payload, parent_e, c, changed, acc, fuel, rank);
        let m1 = step_plan(w, payload, parent_e, c, changed, acc, fuel)->Some_0;
        assert forall|j: int|
            k + 1 <= j < kids.len() && w.linked(#[trigger] kids[j] as int) implies w.parent_of(
            kids[j] as int,
        ) == parent_e && !m1.dom().contains(kids[j] as int) && fuel >= w.entity_count() + 1 - rank(
            kids[j] as int,
        ) by {
            let cj = kids[j] as int;
            if m1.dom().contains(cj) {
                assert(!acc.dom().contains(cj));
                assert(kids[j] != kids[k]);
                assert(cj != c);
                assert(m1.dom().contains(w.parent_of(cj)) && !acc.dom().contains(
                    w.parent_of(cj),
                ));
                assert(false);
            }
        }
        lemma_kids_total(w, payload, parent_e, kids, k + 1, changed, m1, fuel, rank);
        let m = kids_plan(w, payload, parent_e, kids, k, changed, acc, fuel)->Some_0;
        assert forall|i: int|
            #[trigger] m.dom().contains(i) && !acc.dom().contains(i) implies w.linked(i)
            && (w.parent_of(i) == parent_e || (m.dom().contains(w.parent_of(i))
            && !acc.dom().contains(w.parent_of(i)))) by {
            if m1.dom().contains(i) {
                assert(w.linked(i));
                if i == c {
                    assert(w.parent_of(i) == parent_e);
                } else if w.parent_of(i) != parent_e {
                    assert(m1.dom().contains(w.parent_of(i)));
                    assert(m.dom().contains(w.parent_of(i)));
                    assert(!acc.dom().contains(w.parent_of(i)));
                }
            } else {
                assert(w.linked(i));
                if w.parent_of(i) != parent_e {
                    assert(m.dom().contains(w.parent_of(i)) && !m1.dom().contains(
                        w.parent_of(i),
                    ));
                    assert(!acc.dom().contains(w.parent_of(i)));
                }
            }
        }
    }
}

proof fn lemma_always_roots_total<T: Propagate>(
    w: Forest<T>,
    r: int,
    acc: Map<int, T::Computed>,
    rank: spec_fn(int) -> nat,
)
    requires
        w.wf(),
        consistent_links(w),
        rank_ok(w, rank),
        dom_closed(w, acc),
        0 <= r,
        forall|i: int| #[trigger] acc.dom().contains(i) ==> w.parent@[i] is Some || i < r,
    ensures
        always_roots_plan(w, r, acc) is Some,
    decreases w.entity_count() - r,
{
    if r >= w.entity_count() {
    } else if w.is_root(r) {
        assert(!acc.dom().contains(r));
        let c = T::root_spec(w.local_at(r));
        let acc1 = acc.insert(r, c);
        assert(dom_closed(w, acc1));
        let acc2 = if w.has_kids(r) {
            let kids = w.kids_of(r);
            assert forall|j1: int, j2: int| 0 <= j1 < j2 < kids.len() implies kids[j1]
                != kids[j2] by {
                assert(w.kids_of(r)[j1] == kids[j1]);
                assert(w.kids_of(r)[j2] == kids[j2]);
            }
            assert forall|j: int|
                0 <= j < kids.len() && w.linked(#[trigger] kids[j] as int) implies w.parent_of(
                kids[j] as int,
            ) == r && !acc1.dom().contains(kids[j] as int) && w.entity_count() as nat
                >= w.entity_count() + 1 - rank(kids[j] as int) by {
                let cj = kids[j] as int;
                assert(w.kids_of(r)[j] == kids[j]);
                assert(w.parent_of(cj) == r);
                if acc.dom().contains(cj) {
                    assert(acc.dom().contains(r));
                    assert(false);
                }
                if cj == r {
                    assert(false);
                }
                assert(rank(cj) > rank(r));
            }
            lemma_kids_total(
                w,
                T::payload_spec(c),
                r,
                kids,
                0,
                true,
                acc1,
                w.entity_count() as nat,
                rank,
            );
            kids_plan(
                w,
                T::payload_spec(c),
                r,
                kids,
                0,
                true,
                acc1,
                w.entity_count() as nat,
            )->Some_0
        } else {
            acc1
        };
        assert forall|i: int| #[trigger] acc2.dom().contains(i) implies w.parent@[i] is Some || i
            < r + 1 by {
            if i != r && !acc1.dom().contains(i) {
                assert(w.linked(i));
            }
        }
        lemma_always_roots_total(w, r + 1, acc2, rank);
    } else {
        lemma_always_roots_total(w, r + 1, acc, rank);
    }
}

proof fn lemma_gated_roots_total<T: Propagate>(
    w: Forest<T>,
    r: int,
    acc: Map<int, T::Computed>,
    rank: spec_fn(int) -> nat,
)
    requires
        w.wf(),
        consistent_links(w),
        rank_ok(w, rank),
        dom_closed(w, acc),
        0 <= r,
        forall|i: int| #[trigger] acc.dom().contains(i) ==> w.parent@[i] is Some || i < r,
    ensures
        gated_roots_plan(w, r, acc) is Some,
    decreases w.entity_count() - r,
{
    if r >= w.entity_count() {
    } else if w.is_root(r) {
        assert(!acc.dom().contains(r));
        let ch = w.local_changed@[r];
        let c = if ch {
            T::root_spec(w.local_at(r))
        } else {
            w.computed_at(r)
        };
        let acc1 = acc.insert(r, c);
        assert(dom_closed(w, acc1));
        let acc2 = if w.has_kids(r) {
            let kids = w.kids_of(r);
            assert forall|j1: int, j2: int| 0 <= j1 < j2 < kids.len() implies kids[j1]
                != kids[j2] by {
                assert(w.kids_of(r)[j1] == kids[j1]);
                assert(w.kids_of(r)[j2] == kids[j2]);
            }
            assert forall|j: int|
                0 <= j < kids.len() && w.linked(#[trigger] kids[j] as int) implies w.parent_of(
                kids[j] as int,
            ) == r && !acc1.dom().contains(kids[j] as int) && w.entity_count() as nat
                >= w.entity_count() + 1 - rank(kids[j] as int) by {
                let cj = kids[j] as int;
                assert(w.kids_of(r)[j] == kids[j]);
                assert(w.parent_of(cj) == r);
                if acc.dom().contains(cj) {
                    assert(acc.dom().contains(r));
                    assert(false);
                }
                if cj == r {
                    assert(false);
                }
                assert(rank(cj) > rank(r));
            }
            lemma_kids_total(
                w,
                T::payload_spec(c),
                r,
                kids,
                0,
                ch || w.children_changed@[r],
                acc1,
                w.entity_count() as nat,
                rank,
            );
            kids_plan(
                w,
                T::payload_spec(c),
                r,
                kids,
                0,
                ch || w.children_changed@[r],
                acc1,
                w.entity_count() as nat,
            )->Some_0
        } else {
            acc1
        };
        assert forall|i: int| #[trigger] acc2.dom().contains(i) implies w.parent@[i] is Some || i
            < r + 1 by {
            if i != r && !acc1.dom().contains(i) {
                assert(w.linked(i));
            }
        }
        lemma_gated_roots_total(w, r + 1, acc2, rank);
    } else {
        lemma_gated_roots_total(w, r + 1, acc, rank);
    }
}

/// On a proper forest — consistent links, no duplicate listings, no cycles —
/// both strategies run to completion: neither pass can hit a parent
/// mismatch, reach an entity twice, or walk deeper than the arena, so the
/// fatal abort is reserved for genuinely corrupted hierarchies.
pub proof fn lemma_proper_forest_passes_complete<T: Propagate>(w: Forest<T>)
    requires
        proper_forest(w),
    ensures
        always_plan(w) is Some,
        gated_plan(w) is Some,
{
    let rank = choose|rank: spec_fn(int) -> nat| rank_ok(w, rank);
    lemma_always_roots_total(w, 0, Map::empty(), rank);
    lemma_gated_roots_total(w, 0, Map::empty(), rank);
}

// ---------------------------------------------------------------------------
// Corruption is detected: a reachable mismatch aborts the pass.
// ---------------------------------------------------------------------------

proof fn lemma_kids_fatal<T: Propagate>(
    w: Forest<T>,
    payload: T::Payload,
    parent_e: int,
    kids: Seq<usize>,
    k0: int,
    k: int,
    changed: bool,
    acc: Map<int, T::Computed>,
    fuel: nat,
)
    requires
        0 <= k0 <= k < kids.len(),
        w.linked(kids[k] as int),
        w.parent_of(kids[k] as int) != parent_e,
    ensures
        kids_plan(w, payload, parent_e, kids, k0, changed, acc, fuel) is None,
    decreases k - k0,
{
    if k0 == k {
        assert(step_plan(w, payload, parent_e, kids[k] as int, changed, acc, fuel) is None);
    } else {
        match step_plan(w, payload, parent_e, kids[k0] as int, changed, acc, fuel) {
            Option::Some(acc1) => {
                lemma_kids_fatal(w, payload, parent_e, kids, k0 + 1, k, changed, acc1, fuel);
            },
            Option::None => {},
        }
    }
}

proof fn lemma_always_roots_fatal<T: Propagate>(
    w: Forest<T>,
    r0: int,
    r: int,
    k: int,
    acc: Map<int, T::Computed>,
)
    requires
        0 <= r0 <= r,
        w.is_root(r),
        w.has_kids(r),
        0 <= k < w.kids_of(r).len(),
        w.linked(w.kids_of(r)[k] as int),
        w.parent_of(w.kids_of(r)[k] as int) != r,
    ensures
        always_roots_plan(w, r0, acc) is None,
    decreases r - r0,
{
    if r0 == r {
        lemma_kids_fatal(
            w,
            T::payload_spec(T::root_spec(w.local_at(r))),
            r,
            w.kids_of(r),
            0,
            k,
            true,
            acc.insert(r, T::root_spec(w.local_at(r))),
            w.entity_count() as nat,
        );
    } else if w.is_root(r0) {
        let c = T::root_spec(w.local_at(r0));
        let acc1 = acc.insert(r0, c);
        if w.has_kids(r0) {
            match kids_plan(
                w,
                T::payload_spec(c),
                r0,
                w.kids_of(r0),
                0,
                true,
                acc1,
                w.entity_count() as nat,
            ) {
                Option::Some(acc2) => lemma_always_roots_fatal(w, r0 + 1, r, k, acc2),
                Option::None => {},
            }
        } else {
            lemma_always_roots_fatal(w, r0 + 1, r, k, acc1);
        }
    } else {
        lemma_always_roots_fatal(w, r0 + 1, r, k, acc);
    }
}

proof fn lemma_gated_roots_fatal<T: Propagate>(
    w: Forest<T>,
    r0: int,
    r: int,
    k: int,
    acc: Map<int, T::Computed>,
)
    requires
        0 <= r0 <= r,
        w.is_root(r),
        w.has_kids(r),
        0 <= k < w.kids_of(r).len(),
        w.linked(w.kids_of(r)[k] as int),
        w.parent_of(w.kids_of(r)[k] as int) != r,
    ensures
        gated_roots_plan(w, r0, acc) is None,
    decreases r - r0,
{
    if r0 == r {
        let ch = w.local_changed@[r];
        let c = if ch {
            T::root_spec(w.local_at(r))
        } else {
            w.computed_at(r)
        };
        lemma_kids_fatal(
            w,
            T::payload_spec(c),
            r,
            w.kids_of(r),
            0,
            k,
            ch || w.children_changed@[r],
            acc.insert(r, c),
            w.entity_count() as nat,
        );
    } else if w.is_root(r0) {
        let ch = w.local_changed@[r0];
        let c = if ch {
            T::root_spec(w.local_at(r0))
        } else {
            w.computed_at(r0)
        };
        let acc1 = acc.insert(r0, c);
        if w.has_kids(r0) {
            match kids_plan(
                w,
                T::payload_spec(c),
                r0,
                w.kids_of(r0),
                0,
                ch || w.children_changed@[r0],
                acc1,
                w.entity_count() as nat,
            ) {
                Option::Some(acc2) => lemma_gated_roots_fatal(w, r0 + 1, r, k, acc2),
                Option::None => {},
            }
        } else {
            lemma_gated_roots_fatal(w, r0 + 1, r, k, acc1);
        }
    } else {
        lemma_gated_roots_fatal(w, r0 + 1, r, k, acc);
    }
}

/// Fail-fast on corruption: if some root lists a child whose recorded parent
/// is another entity — the shape a cycle or an improperly maintained
/// hierarchy takes — neither strategy produces a plan: both passes abort
/// with the fatal error instead of recursing into, or silently skipping, the
/// corrupted branch.  (Termination itself is unconditional: every walk is
/// fuelled by the arena size, so no input can make a pass recurse forever.)
pub proof fn lemma_mismatch_aborts<T: Propagate>(w: Forest<T>, r: int, k: int)
    requires
        w.is_root(r),
        w.has_kids(r),
        0 <= k < w.kids_of(r).len(),
        w.linked(w.kids_of(r)[k] as int),
        w.parent_of(w.kids_of(r)[k] as int) != r,
    ensures
        always_plan(w) is None,
        gated_plan(w) is None,
{
    lemma_always_roots_fatal(w, 0, r, k, Map::empty());
    lemma_gated_roots_fatal(w, 0, r, k, Map::empty());
}

// ---------------------------------------------------------------------------
// The headline theorem: what one unconditional pass leaves behind.
// ---------------------------------------------------------------------------

/// On a complete forest one unconditional pass runs to completion and its
/// plan — exactly what `AlwaysPropagate::propagate` writes — covers every
/// live entity: every root holds `root_spec` of its local value, and every
/// non-root holds `compute_spec` of its parent's payload and its own local
/// value, parent before child.
pub proof fn lemma_unconditional_pass_correct<T: Propagate>(w: Forest<T>)
    requires
        complete_forest(w),
    ensures
        always_plan(w) is Some,
        ({
            let m = always_plan(w)->Some_0;
            &&& forall|e: int| #[trigger] w.live(e) ==> m.dom().contains(e)
            &&& forall|r: int|
                #[trigger] w.is_root(r) ==> m[r] == T::root_spec(w.local_at(r))
            &&& forall|e: int|
                #[trigger] w.linked(e) ==> m.dom().contains(w.parent_of(e)) && m[e]
                    == T::compute_spec(T::payload_spec(m[w.parent_of(e)]), w.local_at(e))
        }),
{
    lemma_proper_forest_passes_complete(w);
    lemma_always_exact(w);
    let m = always_plan(w)->Some_0;
    assert forall|e: int| #[trigger] w.live(e) implies m.dom().contains(e) by {
        lemma_always_covers_all(w, e);
    }
    assert forall|e: int| #[trigger] w.linked(e) implies m.dom().contains(w.parent_of(e)) && m[e]
        == T::compute_spec(T::payload_spec(m[w.parent_of(e)]), w.local_at(e)) by {
        assert(w.live(e));
        assert(m.dom().contains(e));
        assert(chain_exact(w, m));
    }
}

} // verus!

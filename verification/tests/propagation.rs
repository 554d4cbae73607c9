use hierarchy::PropagateKind;
use hierarchy::always::AlwaysPropagate;
use hierarchy::forest::Forest;
use hierarchy::if_changed::PropagateIfChanged;
use hierarchy::propagate_system;
use hierarchy::scale::Scale;

/// Build an arena from per-entity records `(local, parent, children)`, with
/// every computed slot holding `seed` and every changed flag set.
fn forest(entities: &[(Option<i64>, Option<usize>, Option<&[usize]>)], seed: i64) -> Forest<Scale> {
    let mut w = Forest {
        local: Vec::new(),
        computed: Vec::new(),
        parent: Vec::new(),
        children: Vec::new(),
        local_changed: Vec::new(),
        children_changed: Vec::new(),
    };
    for (local, parent, children) in entities {
        w.local.push(local.map(Scale));
        w.computed.push(local.map(|_| seed));
        w.parent.push(*parent);
        w.children.push(children.map(|c| c.to_vec()));
        w.local_changed.push(true);
        w.children_changed.push(true);
    }
    w
}

fn computed(w: &Forest<Scale>) -> Vec<Option<i64>> {
    w.computed.clone()
}

fn clear_flags(w: &mut Forest<Scale>) {
    for f in w.local_changed.iter_mut() {
        *f = false;
    }
    for f in w.children_changed.iter_mut() {
        *f = false;
    }
}

/// Root R = 5 with children C0 = 3 and C1 = -2 under the multiplicative
/// recipe, and a grandchild of C0 with the identity factor 1.
fn sample() -> Forest<Scale> {
    forest(
        &[
            (Some(5), None, Some(&[1, 2])),
            (Some(3), Some(0), Some(&[3])),
            (Some(-2), Some(0), None),
            (Some(1), Some(1), None),
        ],
        0,
    )
}

#[test]
fn multiplicative_scenario_unconditional() {
    let mut w = sample();
    assert!(AlwaysPropagate::propagate(&mut w).is_ok());
    assert_eq!(computed(&w), vec![Some(5), Some(15), Some(-10), Some(15)]);
}

#[test]
fn multiplicative_scenario_gated() {
    let mut w = sample();
    assert!(PropagateIfChanged::propagate(&mut w).is_ok());
    assert_eq!(computed(&w), vec![Some(5), Some(15), Some(-10), Some(15)]);
}

#[test]
fn roots_computed_from_local_alone() {
    let mut w = forest(&[(Some(7), None, None), (Some(-4), None, Some(&[]))], 99);
    assert!(AlwaysPropagate::propagate(&mut w).is_ok());
    assert_eq!(computed(&w), vec![Some(7), Some(-4)]);
}

#[test]
fn unconditional_pass_is_idempotent() {
    let mut w = sample();
    assert!(AlwaysPropagate::propagate(&mut w).is_ok());
    let first = computed(&w);
    assert!(AlwaysPropagate::propagate(&mut w).is_ok());
    assert_eq!(computed(&w), first);
}

#[test]
fn gated_pass_is_noop_without_changes() {
    let mut w = sample();
    assert!(AlwaysPropagate::propagate(&mut w).is_ok());
    clear_flags(&mut w);
    // a distinguishing out-of-band write must survive the second pass
    w.computed[1] = Some(999);
    w.computed[3] = Some(-777);
    assert!(PropagateIfChanged::propagate(&mut w).is_ok());
    assert_eq!(computed(&w), vec![Some(5), Some(999), Some(-10), Some(-777)]);
}

#[test]
fn gated_root_change_recomputes_every_descendant() {
    let mut w = sample();
    assert!(AlwaysPropagate::propagate(&mut w).is_ok());
    clear_flags(&mut w);
    // mutate only the root's local value and mark it changed
    w.local[0] = Some(Scale(7));
    w.local_changed[0] = true;
    assert!(PropagateIfChanged::propagate(&mut w).is_ok());
    // exactly what an unconditional pass computes for the new local values
    let mut unconditional = sample();
    unconditional.local[0] = Some(Scale(7));
    assert!(AlwaysPropagate::propagate(&mut unconditional).is_ok());
    assert_eq!(computed(&w), computed(&unconditional));
    assert_eq!(computed(&w), vec![Some(7), Some(21), Some(-14), Some(21)]);
}

#[test]
fn gated_skips_unreached_subtree_under_stale_flags() {
    let mut w = sample();
    assert!(AlwaysPropagate::propagate(&mut w).is_ok());
    clear_flags(&mut w);
    // mutating a local value without marking it changed leaves stale results
    w.local[2] = Some(Scale(100));
    assert!(PropagateIfChanged::propagate(&mut w).is_ok());
    assert_eq!(computed(&w), vec![Some(5), Some(15), Some(-10), Some(15)]);
}

#[test]
fn reparenting_recomputes_moved_subtree() {
    // roots A = 2 (child B = 3) and C = 10
    let mut w = forest(
        &[
            (Some(2), None, Some(&[1])),
            (Some(3), Some(0), None),
            (Some(10), None, Some(&[])),
        ],
        0,
    );
    assert!(AlwaysPropagate::propagate(&mut w).is_ok());
    assert_eq!(computed(&w), vec![Some(2), Some(6), Some(10)]);
    clear_flags(&mut w);
    // move B under C and mark C's children list changed
    w.children[0] = Some(vec![]);
    w.children[2] = Some(vec![1]);
    w.parent[1] = Some(2);
    w.children_changed[0] = true;
    w.children_changed[2] = true;
    assert!(PropagateIfChanged::propagate(&mut w).is_ok());
    assert_eq!(computed(&w), vec![Some(2), Some(30), Some(10)]);
}

#[test]
fn parent_mismatch_is_fatal_unconditional() {
    // the root lists entity 1, but entity 1 records entity 2 as its parent
    let mut w = forest(
        &[
            (Some(5), None, Some(&[1])),
            (Some(3), Some(2), None),
            (Some(1), Some(0), None),
        ],
        0,
    );
    assert!(AlwaysPropagate::propagate(&mut w).is_err());
}

#[test]
fn parent_mismatch_is_fatal_gated() {
    let mut w = forest(
        &[
            (Some(5), None, Some(&[1])),
            (Some(3), Some(2), None),
            (Some(1), Some(0), None),
        ],
        0,
    );
    assert!(PropagateIfChanged::propagate(&mut w).is_err());
}

#[test]
fn cycle_is_detected_not_looped() {
    // 0 -> 1 -> 2, and 2 lists 1 again: revisiting 1 from 2 mismatches,
    // because 1 records 0 as its parent
    let mut w = forest(
        &[
            (Some(5), None, Some(&[1])),
            (Some(3), Some(0), Some(&[2])),
            (Some(2), Some(1), Some(&[1])),
        ],
        0,
    );
    assert!(AlwaysPropagate::propagate(&mut w).is_err());
    let mut g = forest(
        &[
            (Some(5), None, Some(&[1])),
            (Some(3), Some(0), Some(&[2])),
            (Some(2), Some(1), Some(&[1])),
        ],
        0,
    );
    assert!(PropagateIfChanged::propagate(&mut g).is_err());
}

#[test]
fn duplicate_listing_is_fatal() {
    // a children list naming the same entity twice would hand two traversal
    // branches the same computed slot; the pass refuses it
    let mut w = forest(&[(Some(5), None, Some(&[1, 1])), (Some(3), Some(0), None)], 0);
    assert!(AlwaysPropagate::propagate(&mut w).is_err());
}

#[test]
fn missing_entity_abandons_branch_silently() {
    // the root lists a despawned entity (bare slot) and one live child;
    // the live child still computes and the pass succeeds
    let mut w = forest(
        &[
            (Some(5), None, Some(&[1, 2])),
            (None, None, None),
            (Some(4), Some(0), None),
        ],
        0,
    );
    assert!(AlwaysPropagate::propagate(&mut w).is_ok());
    assert_eq!(computed(&w), vec![Some(5), None, Some(20)]);
}

#[test]
fn descendants_of_missing_entity_are_not_visited() {
    // entity 1 lost its local value; its child 2 must not be recomputed
    let mut w = forest(
        &[
            (Some(5), None, Some(&[1])),
            (None, Some(0), Some(&[2])),
            (Some(4), Some(1), None),
        ],
        77,
    );
    assert!(AlwaysPropagate::propagate(&mut w).is_ok());
    assert_eq!(computed(&w), vec![Some(5), None, Some(77)]);
}

#[test]
fn child_without_parent_link_is_skipped() {
    // the root lists entity 1, but 1 records no parent: the branch is
    // abandoned silently, not treated as corruption
    let mut w = forest(&[(Some(5), None, Some(&[1])), (Some(3), None, None)], 0);
    assert!(AlwaysPropagate::propagate(&mut w).is_ok());
    assert_eq!(computed(&w), vec![Some(5), Some(3)]);
}

#[test]
fn product_saturates_at_bounds() {
    let mut w = forest(
        &[
            (Some(i64::MAX), None, Some(&[1, 2])),
            (Some(2), Some(0), None),
            (Some(-2), Some(0), None),
        ],
        0,
    );
    assert!(AlwaysPropagate::propagate(&mut w).is_ok());
    assert_eq!(computed(&w), vec![Some(i64::MAX), Some(i64::MAX), Some(i64::MIN)]);
}

#[test]
fn dispatch_selects_strategy() {
    let mut a = sample();
    assert!(propagate_system(&mut a, PropagateKind::Always).is_ok());
    assert_eq!(computed(&a), vec![Some(5), Some(15), Some(-10), Some(15)]);

    let mut g = sample();
    clear_flags(&mut g);
    g.computed[0] = Some(42);
    // nothing is flagged, so the gated pass leaves the slots alone
    assert!(propagate_system(&mut g, PropagateKind::IfChanged).is_ok());
    assert_eq!(computed(&g), vec![Some(42), Some(0), Some(0), Some(0)]);
}

#[test]
fn empty_forest_passes() {
    let mut w = forest(&[], 0);
    assert!(AlwaysPropagate::propagate(&mut w).is_ok());
    assert!(PropagateIfChanged::propagate(&mut w).is_ok());
    assert!(computed(&w).is_empty());
}

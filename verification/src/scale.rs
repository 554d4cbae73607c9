//! A sample multiplicative recipe.
//!
//! Each entity carries a factor; its computed value is the product of its
//! own factor and all its ancestors' factors, saturating at the `i64`
//! bounds.  A root's computed value is its own factor, and the payload a
//! node hands down is its computed value itself.

use vstd::prelude::*;
use crate::recipe::Propagate;

verus! {

/// A multiplicative local value: the entity's own factor.
pub struct Scale(pub i64);

/// The product of `a` and `b`, saturating at the `i64` bounds.
pub open spec fn saturated_product(a: int, b: int) -> int {
    if a * b > i64::MAX as int {
        i64::MAX as int
    } else if a * b < i64::MIN as int {
        i64::MIN as int
    } else {
        a * b
    }
}

impl Propagate for Scale {
    type Computed = i64;

    type Payload = i64;

    open spec fn root_spec(local: Scale) -> i64 {
        local.0
    }

    open spec fn compute_spec(payload: i64, local: Scale) -> i64 {
        saturated_product(payload as int, local.0 as int) as i64
    }

    open spec fn payload_spec(computed: i64) -> i64 {
        computed
    }

    fn compute_root(local: &Scale) -> (computed: i64) {
        local.0
    }

    fn compute(payload: &i64, local: &Scale) -> (computed: i64) {
        match i64::checked_mul(*payload, local.0) {
            Option::Some(product) => product,
            Option::None => {
                let ghost a: int = *payload as int;
                let ghost b: int = local.0 as int;
                if (*payload > 0) == (local.0 > 0) {
                    proof {
                        if *payload > 0 {
                            assert(a * b > 0) by (nonlinear_arith)
                                requires
                                    a > 0,
                                    b > 0,
                            ;
                        } else {
                            assert(a * b >= 0) by (nonlinear_arith)
                                requires
                                    a <= 0,
                                    b <= 0,
                            ;
                        }
                    }
                    i64::MAX
                } else {
                    proof {
                        assert(a * b <= 0) by (nonlinear_arith)
                            requires
                                (a > 0 && b <= 0) || (a <= 0 && b > 0),
                        ;
                    }
                    i64::MIN
                }
            },
        }
    }

    fn payload(computed: &i64) -> (payload: i64) {
        *computed
    }
}

} // verus!

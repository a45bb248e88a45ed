//! Binary operators from which derived properties are built.

use vstd::prelude::*;

verus! {

/// A binary operation on property values, passed as a value so that a derived
/// property can record which operation recomputes it when a source changes.
///
/// `spec_apply` is the mathematical meaning of the operation; `apply` is the
/// executable computation, proved to agree with it.
pub trait BinaryOp<T>: Sized {
    spec fn spec_apply(self, a: T, b: T) -> T;

    fn apply(&self, a: T, b: T) -> (r: T)
        ensures
            r == self.spec_apply(a, b),
    ;
}

/// Saturating addition on `i64`: the exact sum, clamped to the `i64` range.
#[derive(Clone, Copy, PartialEq, Eq, Debug)]
pub struct SatAdd;

impl BinaryOp<i64> for SatAdd {
    open spec fn spec_apply(self, a: i64, b: i64) -> i64 {
        if a + b > i64::MAX {
            i64::MAX
        } else if a + b < i64::MIN {
            i64::MIN
        } else {
            (a + b) as i64
        }
    }

    fn apply(&self, a: i64, b: i64) -> (r: i64) {
        if a >= 0 {
            if b > i64::MAX - a {
                i64::MAX
            } else {
                a + b
            }
        } else {
            if b < i64::MIN - a {
                i64::MIN
            } else {
                a + b
            }
        }
    }
}

} // verus!

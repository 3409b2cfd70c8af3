//! A sound over-approximation of the set of field values a cell may take.

use vstd::prelude::*;

use crate::field::{is_fe, GL_MODULUS};

verus! {

/// The set of canonical field values `v` with `min <= v <= max`.
///
/// `min > max` denotes the empty constraint, the degenerate result of an
/// impossible intersection; it never collapses to a single value and the
/// engine does not treat it specially. Constraints never exclude an actual
/// satisfying assignment: every operation here only intersects.
#[derive(Clone, Copy, PartialEq, Eq, Structural, Debug)]
pub struct RangeConstraint {
    pub min: u64,
    pub max: u64,
}

/// The bounds are canonical field values.
pub open spec fn rc_wf(rc: RangeConstraint) -> bool {
    is_fe(rc.min) && is_fe(rc.max)
}

/// Membership of a field value in the constraint.
pub open spec fn rc_contains(rc: RangeConstraint, v: int) -> bool {
    rc.min <= v <= rc.max
}

/// `a` admits no value that `b` excludes: `a` is at least as tight as `b`.
pub open spec fn rc_implies(a: RangeConstraint, b: RangeConstraint) -> bool {
    forall|v: int| rc_contains(a, v) ==> rc_contains(b, v)
}

/// The intersection of two constraints, on the spec level.
pub open spec fn rc_conj(a: RangeConstraint, b: RangeConstraint) -> RangeConstraint {
    RangeConstraint {
        min: if a.min >= b.min { a.min } else { b.min },
        max: if a.max <= b.max { a.max } else { b.max },
    }
}

impl RangeConstraint {
    /// The constraint that admits every field value.
    pub fn unconstrained() -> (r: RangeConstraint)
        ensures
            rc_wf(r),
            forall|v: int| is_fe(v as u64) && 0 <= v < GL_MODULUS ==> rc_contains(r, v),
            r == (RangeConstraint { min: 0, max: (GL_MODULUS - 1) as u64 }),
    {
        RangeConstraint { min: 0, max: GL_MODULUS - 1 }
    }

    /// The constraint that admits exactly the value `v`.
    pub fn from_value(v: u64) -> (r: RangeConstraint)
        requires
            is_fe(v),
        ensures
            rc_wf(r),
            forall|w: int| rc_contains(r, w) <==> w == v,
            r == (RangeConstraint { min: v, max: v }),
    {
        RangeConstraint { min: v, max: v }
    }

    /// Intersection of two constraints: the result admits exactly the values
    /// both admit. Total, commutative and associative; the unconstrained
    /// range is its identity.
    pub fn conjunction(&self, other: &RangeConstraint) -> (r: RangeConstraint)
        requires
            rc_wf(*self),
            rc_wf(*other),
        ensures
            rc_wf(r),
            r == rc_conj(*self, *other),
            forall|v: int| rc_contains(r, v) <==> rc_contains(*self, v) && rc_contains(*other, v),
            rc_implies(r, *self),
            rc_implies(r, *other),
    {
        RangeConstraint {
            min: if self.min >= other.min {
                self.min
            } else {
                other.min
            },
            max: if self.max <= other.max {
                self.max
            } else {
                other.max
            },
        }
    }

    /// The single remaining candidate value, if the constraint admits exactly
    /// one; `None` if it admits several values or none at all.
    pub fn try_to_single_value(&self) -> (r: Option<u64>)
        requires
            rc_wf(*self),
        ensures
            r is Some <==> self.min == self.max,
            r is Some ==> r->0 == self.min && is_fe(r->0),
            r is Some ==> forall|v: int| rc_contains(*self, v) <==> v == r->0,
    {
        if self.min == self.max {
            Some(self.min)
        } else {
            None
        }
    }
}

/// Intersection is commutative.
pub proof fn lemma_conjunction_commutative(a: RangeConstraint, b: RangeConstraint)
    ensures
        rc_conj(a, b) == rc_conj(b, a),
{
}

/// Intersection is associative.
pub proof fn lemma_conjunction_associative(
    a: RangeConstraint,
    b: RangeConstraint,
    c: RangeConstraint,
)
    ensures
        rc_conj(rc_conj(a, b), c) == rc_conj(a, rc_conj(b, c)),
{
}

} // verus!

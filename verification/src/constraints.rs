//! Constraints on the value of a register, as a rule's precondition holds
//! them.
use vstd::prelude::*;

verus! {

/// Machine integer of a constrained value.
pub type Int = i64;

/// A constraint on the size of a value.
pub enum MagnitudeCon {
    /// Every value is allowed.
    Unconstrained,
    /// The value is the constant.
    Equals(Int),
    /// The value is at least the constant.
    Min(Int),
}

/// A constraint on a value.
pub struct Constraint {
    pub mag: MagnitudeCon,
}

/// Whether a value passed a constraint.
pub enum ConstraintResult {
    /// The value passes.
    Success,
    /// The value fails. The constraint that comes with the failure holds of
    /// the value and of no value that passes the one that failed.
    Failure(Constraint),
}

impl MagnitudeCon {
    /// Whether `val` satisfies the constraint.
    pub open spec fn allows(&self, val: int) -> bool {
        match *self {
            MagnitudeCon::Unconstrained => true,
            MagnitudeCon::Equals(c) => c == val,
            MagnitudeCon::Min(c) => c <= val,
        }
    }

    /// Tests the constraint on `val`. A failure comes with the constraint
    /// that `val` is what it is.
    pub fn eval(&self, val: Int) -> (r: ConstraintResult)
        ensures
            r is Success <==> self.allows(val as int),
            r matches ConstraintResult::Failure(c) ==> c.mag == MagnitudeCon::Equals(val),
            r matches ConstraintResult::Failure(c) ==> c.mag.allows(val as int) && forall|x: int|
                c.mag.allows(x) ==> !self.allows(x),
    {
        let success = match self {
            MagnitudeCon::Unconstrained => true,
            MagnitudeCon::Equals(c) => *c == val,
            MagnitudeCon::Min(c) => *c <= val,
        };
        if success {
            ConstraintResult::Success
        } else {
            ConstraintResult::Failure(Constraint { mag: MagnitudeCon::Equals(val) })
        }
    }
}

} // verus!

//! What every acceleration rule offers: a test whether it applies to a
//! state, and its application as often as it goes.
use vstd::prelude::*;
use crate::bignum::integer_value;
use crate::program::{BigInt, State};

verus! {

/// The mathematical content of an [`ApplyResult`].
pub enum ApplyOutcome {
    NotApplicable,
    Applied { num_apps: int, result: Seq<int>, base_steps: int },
    Infinite,
}

/// What applying a rule to a state gives.
#[derive(Debug, PartialEq)]
pub enum ApplyResult {
    /// The rule does not apply at all.
    NotApplicable,
    /// The rule applies `num_apps` times and no more. `result` is the state
    /// after them, `base_steps` the number of machine steps they stand for.
    Applied { num_apps: BigInt, result: State, base_steps: BigInt },
    /// The rule applies for ever: the machine never halts.
    Infinite,
}

impl View for ApplyResult {
    type V = ApplyOutcome;

    open spec fn view(&self) -> ApplyOutcome {
        match *self {
            ApplyResult::NotApplicable => ApplyOutcome::NotApplicable,
            ApplyResult::Applied { num_apps, result, base_steps } => ApplyOutcome::Applied {
                num_apps: integer_value(num_apps),
                result: result@,
                base_steps: integer_value(base_steps),
            },
            ApplyResult::Infinite => ApplyOutcome::Infinite,
        }
    }
}

/// An acceleration rule.
pub trait Rule {
    /// Whether the rule can be asked about registers `regs` at all.
    spec fn fits(&self, regs: Seq<int>) -> bool;

    /// Whether the rule applies to `regs`.
    spec fn applicable(&self, regs: Seq<int>) -> bool;

    /// What applying the rule to `regs` gives.
    spec fn outcome(&self, regs: Seq<int>) -> ApplyOutcome;

    /// Whether the rule applies to `state`.
    fn is_applicable(&self, state: &State) -> (r: bool)
        requires
            self.fits(state@),
        ensures
            r == self.applicable(state@),
    ;

    /// Applies the rule to `state` as often as it goes.
    fn apply(&self, state: &State) -> (r: ApplyResult)
        requires
            self.fits(state@),
        ensures
            r@ == self.outcome(state@),
    ;
}

} // verus!

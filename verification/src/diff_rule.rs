//! Rules under which every register changes by a constant while the state
//! stays inside a box, made from the transitions of a transcript.
use vstd::prelude::*;
use vstd::string::StringExecFns;
use core::ops::{Add, Sub};
use crate::bignum::{
    big_add, big_add_i64, big_div_u64, big_gt_i64, big_lt, big_lt_i64, big_mul_i64, big_sub_i64,
    i64_sub_big, integer_value,
};
use crate::program::{
    fired, guard_holds, halts_at, lemma_fired_is, lemma_first_applicable, lemma_run_add,
    lemma_run_prefix, natural, never_halts, run_of, shifted, step_of, BigInt, Program, SmallInt,
    State,
};
use crate::rule::{ApplyOutcome, ApplyResult, Rule};
use crate::state_diff::{Bound, Extended, Int, StateDiff, StateDiffBound};
use crate::text::{join_strings, joined, signed_decimal, signed_text, texts};
use crate::transcript::{blocked_at, lemma_trans_names_registers, trans_of, trans_views, Trans};

verus! {

/// A rule: on a state with `min <= state <= max` in every register, the
/// state may be moved by `delta`, which stands for `num_steps` steps of the
/// machine.
#[derive(Debug, PartialEq)]
pub struct DiffRule {
    pub min: StateDiff,
    pub max: StateDiffBound,
    pub delta: StateDiff,
    pub num_steps: SmallInt,
}

/// The mathematical content of a [`DiffRule`].
pub struct RuleView {
    pub min: Seq<int>,
    pub max: Seq<Extended>,
    pub delta: Seq<int>,
    pub num_steps: int,
}

/// Whether `x` respects the upper limit `limit`. Only a finite limit
/// restricts.
pub open spec fn below_limit(x: int, limit: Extended) -> bool {
    match limit {
        Extended::Finite(m) => x <= m,
        _ => true,
    }
}

/// The larger of two integers.
pub open spec fn int_max(a: int, b: int) -> int {
    if a >= b {
        a
    } else {
        b
    }
}

/// The state `regs` moved `k` times by `delta`.
pub open spec fn moved(regs: Seq<int>, delta: Seq<int>, k: int) -> Seq<int> {
    Seq::new(regs.len(), |i: int| regs[i] + delta[i] * k)
}

impl RuleView {
    /// The three vectors have one length.
    pub open spec fn wf(self) -> bool {
        self.min.len() == self.delta.len() && self.max.len() == self.delta.len()
    }

    /// The number of registers.
    pub open spec fn size(self) -> nat {
        self.delta.len()
    }

    /// No upper limit is negative infinity.
    pub open spec fn proper(self) -> bool {
        forall|i: int| 0 <= i < self.max.len() ==> self.max[i] != Extended::NegativeInfinity
    }

    /// Whether `regs` lies in the rule's box.
    pub open spec fn admits(self, regs: Seq<int>) -> bool {
        &&& regs.len() == self.size()
        &&& forall|i: int|
            0 <= i < self.size() ==> self.min[i] <= #[trigger] regs[i] && below_limit(
                regs[i],
                self.max[i],
            )
    }

    /// Whether no finite entry of the rule exceeds `m` in magnitude.
    pub open spec fn within(self, m: int) -> bool {
        &&& forall|i: int| 0 <= i < self.delta.len() ==> -m <= #[trigger] self.delta[i] <= m
        &&& forall|i: int| 0 <= i < self.min.len() ==> -m <= #[trigger] self.min[i] <= m
        &&& forall|i: int|
            0 <= i < self.max.len() ==> (#[trigger] self.max[i] matches Extended::Finite(x) ==> -m
                <= x <= m)
    }

    /// The rule that always applies and changes nothing.
    pub open spec fn noop(size: nat) -> RuleView {
        RuleView {
            min: Seq::new(size, |i: int| 0int),
            max: Seq::new(size, |i: int| Extended::Infinity),
            delta: Seq::new(size, |i: int| 0int),
            num_steps: 0,
        }
    }

    /// The lower limits of `self` followed by `other`: those of `self`,
    /// and those of `other` moved back by what `self` adds.
    pub open spec fn combined_min(self, other: RuleView) -> Seq<int> {
        Seq::new(self.size(), |i: int| int_max(self.min[i], other.min[i] - self.delta[i]))
    }

    /// The upper limits of `self` followed by `other`.
    pub open spec fn combined_max(self, other: RuleView) -> Seq<Extended> {
        Seq::new(self.size(), |i: int| self.max[i].min(other.max[i].minus(self.delta[i])))
    }

    /// Whether some state can take `self` and then `other`: no lower limit
    /// of the combination lies above its upper limit.
    pub open spec fn feasible_with(self, other: RuleView) -> bool {
        forall|i: int|
            0 <= i < self.size() ==> Extended::Finite(#[trigger] self.combined_min(other)[i]).le(
                self.combined_max(other)[i],
            )
    }

    /// `self` followed by `other`, whether or not any state can take both.
    pub open spec fn merged(self, other: RuleView) -> RuleView {
        RuleView {
            min: self.combined_min(other),
            max: self.combined_max(other),
            delta: Seq::new(self.size(), |i: int| self.delta[i] + other.delta[i]),
            num_steps: self.num_steps + other.num_steps,
        }
    }

    /// The rule that stands for `self` followed by `other`, if some state
    /// can take both in turn.
    pub open spec fn combine(self, other: RuleView) -> Option<RuleView> {
        if self.feasible_with(other) {
            Some(self.merged(other))
        } else {
            None
        }
    }

    /// `self` followed by `other`, where `self` may already have failed.
    pub open spec fn combine_onto(first: Option<RuleView>, other: RuleView) -> Option<RuleView> {
        match first {
            Some(rule) => rule.combine(other),
            None => None,
        }
    }

    /// `self` followed by `second`, where `second` may already have failed.
    pub open spec fn combine_before(self, second: Option<RuleView>) -> Option<RuleView> {
        match second {
            Some(rule) => self.combine(rule),
            None => None,
        }
    }
}

/// The tightest upper limit on register `reg` that the first `upto`
/// failures of `trans` imply: an instruction that takes `n` from a register
/// fails there as long as the register holds at most `n - 1`.
pub open spec fn tightest_limit(prog: Seq<Seq<int>>, trans: Seq<usize>, reg: int, upto: int) -> Extended
    decreases upto,
{
    if upto <= 0 {
        Extended::Infinity
    } else if trans[upto - 1] == reg {
        tightest_limit(prog, trans, reg, upto - 1).min(
            Extended::Finite(-prog[upto - 1][reg] - 1),
        )
    } else {
        tightest_limit(prog, trans, reg, upto - 1)
    }
}

/// The rule of one transition: none for a halting transition; else the
/// instruction that fired as the change, what it takes as the lower limits,
/// and the upper limits under which each instruction before it fails as the
/// transition says.
pub open spec fn rule_of_trans(prog: Seq<Seq<int>>, trans: Seq<usize>) -> Option<RuleView> {
    if trans.len() >= prog.len() {
        None
    } else {
        let delta = prog[trans.len() as int];
        Some(
            RuleView {
                min: Seq::new(delta.len(), |i: int| int_max(0, -delta[i])),
                max: Seq::new(
                    delta.len(),
                    |i: int| tightest_limit(prog, trans, i, trans.len() as int),
                ),
                delta: delta,
                num_steps: 1,
            },
        )
    }
}

/// The rule of the first `upto` transitions of `transv` taken in turn,
/// starting from the rule that changes nothing: none as soon as a
/// transition halts or the next one cannot follow.
pub open spec fn rule_of_trans_seq(prog: Seq<Seq<int>>, transv: Seq<Seq<usize>>, upto: int) -> Option<
    RuleView,
>
    decreases upto,
{
    if upto <= 0 {
        Some(RuleView::noop(prog[0].len()))
    } else {
        match rule_of_trans_seq(prog, transv, upto - 1) {
            None => None,
            Some(so_far) => match rule_of_trans(prog, transv[upto - 1]) {
                None => None,
                Some(next) => so_far.combine(next),
            },
        }
    }
}

/// How often a rule may move one register that holds `val`, has limits
/// `min` and `max` and changes by `del`: none when the register never
/// leaves its limits.
pub open spec fn reg_limit(val: int, min: int, max: Extended, del: int) -> Option<int> {
    if del < 0 {
        Some((val - min) / (-del) + 1)
    } else if del > 0 {
        match max {
            Extended::Finite(m) => Some((m - val) / del + 1),
            _ => None,
        }
    } else {
        None
    }
}

impl RuleView {
    /// The least of the limits of the first `upto` registers, none when
    /// none of them has one.
    pub open spec fn limit(self, regs: Seq<int>, upto: int) -> Option<int>
        decreases upto,
    {
        if upto <= 0 {
            None
        } else {
            let rest = self.limit(regs, upto - 1);
            match reg_limit(
                regs[upto - 1],
                self.min[upto - 1],
                self.max[upto - 1],
                self.delta[upto - 1],
            ) {
                None => rest,
                Some(c) => match rest {
                    None => Some(c),
                    Some(b) => Some(
                        if c < b {
                            c
                        } else {
                            b
                        },
                    ),
                },
            }
        }
    }

    /// What applying the rule to `regs` as often as it goes gives.
    pub open spec fn apply(self, regs: Seq<int>) -> ApplyOutcome {
        if !self.admits(regs) {
            ApplyOutcome::NotApplicable
        } else {
            match self.limit(regs, self.size() as int) {
                None => ApplyOutcome::Infinite,
                Some(n) => ApplyOutcome::Applied {
                    num_apps: n,
                    result: moved(regs, self.delta, n),
                    base_steps: self.num_steps * n,
                },
            }
        }
    }
}

/// Whether every entry of every transition names a register.
pub open spec fn names_registers(transv: Seq<Seq<usize>>, size: nat) -> bool {
    forall|t: int, k: int|
        0 <= t < transv.len() && 0 <= k < transv[t].len() ==> (#[trigger] transv[t][k]) < size
}

/// Whether every entry of every instruction is a small machine integer.
pub open spec fn small_entries(prog: Seq<Seq<int>>) -> bool {
    forall|k: int, i: int|
        0 <= k < prog.len() && 0 <= i < prog[k].len() ==> -step_reach() <= (#[trigger] prog[k][i])
            < step_reach()
}

/// The limits that failures imply are infinite or as small as the
/// instructions' entries.
pub proof fn lemma_tightest_limit_within(prog: Seq<Seq<int>>, trans: Seq<usize>, reg: int, upto: int)
    requires
        small_entries(prog),
        0 <= upto <= trans.len(),
        upto <= prog.len(),
        forall|k: int| 0 <= k < upto ==> 0 <= reg < (#[trigger] prog[k]).len(),
    ensures
        tightest_limit(prog, trans, reg, upto) != Extended::NegativeInfinity,
        tightest_limit(prog, trans, reg, upto) matches Extended::Finite(x) ==> -step_reach() <= x
            <= step_reach(),
    decreases upto,
{
    if upto > 0 {
        lemma_tightest_limit_within(prog, trans, reg, upto - 1);
        assert(-step_reach() <= prog[upto - 1][reg] < step_reach());
    }
}

/// The rule of one transition has entries as small as the instructions'.
pub proof fn lemma_rule_of_trans_within(prog: Seq<Seq<int>>, trans: Seq<usize>)
    requires
        small_entries(prog),
        prog.len() > 0,
        forall|k: int| 0 <= k < prog.len() ==> (#[trigger] prog[k]).len() == prog[0].len(),
    ensures
        rule_of_trans(prog, trans) matches Some(r) ==> r.wf() && r.size() == prog[0].len()
            && r.within(step_reach()) && r.proper(),
{
    if let Some(r) = rule_of_trans(prog, trans) {
        let delta = prog[trans.len() as int];
        assert forall|i: int| 0 <= i < r.delta.len() implies -step_reach() <= #[trigger] r.delta[i]
            <= step_reach() by {
            assert(-step_reach() <= prog[trans.len() as int][i] < step_reach());
        }
        assert forall|i: int| 0 <= i < r.min.len() implies -step_reach() <= #[trigger] r.min[i]
            <= step_reach() by {
            assert(-step_reach() <= prog[trans.len() as int][i] < step_reach());
        }
        assert forall|i: int| 0 <= i < r.max.len() implies (#[trigger] r.max[i]
            != Extended::NegativeInfinity && (r.max[i] matches Extended::Finite(x) ==> -step_reach()
            <= x <= step_reach())) by {
            lemma_tightest_limit_within(prog, trans, i, trans.len() as int);
        }
    }
}

impl View for DiffRule {
    type V = RuleView;

    open spec fn view(&self) -> RuleView {
        RuleView {
            min: self.min@,
            max: self.max@,
            delta: self.delta@,
            num_steps: self.num_steps as int,
        }
    }
}

/// The most that one transition adds to the magnitude of a rule's entries.
pub open spec fn step_reach() -> int {
    0x8000_0000
}

/// Moving by the sum of two rules' entries stays within the sum of their
/// magnitudes.
pub proof fn lemma_combine_within(a: RuleView, b: RuleView, p: int, q: int)
    requires
        a.wf(),
        b.wf(),
        a.size() == b.size(),
        a.within(p),
        b.within(q),
        0 <= p,
        0 <= q,
    ensures
        a.combine(b) matches Some(c) ==> c.wf() && c.size() == a.size() && c.within(p + q),
{
    if let Some(c) = a.combine(b) {
        assert forall|i: int| 0 <= i < c.max.len() implies (#[trigger] c.max[i] matches Extended::Finite(
            x,
        ) ==> -(p + q) <= x <= p + q) by {
            let u = a.max[i];
            let v = b.max[i].minus(a.delta[i]);
            assert(c.max[i] == u.min(v));
            assert(-p <= a.delta[i] <= p);
        }
        assert forall|i: int| 0 <= i < c.min.len() implies -(p + q) <= #[trigger] c.min[i] <= p
            + q by {
            assert(-p <= a.delta[i] <= p);
            assert(-q <= b.min[i] <= q);
            assert(-p <= a.min[i] <= p);
        }
        assert forall|i: int| 0 <= i < c.delta.len() implies -(p + q) <= #[trigger] c.delta[i] <= p
            + q by {
            assert(-p <= a.delta[i] <= p);
            assert(-q <= b.delta[i] <= q);
        }
    }
}

/// Once a sequence of transitions has no rule, no longer one has.
pub proof fn lemma_seq_stays_none(prog: Seq<Seq<int>>, transv: Seq<Seq<usize>>, from: int, upto: int)
    requires
        0 <= from <= upto,
        rule_of_trans_seq(prog, transv, from) is None,
    ensures
        rule_of_trans_seq(prog, transv, upto) is None,
    decreases upto - from,
{
    if from < upto {
        lemma_seq_stays_none(prog, transv, from, upto - 1);
    }
}

impl DiffRule {
    /// The three vectors have one length.
    pub open spec fn wf(&self) -> bool {
        self@.wf()
    }

    /// The rule that always applies and changes nothing.
    pub fn noop(size: usize) -> (r: DiffRule)
        ensures
            r@ == RuleView::noop(size as nat),
    {
        let mut zeros: Vec<Int> = Vec::new();
        let mut i: usize = 0;
        while i < size
            invariant
                0 <= i <= size,
                zeros@.len() == i,
                forall|j: int| 0 <= j < i ==> zeros@[j] == 0,
            decreases size - i,
        {
            zeros.push(0);
            i += 1;
        }
        let r = DiffRule {
            min: StateDiff::new(zeros.clone()),
            max: StateDiffBound::new_max(size),
            delta: StateDiff::new(zeros),
            num_steps: 0,
        };
        proof {
            assert(r@.min =~= RuleView::noop(size as nat).min);
            assert(r@.max =~= RuleView::noop(size as nat).max);
            assert(r@.delta =~= RuleView::noop(size as nat).delta);
        }
        r
    }

    /// The rule of one transition, or `None` when the transition halts.
    pub fn from_trans(prog: &Program, trans: &Trans) -> (r: Option<DiffRule>)
        requires
            prog.wf(),
            forall|k: int| 0 <= k < trans@.len() ==> (#[trigger] trans@[k]) < prog.num_registers_spec(),
        ensures
            match r {
                Some(c) => rule_of_trans(prog@, trans@) == Some(c@),
                None => rule_of_trans(prog@, trans@) is None,
            },
    {
        let fails = trans.reg_fail.len();
        if fails >= prog.num_instrs() {
            return None;
        }
        let size = prog.num_registers();
        let mut max_vals = StateDiffBound::new_max(size);
        let mut k: usize = 0;
        while k < fails
            invariant
                0 <= k <= fails,
                fails == trans@.len(),
                fails < prog@.len(),
                prog.wf(),
                size == prog.num_registers_spec(),
                max_vals@.len() == size,
                forall|j: int| 0 <= j < fails ==> (#[trigger] trans@[j]) < size,
                forall|i: int|
                    0 <= i < size ==> #[trigger] max_vals@[i] == tightest_limit(
                        prog@,
                        trans@,
                        i,
                        k as int,
                    ),
            decreases fails - k,
        {
            let reg = trans.reg_fail[k];
            assert(trans@[k as int] < size);
            assert(prog.instrs@[k as int]@.len() == size);
            let max_val: Int = -(prog.instrs[k].data[reg] as Int) - 1;
            let ghost before = max_vals@;
            let tighter = max_vals.data[reg].min(Bound::Finite(max_val));
            max_vals.data.set(reg, tighter);
            proof {
                assert(prog@[k as int][reg as int] == prog.instrs@[k as int].data@[reg as int]);
                assert forall|i: int| 0 <= i < size implies #[trigger] max_vals@[i]
                    == tightest_limit(prog@, trans@, i, k + 1) by {
                    assert(before[i] == tightest_limit(prog@, trans@, i, k as int));
                    if i != reg {
                        assert(max_vals@[i] == before[i]);
                    }
                }
            }
            k += 1;
        }
        let fired = &prog.instrs[fails];
        assert(fired@.len() == size);
        let mut delta: Vec<Int> = Vec::new();
        let mut min_vals: Vec<Int> = Vec::new();
        let mut i: usize = 0;
        while i < size
            invariant
                0 <= i <= size,
                size == fired.data@.len(),
                delta@.len() == i,
                min_vals@.len() == i,
                forall|j: int| 0 <= j < i ==> delta@[j] == fired.data@[j],
                forall|j: int| 0 <= j < i ==> min_vals@[j] == int_max(0, -fired.data@[j]),
            decreases size - i,
        {
            let d: Int = fired.data[i] as Int;
            delta.push(d);
            min_vals.push(if d < 0 { -d } else { 0 });
            i += 1;
        }
        let c = DiffRule {
            min: StateDiff::new(min_vals),
            max: max_vals,
            delta: StateDiff::new(delta),
            num_steps: 1,
        };
        proof {
            let want = rule_of_trans(prog@, trans@).unwrap();
            assert(prog@[fails as int] == fired@);
            assert(c@.delta =~= want.delta);
            assert(c@.min =~= want.min);
            assert(c@.max =~= want.max);
        }
        Some(c)
    }

    /// The rule of a sequence of transitions taken in turn, or `None` when
    /// one of them halts or no state can take them all in turn.
    pub fn from_trans_vec(prog: &Program, trans_vec: &[Trans]) -> (r: Option<DiffRule>)
        requires
            prog.wf(),
            names_registers(trans_views(trans_vec@), prog.num_registers_spec()),
            trans_vec@.len() < SmallInt::MAX,
        ensures
            match r {
                Some(c) => rule_of_trans_seq(
                    prog@,
                    trans_views(trans_vec@),
                    trans_vec@.len() as int,
                ) == Some(c@),
                None => rule_of_trans_seq(prog@, trans_views(trans_vec@), trans_vec@.len() as int)
                     is None,
            },
            r matches Some(c) ==> c.wf() && c@.size() == prog.num_registers_spec() && c.num_steps
                == trans_vec@.len() && rule_sound(prog@, c@),
    {
        let ghost views = trans_views(trans_vec@);
        proof {
            prog.lemma_small_entries();
            law_rule_follows_machine(
                prog@,
                views,
                trans_vec@.len() as int,
                prog.num_registers_spec(),
            );
        }
        let n = trans_vec.len();
        let mut comb_rule = DiffRule::noop(prog.num_registers());
        proof {
            prog.lemma_small_entries();
            assert(comb_rule@.within(0));
        }
        let mut k: usize = 0;
        while k < n
            invariant
                0 <= k <= n,
                n == trans_vec@.len(),
                n < SmallInt::MAX,
                prog.wf(),
                small_entries(prog@),
                views == trans_views(trans_vec@),
                names_registers(views, prog.num_registers_spec()),
                rule_of_trans_seq(prog@, views, k as int) == Some(comb_rule@),
                comb_rule@.wf(),
                comb_rule@.size() == prog.num_registers_spec(),
                comb_rule@.within(k * step_reach()),
                comb_rule.num_steps == k,
            decreases n - k,
        {
            let t = &trans_vec[k];
            proof {
                assert(views[k as int] == t@);
                assert forall|j: int| 0 <= j < t@.len() implies (#[trigger] t@[j])
                    < prog.num_registers_spec() by {
                    assert(views[k as int][j] < prog.num_registers_spec());
                }
                lemma_rule_of_trans_within(prog@, t@);
            }
            match DiffRule::from_trans(prog, t) {
                None => {
                    proof {
                        lemma_seq_stays_none(prog@, views, k + 1, n as int);
                    }
                    return None;
                },
                Some(rule) => {
                    proof {
                        lemma_combine_within(comb_rule@, rule@, k * step_reach(), step_reach());
                        assert(k * step_reach() + step_reach() == (k + 1) * step_reach())
                            by (nonlinear_arith);
                        assert((k + 1) * step_reach() <= 0x4000_0000_0000_0000) by (nonlinear_arith)
                            requires
                                k + 1 <= 0x7fff_ffff,
                                step_reach() == 0x8000_0000,
                        ;
                        assert(k * step_reach() >= 0) by (nonlinear_arith)
                            requires
                                k >= 0,
                                step_reach() == 0x8000_0000,
                        ;
                        assert(comb_rule.can_combine(&rule)) by {
                            assert forall|i: int| 0 <= i < comb_rule@.size() implies {
                                &&& Int::MIN <= #[trigger] rule@.min[i] - comb_rule@.delta[i]
                                    <= Int::MAX
                                &&& Int::MIN <= comb_rule@.delta[i] + rule@.delta[i] <= Int::MAX
                                &&& (rule@.max[i] matches Extended::Finite(x) ==> Int::MIN <= x
                                    - comb_rule@.delta[i] <= Int::MAX)
                            } by {
                                assert(-step_reach() <= rule@.min[i] <= step_reach());
                                assert(-step_reach() <= rule@.delta[i] <= step_reach());
                                assert(-(k * step_reach()) <= comb_rule@.delta[i] <= k
                                    * step_reach());
                            }
                        }
                    }
                    match comb_rule.combine(&rule) {
                        None => {
                            proof {
                                lemma_seq_stays_none(prog@, views, k + 1, n as int);
                            }
                            return None;
                        },
                        Some(next) => {
                            comb_rule = next;
                        },
                    }
                },
            }
            k += 1;
        }
        Some(comb_rule)
    }

    /// Whether `self` followed by `other` can be computed in machine
    /// integers.
    pub open spec fn can_combine(&self, other: &DiffRule) -> bool {
        &&& self.wf()
        &&& other.wf()
        &&& self@.size() == other@.size()
        &&& forall|i: int|
            0 <= i < self@.size() ==> {
                &&& Int::MIN <= #[trigger] other@.min[i] - self@.delta[i] <= Int::MAX
                &&& Int::MIN <= self@.delta[i] + other@.delta[i] <= Int::MAX
                &&& (other@.max[i] matches Extended::Finite(x) ==> Int::MIN <= x - self@.delta[i]
                    <= Int::MAX)
            }
        &&& SmallInt::MIN <= self.num_steps + other.num_steps <= SmallInt::MAX
    }

    /// The rule that stands for `self` followed by `other`, or `None` when
    /// no state can take both in turn.
    pub fn combine(&self, other: &DiffRule) -> (r: Option<DiffRule>)
        requires
            self.can_combine(other),
        ensures
            match r {
                Some(c) => self@.combine(other@) == Some(c@),
                None => self@.combine(other@) is None,
            },
    {
        proof {
            assert forall|i: int| 0 <= i < other.min@.len() implies Int::MIN <= #[trigger] other.min@[i]
                - self.delta@[i] <= Int::MAX by {
                assert(Int::MIN <= other@.min[i] - self@.delta[i] <= Int::MAX);
            }
        }
        let other_min = other.min.sub(&self.delta);
        let min = self.min.pointwise_max(&other_min);
        let shift = StateDiffBound::from_diff(&self.delta);
        proof {
            assert forall|i: int| 0 <= i < other.max.data@.len() implies (
            #[trigger] other.max.data@[i]).can_sub(shift.data@[i]) by {
                assert(shift@[i] == Extended::Finite(self.delta@[i]));
                assert(Int::MIN <= other@.min[i] - self@.delta[i] <= Int::MAX);
                assert(other@.max[i] == other.max.data@[i]@);
            }
        }
        let other_max = other.max.sub(&shift);
        let max = self.max.pointwise_min(&other_max);
        proof {
            assert(min@ =~= self@.combined_min(other@));
            assert forall|i: int| 0 <= i < max@.len() implies max@[i] == self@.combined_max(
                other@,
            )[i] by {
                assert(shift@[i] == Extended::Finite(self.delta@[i]));
                assert(other_max@[i] == other.max.data@[i].sub_spec(shift.data@[i]));
                assert(other@.max[i] == other.max.data@[i]@);
            }
            assert(max@ =~= self@.combined_max(other@));
        }
        if Self::covers(&max, &min) {
            proof {
                assert forall|i: int| 0 <= i < self.delta@.len() implies Int::MIN
                    <= #[trigger] self.delta@[i] + other.delta@[i] <= Int::MAX by {
                    assert(Int::MIN <= other@.min[i] - self@.delta[i] <= Int::MAX);
                }
            }
            let delta = self.delta.add(&other.delta);
            let c = DiffRule { min, max, delta, num_steps: self.num_steps + other.num_steps };
            proof {
                assert(c@.delta =~= self@.combine(other@).unwrap().delta);
            }
            Some(c)
        } else {
            None
        }
    }

    /// Whether every lower limit is at most the upper limit of its
    /// register.
    fn covers(max: &StateDiffBound, min: &StateDiff) -> (r: bool)
        requires
            max@.len() == min@.len(),
        ensures
            r == forall|i: int|
                0 <= i < min@.len() ==> Extended::Finite(#[trigger] min@[i]).le(max@[i]),
    {
        let n = min.data.len();
        let mut i: usize = 0;
        while i < n
            invariant
                0 <= i <= n,
                n == min.data@.len(),
                n == max.data@.len(),
                forall|j: int| 0 <= j < i ==> Extended::Finite(#[trigger] min@[j]).le(max@[j]),
            decreases n - i,
        {
            if !Bound::Finite(min.data[i]).le(&max.data[i]) {
                assert(!Extended::Finite(min@[i as int]).le(max@[i as int]));
                return false;
            }
            i += 1;
        }
        true
    }
}

/// How often a rule may move one register, computed on the register's
/// value: see [`reg_limit`].
fn num_apps_reg(val: &BigInt, min: Int, max: Bound, del: Int) -> (r: Option<BigInt>)
    requires
        min <= integer_value(*val),
        below_limit(integer_value(*val), max@),
    ensures
        match r {
            Some(c) => reg_limit(integer_value(*val), min as int, max@, del as int) == Some(
                integer_value(c),
            ),
            None => reg_limit(integer_value(*val), min as int, max@, del as int) is None,
        },
{
    if del < 0 {
        let room = big_sub_i64(val, min);
        let pace: u64 = ((-(del + 1)) as u64) + 1;
        let whole = big_div_u64(&room, pace);
        Some(big_add_i64(&whole, 1))
    } else if del > 0 {
        match max {
            Bound::Finite(max_f) => {
                let room = i64_sub_big(max_f, val);
                let whole = big_div_u64(&room, del as u64);
                Some(big_add_i64(&whole, 1))
            },
            _ => None,
        }
    } else {
        None
    }
}

impl Rule for DiffRule {
    open spec fn fits(&self, regs: Seq<int>) -> bool {
        self.wf() && regs.len() == self@.size()
    }

    open spec fn applicable(&self, regs: Seq<int>) -> bool {
        self@.admits(regs)
    }

    open spec fn outcome(&self, regs: Seq<int>) -> ApplyOutcome {
        self@.apply(regs)
    }

    /// Whether `state` lies in the rule's box.
    fn is_applicable(&self, state: &State) -> (r: bool) {
        let n = state.data.len();
        let mut i: usize = 0;
        while i < n
            invariant
                0 <= i <= n,
                n == state.data@.len(),
                self.fits(state@),
                forall|j: int|
                    0 <= j < i ==> self@.min[j] <= #[trigger] state@[j] && below_limit(
                        state@[j],
                        self@.max[j],
                    ),
            decreases n - i,
        {
            let val = &state.data[i];
            assert(integer_value(*val) == state@[i as int]);
            assert(self@.min[i as int] == self.min.data@[i as int]);
            assert(self@.max[i as int] == self.max.data@[i as int]@);
            if big_lt_i64(val, self.min.data[i]) {
                return false;
            }
            match self.max.data[i] {
                Bound::Finite(max_f) => {
                    if big_gt_i64(val, max_f) {
                        return false;
                    }
                },
                _ => {},
            }
            i += 1;
        }
        true
    }

    /// Applies the rule as often as it goes. The number of applications is
    /// the least of the registers' limits; when no register has one the rule
    /// applies for ever.
    fn apply(&self, state: &State) -> (r: ApplyResult) {
        if !self.is_applicable(state) {
            return ApplyResult::NotApplicable;
        }
        let n = state.data.len();
        let mut best: Option<BigInt> = None;
        let mut i: usize = 0;
        while i < n
            invariant
                0 <= i <= n,
                n == state.data@.len(),
                self.fits(state@),
                self@.admits(state@),
                match best {
                    Some(b) => self@.limit(state@, i as int) == Some(integer_value(b)),
                    None => self@.limit(state@, i as int) is None,
                },
            decreases n - i,
        {
            let val = &state.data[i];
            assert(integer_value(*val) == state@[i as int]);
            assert(self@.min[i as int] == self.min.data@[i as int]);
            assert(self@.max[i as int] == self.max.data@[i as int]@);
            assert(self@.delta[i as int] == self.delta.data@[i as int]);
            match num_apps_reg(val, self.min.data[i], self.max.data[i], self.delta.data[i]) {
                Some(c) => {
                    best = match best {
                        None => Some(c),
                        Some(b) => if big_lt(&c, &b) {
                            Some(c)
                        } else {
                            Some(b)
                        },
                    };
                },
                None => {},
            }
            i += 1;
        }
        match best {
            None => ApplyResult::Infinite,
            Some(num_apps) => {
                let mut data: Vec<BigInt> = Vec::new();
                let mut j: usize = 0;
                while j < n
                    invariant
                        0 <= j <= n,
                        n == state.data@.len(),
                        self.fits(state@),
                        data@.len() == j,
                        forall|i: int|
                            0 <= i < j ==> integer_value(#[trigger] data@[i]) == state@[i]
                                + self@.delta[i] * integer_value(num_apps),
                    decreases n - j,
                {
                    assert(self@.delta[j as int] == self.delta.data@[j as int]);
                    let step = big_mul_i64(&num_apps, self.delta.data[j]);
                    assert(integer_value(step) == self@.delta[j as int] * integer_value(num_apps))
                        by (nonlinear_arith)
                        requires
                            integer_value(step) == integer_value(num_apps) * self@.delta[j as int],
                    ;
                    data.push(big_add(&state.data[j], &step));
                    j += 1;
                }
                let base_steps = big_mul_i64(&num_apps, self.num_steps as i64);
                let result = State { data };
                proof {
                    assert(result@ =~= moved(state@, self@.delta, integer_value(num_apps)));
                    assert(integer_value(base_steps) == self@.num_steps * integer_value(num_apps))
                        by (nonlinear_arith)
                        requires
                            integer_value(base_steps) == integer_value(num_apps)
                                * self@.num_steps,
                    ;
                }
                ApplyResult::Applied { num_apps, result, base_steps }
            },
        }
    }
}

/// How often a rule may move one register: the limit is at least one, the
/// register stays within its limits before that many moves, and is outside
/// them after; without a limit it stays within them for ever.
pub proof fn lemma_reg_limit(val: int, min: int, max: Extended, del: int)
    requires
        min <= val,
        below_limit(val, max),
    ensures
        match reg_limit(val, min, max, del) {
            Some(c) => {
                &&& c >= 1
                &&& forall|k: int|
                    0 <= k < c ==> min <= val + del * k && below_limit(#[trigger] (val + del * k), max)
                &&& !(min <= val + del * c && below_limit(val + del * c, max))
            },
            None => forall|k: int|
                0 <= k ==> min <= val + del * k && below_limit(#[trigger] (val + del * k), max),
        },
{
    if del < 0 {
        let d = -del;
        let a = val - min;
        let q = a / d;
        assert(q * d <= a < (q + 1) * d && q >= 0) by (nonlinear_arith)
            requires
                d > 0,
                a >= 0,
                q == a / d,
        ;
        assert forall|k: int| 0 <= k < q + 1 implies min <= val + del * k && below_limit(
            #[trigger] (val + del * k),
            max,
        ) by {
            assert(val + del * k >= min && val + del * k <= val) by (nonlinear_arith)
                requires
                    0 <= k <= q,
                    q * d <= val - min,
                    d > 0,
                    del == -d,
            ;
        }
        assert(val + del * (q + 1) < min) by (nonlinear_arith)
            requires
                val - min < (q + 1) * d,
                del == -d,
        ;
    } else if del > 0 {
        match max {
            Extended::Finite(m) => {
                let a = m - val;
                let q = a / del;
                assert(q * del <= a < (q + 1) * del && q >= 0) by (nonlinear_arith)
                    requires
                        del > 0,
                        a >= 0,
                        q == a / del,
                ;
                assert forall|k: int| 0 <= k < q + 1 implies min <= val + del * k && below_limit(
                    #[trigger] (val + del * k),
                    max,
                ) by {
                    assert(val + del * k <= m && val + del * k >= val) by (nonlinear_arith)
                        requires
                            0 <= k <= q,
                            q * del <= m - val,
                            del > 0,
                    ;
                }
                assert(val + del * (q + 1) > m) by (nonlinear_arith)
                    requires
                        m - val < (q + 1) * del,
                ;
            },
            _ => {
                assert forall|k: int| 0 <= k implies min <= val + del * k && below_limit(
                    #[trigger] (val + del * k),
                    max,
                ) by {
                    assert(val + del * k >= val) by (nonlinear_arith)
                        requires
                            0 <= k,
                            del > 0,
                    ;
                }
            },
        }
    } else {
        assert forall|k: int| 0 <= k implies min <= val + del * k && below_limit(
            #[trigger] (val + del * k),
            max,
        ) by {
            assert(del * k == 0) by (nonlinear_arith)
                requires
                    del == 0,
            ;
        }
    }
}

impl RuleView {
    /// Whether register `i` is within its limits after `k` moves.
    pub open spec fn holds_at(self, regs: Seq<int>, i: int, k: int) -> bool {
        self.min[i] <= regs[i] + self.delta[i] * k && below_limit(
            regs[i] + self.delta[i] * k,
            self.max[i],
        )
    }

    /// The least limit of the first `upto` registers is at least one; each
    /// of them stays within its limits before that many moves, and one of
    /// them is outside after. Without a limit all of them stay within their
    /// limits for ever.
    pub proof fn lemma_limit(self, regs: Seq<int>, upto: int)
        requires
            self.wf(),
            self.admits(regs),
            0 <= upto <= self.size(),
        ensures
            match self.limit(regs, upto) {
                Some(n) => {
                    &&& n >= 1
                    &&& forall|i: int, k: int|
                        0 <= i < upto && 0 <= k < n ==> #[trigger] self.holds_at(regs, i, k)
                    &&& exists|i: int| 0 <= i < upto && !#[trigger] self.holds_at(regs, i, n)
                },
                None => forall|i: int, k: int|
                    0 <= i < upto && 0 <= k ==> #[trigger] self.holds_at(regs, i, k),
            },
        decreases upto,
    {
        if upto > 0 {
            let last = upto - 1;
            self.lemma_limit(regs, last);
            assert(self.min[last] <= regs[last] && below_limit(regs[last], self.max[last]));
            lemma_reg_limit(regs[last], self.min[last], self.max[last], self.delta[last]);
            let here = reg_limit(regs[last], self.min[last], self.max[last], self.delta[last]);
            let rest = self.limit(regs, last);
            match here {
                None => {
                    match rest {
                        Some(n) => {
                            let w = choose|i: int|
                                0 <= i < last && !#[trigger] self.holds_at(regs, i, n);
                            assert(0 <= w < upto && !self.holds_at(regs, w, n));
                            assert forall|i: int, k: int|
                                0 <= i < upto && 0 <= k < n implies #[trigger] self.holds_at(
                                regs,
                                i,
                                k,
                            ) by {
                                if i == last {
                                    assert(below_limit(
                                        regs[last] + self.delta[last] * k,
                                        self.max[last],
                                    ));
                                }
                            }
                        },
                        None => {
                            assert forall|i: int, k: int|
                                0 <= i < upto && 0 <= k implies #[trigger] self.holds_at(
                                regs,
                                i,
                                k,
                            ) by {
                                if i == last {
                                    assert(below_limit(
                                        regs[last] + self.delta[last] * k,
                                        self.max[last],
                                    ));
                                }
                            }
                        },
                    }
                },
                Some(c) => {
                    match rest {
                        Some(b) => {
                            let n = if c < b {
                                c
                            } else {
                                b
                            };
                            assert forall|i: int, k: int|
                                0 <= i < upto && 0 <= k < n implies #[trigger] self.holds_at(
                                regs,
                                i,
                                k,
                            ) by {
                                if i == last {
                                    assert(below_limit(
                                        regs[last] + self.delta[last] * k,
                                        self.max[last],
                                    ));
                                }
                            }
                            if c < b {
                                assert(!self.holds_at(regs, last, n));
                            } else {
                                let w = choose|i: int|
                                    0 <= i < last && !#[trigger] self.holds_at(regs, i, b);
                                assert(0 <= w < upto && !self.holds_at(regs, w, n));
                            }
                        },
                        None => {
                            assert forall|i: int, k: int|
                                0 <= i < upto && 0 <= k < c implies #[trigger] self.holds_at(
                                regs,
                                i,
                                k,
                            ) by {
                                if i == last {
                                    assert(below_limit(
                                        regs[last] + self.delta[last] * k,
                                        self.max[last],
                                    ));
                                }
                            }
                            assert(!self.holds_at(regs, last, c));
                        },
                    }
                },
            }
        }
    }

    /// A state moved `k` times lies in the box exactly when every register
    /// is within its limits after `k` moves.
    pub proof fn lemma_admits_moved(self, regs: Seq<int>, k: int)
        requires
            self.wf(),
            regs.len() == self.size(),
        ensures
            self.admits(moved(regs, self.delta, k)) <==> forall|i: int|
                0 <= i < self.size() ==> #[trigger] self.holds_at(regs, i, k),
    {
        let m = moved(regs, self.delta, k);
        if self.admits(m) {
            assert forall|i: int| 0 <= i < self.size() implies #[trigger] self.holds_at(
                regs,
                i,
                k,
            ) by {
                assert(self.min[i] <= m[i] && below_limit(m[i], self.max[i]));
            }
        }
        if forall|i: int| 0 <= i < self.size() ==> #[trigger] self.holds_at(regs, i, k) {
            assert forall|i: int| 0 <= i < self.size() implies self.min[i] <= #[trigger] m[i]
                && below_limit(m[i], self.max[i]) by {
                assert(self.holds_at(regs, i, k));
            }
        }
    }

    /// Applying a rule to a state in its box moves the state as often as
    /// the box allows and no further: with `num_apps` applications the result
    /// is the state plus `num_apps` times the change, the state lies in the
    /// box before each of them, and after the last one it lies outside. A
    /// rule that applies for ever never leaves its box.
    pub proof fn law_apply_is_tight(self, regs: Seq<int>)
        requires
            self.wf(),
            self.admits(regs),
        ensures
            match self.apply(regs) {
                ApplyOutcome::Applied { num_apps, result, base_steps } => {
                    &&& num_apps >= 1
                    &&& result == moved(regs, self.delta, num_apps)
                    &&& base_steps == self.num_steps * num_apps
                    &&& forall|k: int|
                        0 <= k < num_apps ==> self.admits(#[trigger] moved(regs, self.delta, k))
                    &&& !self.admits(moved(regs, self.delta, num_apps))
                },
                ApplyOutcome::Infinite => forall|k: int|
                    0 <= k ==> self.admits(#[trigger] moved(regs, self.delta, k)),
                ApplyOutcome::NotApplicable => false,
            },
    {
        self.lemma_limit(regs, self.size() as int);
        match self.limit(regs, self.size() as int) {
            Some(n) => {
                assert forall|k: int| 0 <= k < n implies self.admits(
                    #[trigger] moved(regs, self.delta, k),
                ) by {
                    self.lemma_admits_moved(regs, k);
                }
                self.lemma_admits_moved(regs, n);
            },
            None => {
                assert forall|k: int| 0 <= k implies self.admits(
                    #[trigger] moved(regs, self.delta, k),
                ) by {
                    self.lemma_admits_moved(regs, k);
                }
            },
        }
    }

    /// Taking three rules in turn gives one rule, or fails, however the
    /// three are grouped.
    pub proof fn law_combine_associative(a: RuleView, b: RuleView, c: RuleView)
        requires
            a.wf(),
            b.wf(),
            c.wf(),
            a.size() == b.size(),
            b.size() == c.size(),
        ensures
            RuleView::combine_onto(a.combine(b), c) == a.combine_before(b.combine(c)),
    {
        let ab = a.merged(b);
        let bc = b.merged(c);
        let left = ab.merged(c);
        let right = a.merged(bc);
        assert(left.min =~= right.min);
        assert(left.max =~= right.max);
        assert(left.delta =~= right.delta);
        assert(left == right);
        assert forall|i: int| 0 <= i < a.size() implies (Extended::Finite(
            #[trigger] ab.combined_min(c)[i],
        ).le(ab.combined_max(c)[i]) <==> Extended::Finite(a.combined_min(bc)[i]).le(
            a.combined_max(bc)[i],
        )) by {
            assert(left.min[i] == right.min[i]);
            assert(left.max[i] == right.max[i]);
        }
        if ab.feasible_with(c) {
            assert forall|i: int| 0 <= i < a.size() implies Extended::Finite(
                #[trigger] a.combined_min(b)[i],
            ).le(a.combined_max(b)[i]) by {
                assert(Extended::Finite(ab.combined_min(c)[i]).le(ab.combined_max(c)[i]));
            }
            assert forall|i: int| 0 <= i < a.size() implies Extended::Finite(
                #[trigger] b.combined_min(c)[i],
            ).le(b.combined_max(c)[i]) by {
                assert(Extended::Finite(ab.combined_min(c)[i]).le(ab.combined_max(c)[i]));
            }
            assert forall|i: int| 0 <= i < a.size() implies Extended::Finite(
                #[trigger] a.combined_min(bc)[i],
            ).le(a.combined_max(bc)[i]) by {
                assert(Extended::Finite(ab.combined_min(c)[i]).le(ab.combined_max(c)[i]));
            }
        }
        if a.feasible_with(bc) {
            assert forall|i: int| 0 <= i < a.size() implies Extended::Finite(
                #[trigger] a.combined_min(b)[i],
            ).le(a.combined_max(b)[i]) by {
                assert(Extended::Finite(a.combined_min(bc)[i]).le(a.combined_max(bc)[i]));
            }
            assert forall|i: int| 0 <= i < a.size() implies Extended::Finite(
                #[trigger] b.combined_min(c)[i],
            ).le(b.combined_max(c)[i]) by {
                assert(Extended::Finite(a.combined_min(bc)[i]).le(a.combined_max(bc)[i]));
            }
            assert forall|i: int| 0 <= i < a.size() implies Extended::Finite(
                #[trigger] ab.combined_min(c)[i],
            ).le(ab.combined_max(c)[i]) by {
                assert(Extended::Finite(a.combined_min(bc)[i]).le(a.combined_max(bc)[i]));
            }
        }
    }

    /// A state can take `self` and then `other` exactly when it lies in the
    /// box of the two taken together, and there is such a state exactly when
    /// the two can be combined.
    pub proof fn law_combine_is_sequence(self, other: RuleView)
        requires
            self.wf(),
            other.wf(),
            self.size() == other.size(),
            self.proper(),
            other.proper(),
        ensures
            forall|regs: Seq<int>|
                #[trigger] self.merged(other).admits(regs) <==> self.admits(regs) && other.admits(
                    moved(regs, self.delta, 1),
                ),
            self.combine(other) is Some <==> exists|regs: Seq<int>|
                #[trigger] self.merged(other).admits(regs),
    {
        let both = self.merged(other);
        assert forall|regs: Seq<int>| #[trigger] both.admits(regs) <==> self.admits(regs)
            && other.admits(moved(regs, self.delta, 1)) by {
            let next = moved(regs, self.delta, 1);
            if both.admits(regs) {
                assert forall|i: int| 0 <= i < self.size() implies self.min[i] <= #[trigger] regs[i]
                    && below_limit(regs[i], self.max[i]) by {
                    assert(both.min[i] <= regs[i] && below_limit(regs[i], both.max[i]));
                }
                assert forall|i: int| 0 <= i < other.size() implies other.min[i] <= #[trigger] next[i]
                    && below_limit(next[i], other.max[i]) by {
                    assert(both.min[i] <= regs[i] && below_limit(regs[i], both.max[i]));
                }
            }
            if self.admits(regs) && other.admits(next) {
                assert forall|i: int| 0 <= i < both.size() implies both.min[i] <= #[trigger] regs[i]
                    && below_limit(regs[i], both.max[i]) by {
                    assert(self.min[i] <= regs[i] && below_limit(regs[i], self.max[i]));
                    assert(other.min[i] <= next[i] && below_limit(next[i], other.max[i]));
                }
            }
        }
        if self.combine(other) is Some {
            let low = both.min;
            assert forall|i: int| 0 <= i < both.size() implies both.min[i] <= #[trigger] low[i]
                && below_limit(low[i], both.max[i]) by {
                assert(Extended::Finite(self.combined_min(other)[i]).le(
                    self.combined_max(other)[i],
                ));
            }
            assert(both.admits(low));
        }
        if exists|regs: Seq<int>| #[trigger] both.admits(regs) {
            let regs = choose|regs: Seq<int>| #[trigger] both.admits(regs);
            assert forall|i: int| 0 <= i < self.size() implies Extended::Finite(
                #[trigger] self.combined_min(other)[i],
            ).le(self.combined_max(other)[i]) by {
                assert(both.min[i] <= regs[i] && below_limit(regs[i], both.max[i]));
                assert(self.max[i] != Extended::NegativeInfinity);
                assert(other.max[i] != Extended::NegativeInfinity);
            }
        }
    }
}

/// Whether a rule is true of the machine: on every state of natural
/// numbers in its box, the machine makes the rule's number of steps, and
/// they move the state by the rule's change.
pub open spec fn rule_sound(prog: Seq<Seq<int>>, rule: RuleView) -> bool {
    &&& rule.num_steps >= 0
    &&& forall|regs: Seq<int>|
        natural(regs) && #[trigger] rule.admits(regs) ==> run_of(
            prog,
            regs,
            rule.num_steps as nat,
        ) == Some(moved(regs, rule.delta, 1)) && natural(moved(regs, rule.delta, 1))
}

/// Whether every instruction of `prog` has `size` entries and there is an
/// instruction.
pub open spec fn program_sized(prog: Seq<Seq<int>>, size: nat) -> bool {
    &&& prog.len() > 0
    &&& forall|k: int| 0 <= k < prog.len() ==> (#[trigger] prog[k]).len() == size
}

/// A value respects the tightest limit exactly when it respects the limit
/// of each failure at the register.
pub proof fn lemma_tightest_limit(prog: Seq<Seq<int>>, trans: Seq<usize>, reg: int, upto: int, x: int)
    requires
        0 <= upto <= trans.len(),
    ensures
        tightest_limit(prog, trans, reg, upto) != Extended::NegativeInfinity,
        below_limit(x, tightest_limit(prog, trans, reg, upto)) <==> forall|k: int|
            0 <= k < upto && #[trigger] trans[k] == reg ==> x <= -prog[k][reg] - 1,
    decreases upto,
{
    if upto > 0 {
        lemma_tightest_limit(prog, trans, reg, upto - 1, x);
        let before = tightest_limit(prog, trans, reg, upto - 1);
        assert(before != Extended::NegativeInfinity);
        if forall|k: int| 0 <= k < upto && #[trigger] trans[k] == reg ==> x <= -prog[k][reg] - 1 {
            assert forall|k: int| 0 <= k < upto - 1 && #[trigger] trans[k] == reg implies x
                <= -prog[k][reg] - 1 by {}
            if trans[upto - 1] == reg {
                assert(x <= -prog[upto - 1][reg] - 1);
            }
        }
        if below_limit(x, tightest_limit(prog, trans, reg, upto)) {
            assert forall|k: int| 0 <= k < upto && #[trigger] trans[k] == reg implies x
                <= -prog[k][reg] - 1 by {
                assert(below_limit(x, before));
            }
        }
    }
}

/// The rule of a transition is true of the machine: on a state of natural
/// numbers in its box the instruction of the transition fires.
pub proof fn lemma_trans_rule_sound(prog: Seq<Seq<int>>, trans: Seq<usize>, size: nat)
    requires
        program_sized(prog, size),
        forall|k: int| 0 <= k < trans.len() ==> (#[trigger] trans[k]) < size,
    ensures
        rule_of_trans(prog, trans) matches Some(rule) ==> rule_sound(prog, rule) && rule.num_steps
            == 1,
{
    if let Some(rule) = rule_of_trans(prog, trans) {
        let fires = trans.len() as int;
        let delta = prog[fires];
        assert forall|regs: Seq<int>| natural(regs) && #[trigger] rule.admits(regs) implies run_of(
            prog,
            regs,
            1,
        ) == Some(moved(regs, rule.delta, 1)) && natural(moved(regs, rule.delta, 1)) by {
            assert forall|e: int| 0 <= e < fires implies !guard_holds(#[trigger] prog[e], regs) by {
                let reg = trans[e] as int;
                assert(rule.min[reg] <= regs[reg] && below_limit(regs[reg], rule.max[reg]));
                lemma_tightest_limit(prog, trans, reg, fires, regs[reg]);
                assert(trans[e] == reg);
                assert(regs[reg] <= -prog[e][reg] - 1);
                assert(regs[reg] + prog[e][reg] < 0);
            }
            assert forall|i: int| 0 <= i < regs.len() implies regs[i] + delta[i] >= 0 by {
                assert(rule.min[i] <= regs[i] && below_limit(regs[i], rule.max[i]));
            }
            lemma_fired_is(prog, regs, fires);
            let next = moved(regs, rule.delta, 1);
            assert(next =~= shifted(regs, delta));
            assert(run_of(prog, regs, 0) == Some(regs));
            assert(run_of(prog, regs, 1) == Some(step_of(prog, regs)));
            assert forall|i: int| 0 <= i < next.len() implies next[i] >= 0 by {
                assert(regs[i] + delta[i] >= 0);
            }
        }
    }
}

/// Two rules that are true of the machine give, taken in turn, a rule
/// that is true of it.
pub proof fn lemma_combine_sound(prog: Seq<Seq<int>>, a: RuleView, b: RuleView)
    requires
        a.wf(),
        b.wf(),
        a.size() == b.size(),
        a.proper(),
        b.proper(),
        rule_sound(prog, a),
        rule_sound(prog, b),
    ensures
        a.combine(b) matches Some(c) ==> rule_sound(prog, c) && c.proper() && c.wf() && c.size()
            == a.size(),
{
    if let Some(c) = a.combine(b) {
        a.law_combine_is_sequence(b);
        assert forall|regs: Seq<int>| natural(regs) && #[trigger] c.admits(regs) implies run_of(
            prog,
            regs,
            c.num_steps as nat,
        ) == Some(moved(regs, c.delta, 1)) && natural(moved(regs, c.delta, 1)) by {
            assert(a.merged(b).admits(regs));
            let mid = moved(regs, a.delta, 1);
            assert(a.admits(regs) && b.admits(mid));
            assert(run_of(prog, regs, a.num_steps as nat) == Some(mid));
            assert(natural(mid));
            assert(run_of(prog, mid, b.num_steps as nat) == Some(moved(mid, b.delta, 1)));
            lemma_run_add(prog, regs, a.num_steps as nat, b.num_steps as nat);
            assert(moved(mid, b.delta, 1) =~= moved(regs, c.delta, 1));
            assert(c.num_steps as nat == a.num_steps as nat + b.num_steps as nat);
        }
        assert forall|i: int| 0 <= i < c.max.len() implies c.max[i]
            != Extended::NegativeInfinity by {
            assert(a.max[i] != Extended::NegativeInfinity);
            assert(b.max[i] != Extended::NegativeInfinity);
        }
    }
}

/// The rule of a sequence of transitions is true of the machine, and
/// stands for as many steps as there are transitions.
pub proof fn law_rule_follows_machine(
    prog: Seq<Seq<int>>,
    transv: Seq<Seq<usize>>,
    upto: int,
    size: nat,
)
    requires
        program_sized(prog, size),
        small_entries(prog),
        0 <= upto <= transv.len(),
        names_registers(transv, size),
    ensures
        rule_of_trans_seq(prog, transv, upto) matches Some(rule) ==> rule_sound(prog, rule)
            && rule.num_steps == upto && rule.proper() && rule.wf() && rule.size() == size,
    decreases upto,
{
    if upto <= 0 {
        let rule = RuleView::noop(size);
        assert forall|regs: Seq<int>| natural(regs) && #[trigger] rule.admits(regs) implies run_of(
            prog,
            regs,
            0,
        ) == Some(moved(regs, rule.delta, 1)) && natural(moved(regs, rule.delta, 1)) by {
            assert(moved(regs, rule.delta, 1) =~= regs);
        }
    } else {
        law_rule_follows_machine(prog, transv, upto - 1, size);
        if let Some(so_far) = rule_of_trans_seq(prog, transv, upto - 1) {
            let trans = transv[upto - 1];
            assert forall|k: int| 0 <= k < trans.len() implies (#[trigger] trans[k]) < size by {
                assert(transv[upto - 1][k] < size);
            }
            lemma_trans_rule_sound(prog, trans, size);
            lemma_rule_of_trans_within(prog, trans);
            if let Some(next) = rule_of_trans(prog, trans) {
                lemma_combine_sound(prog, so_far, next);
            }
        }
    }
}

impl RuleView {
    /// A rule that is true of the machine, applied `n` times in its box,
    /// stands for `n` times its number of steps.
    pub proof fn lemma_iterates(self, prog: Seq<Seq<int>>, regs: Seq<int>, n: nat)
        requires
            self.wf(),
            rule_sound(prog, self),
            natural(regs),
            forall|k: int| 0 <= k < n ==> self.admits(#[trigger] moved(regs, self.delta, k)),
        ensures
            run_of(prog, regs, (n * self.num_steps) as nat) == Some(moved(regs, self.delta, n as int)),
            natural(moved(regs, self.delta, n as int)),
            n * self.num_steps >= 0,
        decreases n,
    {
        if n == 0 {
            assert(moved(regs, self.delta, 0) =~= regs);
            assert(0 * self.num_steps == 0);
        } else {
            self.lemma_iterates(prog, regs, (n - 1) as nat);
            let before = moved(regs, self.delta, n - 1);
            assert(self.admits(before));
            let after = moved(before, self.delta, 1);
            assert forall|i: int| 0 <= i < regs.len() implies regs[i] + self.delta[i] * (n - 1)
                + self.delta[i] * 1 == regs[i] + self.delta[i] * n by {
                assert(self.delta[i] * (n - 1) + self.delta[i] * 1 == self.delta[i] * n)
                    by (nonlinear_arith);
            }
            assert(after =~= moved(regs, self.delta, n as int));
            assert((n - 1) * self.num_steps + self.num_steps == n * self.num_steps)
                by (nonlinear_arith);
            assert((n - 1) * self.num_steps >= 0);
            lemma_run_add(
                prog,
                regs,
                ((n - 1) * self.num_steps) as nat,
                self.num_steps as nat,
            );
        }
    }

    /// Applying a rule that is true of the machine is a run of the
    /// machine. The result of a finite number of applications is the state
    /// after the steps that they stand for. A rule that applies for ever,
    /// and stands for at least one step, shows that the machine never halts.
    pub proof fn law_apply_follows_machine(self, prog: Seq<Seq<int>>, regs: Seq<int>)
        requires
            self.wf(),
            rule_sound(prog, self),
            natural(regs),
            self.admits(regs),
        ensures
            match self.apply(regs) {
                ApplyOutcome::Applied { num_apps, result, base_steps } => base_steps >= 0 && run_of(
                    prog,
                    regs,
                    base_steps as nat,
                ) == Some(result) && natural(result),
                ApplyOutcome::Infinite => self.num_steps >= 1 ==> never_halts(prog, regs),
                ApplyOutcome::NotApplicable => false,
            },
    {
        self.law_apply_is_tight(regs);
        match self.apply(regs) {
            ApplyOutcome::Applied { num_apps, result, base_steps } => {
                self.lemma_iterates(prog, regs, num_apps as nat);
                assert(self.num_steps * num_apps == num_apps * self.num_steps)
                    by (nonlinear_arith);
            },
            ApplyOutcome::Infinite => {
                if self.num_steps >= 1 {
                    assert forall|n: nat| run_of(prog, regs, n) is Some by {
                        self.lemma_iterates(prog, regs, n);
                        assert(n * self.num_steps >= n) by (nonlinear_arith)
                            requires
                                self.num_steps >= 1,
                                n >= 0,
                        ;
                        lemma_run_prefix(prog, regs, (n * self.num_steps) as nat, n);
                    }
                }
            },
            ApplyOutcome::NotApplicable => {},
        }
    }
}

/// The rule of the transition that the machine makes on a state of
/// natural numbers holds that state in its box.
pub proof fn lemma_trans_rule_admits(prog: Seq<Seq<int>>, regs: Seq<int>, size: nat)
    requires
        program_sized(prog, size),
        regs.len() == size,
        size <= usize::MAX,
        natural(regs),
        !halts_at(prog, regs),
    ensures
        rule_of_trans(prog, trans_of(prog, regs)) is Some,
        rule_of_trans(prog, trans_of(prog, regs)).unwrap().admits(regs),
        forall|k: int|
            0 <= k < trans_of(prog, regs).len() ==> (#[trigger] trans_of(prog, regs)[k]) < size,
{
    let trans = trans_of(prog, regs);
    assert forall|k: int| 0 <= k < trans.len() implies (#[trigger] trans[k]) < size by {
        lemma_trans_names_registers(prog, regs);
        assert(trans[k] == blocked_at(prog, regs, k));
    }
    lemma_trans_names_registers(prog, regs);
    lemma_first_applicable(prog, regs, 0);
    let rule = rule_of_trans(prog, trans).unwrap();
    let delta = prog[fired(prog, regs)];
    assert forall|i: int| 0 <= i < rule.size() implies rule.min[i] <= #[trigger] regs[i]
        && below_limit(regs[i], rule.max[i]) by {
        assert(regs[i] + delta[i] >= 0);
        lemma_tightest_limit(prog, trans, i, trans.len() as int, regs[i]);
        assert forall|k: int| 0 <= k < trans.len() && #[trigger] trans[k] == i implies regs[i]
            <= -prog[k][i] - 1 by {
            assert(trans[k] == blocked_at(prog, regs, k));
            assert(regs[blocked_at(prog, regs, k)] + prog[k][blocked_at(prog, regs, k)] < 0);
        }
    }
}

/// Whether the machine makes at least `k + 1` steps from `regs`, and the
/// `k`-th transition of `transv` is the one that it makes after `k` steps.
pub open spec fn is_step_of_run(
    prog: Seq<Seq<int>>,
    transv: Seq<Seq<usize>>,
    regs: Seq<int>,
    k: int,
) -> bool {
    &&& run_of(prog, regs, k as nat) is Some
    &&& !halts_at(prog, run_of(prog, regs, k as nat).unwrap())
    &&& transv[k] == trans_of(prog, run_of(prog, regs, k as nat).unwrap())
}

/// The transitions that the machine makes from a state of natural numbers
/// have a rule, and the rule holds the state in its box.
pub proof fn law_run_has_rule(
    prog: Seq<Seq<int>>,
    transv: Seq<Seq<usize>>,
    regs: Seq<int>,
    upto: int,
    size: nat,
)
    requires
        program_sized(prog, size),
        small_entries(prog),
        regs.len() == size,
        size <= usize::MAX,
        natural(regs),
        0 <= upto <= transv.len(),
        forall|k: int| 0 <= k < upto ==> #[trigger] is_step_of_run(prog, transv, regs, k),
    ensures
        rule_of_trans_seq(prog, transv, upto) is Some,
        rule_of_trans_seq(prog, transv, upto).unwrap().admits(regs),
        rule_of_trans_seq(prog, transv, upto).unwrap().wf(),
        rule_of_trans_seq(prog, transv, upto).unwrap().proper(),
        rule_of_trans_seq(prog, transv, upto).unwrap().size() == size,
        rule_of_trans_seq(prog, transv, upto).unwrap().num_steps == upto,
        rule_sound(prog, rule_of_trans_seq(prog, transv, upto).unwrap()),
        names_registers(transv.take(upto), size),
    decreases upto,
{
    if upto <= 0 {
        let rule = RuleView::noop(size);
        assert(rule.admits(regs)) by {
            assert forall|i: int| 0 <= i < rule.size() implies rule.min[i] <= #[trigger] regs[i]
                && below_limit(regs[i], rule.max[i]) by {}
        }
        assert forall|s: Seq<int>| natural(s) && #[trigger] rule.admits(s) implies run_of(
            prog,
            s,
            0,
        ) == Some(moved(s, rule.delta, 1)) && natural(moved(s, rule.delta, 1)) by {
            assert(moved(s, rule.delta, 1) =~= s);
        }
    } else {
        law_run_has_rule(prog, transv, regs, upto - 1, size);
        let so_far = rule_of_trans_seq(prog, transv, upto - 1).unwrap();
        let at = run_of(prog, regs, (upto - 1) as nat).unwrap();
        assert(is_step_of_run(prog, transv, regs, upto - 1));
        assert(transv[upto - 1] == trans_of(prog, at));
        assert(run_of(prog, regs, so_far.num_steps as nat) == Some(moved(regs, so_far.delta, 1)));
        assert(at == moved(regs, so_far.delta, 1));
        lemma_trans_rule_admits(prog, at, size);
        let next = rule_of_trans(prog, transv[upto - 1]).unwrap();
        lemma_trans_rule_sound(prog, transv[upto - 1], size);
        lemma_rule_of_trans_within(prog, transv[upto - 1]);
        so_far.law_combine_is_sequence(next);
        assert(so_far.merged(next).admits(regs));
        lemma_combine_sound(prog, so_far, next);
        let before = transv.take(upto - 1);
        let now = transv.take(upto);
        assert forall|t: int, k: int| 0 <= t < now.len() && 0 <= k < now[t].len() implies (
        #[trigger] now[t][k]) < size by {
            if t < upto - 1 {
                assert(now[t] == before[t]);
                assert(before[t][k] < size);
            } else {
                assert(now[t] == transv[upto - 1]);
            }
        }
    }
}

/// The text of an upper limit: the number, or the sign of infinity.
pub open spec fn limit_text(limit: Extended) -> Seq<char> {
    match limit {
        Extended::Finite(n) => signed_text(n),
        _ => "∞"@,
    }
}

/// The limits of the first `upto` registers, each as its lower and its
/// upper limit with a dash between them and a comma behind them.
pub open spec fn limits_text(rule: RuleView, upto: int) -> Seq<char>
    decreases upto,
{
    if upto <= 0 {
        Seq::empty()
    } else {
        limits_text(rule, upto - 1) + signed_text(rule.min[upto - 1]) + "-"@ + limit_text(
            rule.max[upto - 1],
        ) + ", "@
    }
}

/// The numbers of a vector, with commas between them, in square brackets.
pub open spec fn vector_text(xs: Seq<int>) -> Seq<char> {
    "["@ + joined(Seq::new(xs.len(), |i: int| signed_text(xs[i])), ", "@, xs.len() as int) + "]"@
}

/// The text of a rule: its limits, and its change.
pub open spec fn rule_text(rule: RuleView) -> Seq<char> {
    "DiffRule: ["@ + limits_text(rule, rule.min.len() as int) + "]  "@ + vector_text(rule.delta)
}

impl DiffRule {
    /// The rule as a text, as in
    /// `DiffRule: [0-∞, 1-5, ]  [1, -1]`.
    pub fn to_string(&self) -> (r: String)
        requires
            self.min@.len() <= self.max@.len(),
        ensures
            r@ == rule_text(self@),
    {
        let mut out = String::from_str("DiffRule: [");
        let mut limits = String::new();
        let mut i: usize = 0;
        while i < self.min.data.len()
            invariant
                0 <= i <= self.min.data@.len(),
                self.min@.len() <= self.max@.len(),
                limits@ == limits_text(self@, i as int),
            decreases self.min.data@.len() - i,
        {
            assert(self@.min[i as int] == self.min.data@[i as int]);
            assert(self@.max[i as int] == self.max.data@[i as int]@);
            let mut one = signed_decimal(self.min.data[i]);
            one.append("-");
            match self.max.data[i] {
                Bound::Finite(n) => {
                    one.append(signed_decimal(n).as_str());
                },
                _ => {
                    one.append("∞");
                },
            }
            one.append(", ");
            let ghost before = limits@;
            limits.append(one.as_str());
            proof {
                let low = signed_text(self@.min[i as int]);
                let high = limit_text(self@.max[i as int]);
                assert(before + (low + "-"@ + high + ", "@) =~= before + low + "-"@ + high + ", "@);
            }
            i += 1;
        }
        out.append(limits.as_str());
        out.append("]  ");
        let mut parts: Vec<String> = Vec::new();
        let mut j: usize = 0;
        while j < self.delta.data.len()
            invariant
                0 <= j <= self.delta.data@.len(),
                parts@.len() == j,
                forall|e: int| 0 <= e < j ==> (#[trigger] parts@[e])@ == signed_text(self@.delta[e]),
            decreases self.delta.data@.len() - j,
        {
            assert(self@.delta[j as int] == self.delta.data@[j as int]);
            parts.push(signed_decimal(self.delta.data[j]));
            j += 1;
        }
        assert(texts(parts@) =~= Seq::new(
            self@.delta.len(),
            |i: int| signed_text(self@.delta[i]),
        ));
        let mut change = String::from_str("[");
        change.append(join_strings(&parts, ", ").as_str());
        change.append("]");
        out.append(change.as_str());
        out
    }
}

} // verus!

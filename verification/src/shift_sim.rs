//! Accelerated simulation: the machine run with rules that stand for many
//! steps at once.
//!
//! The rules are found in a literal run: a block of transitions that
//! stands several times in a row gives a rule. The simulator then tries the
//! rules on each state; where one applies it makes all its applications in
//! one step, and where none does the machine makes one literal step.
use vstd::prelude::*;
use crate::bignum::{big_add, big_add_i64, big_from_i64, integer_value};
use crate::diff_rule::{
    is_step_of_run, law_run_has_rule, names_registers, program_sized, rule_of_trans_seq,
    rule_sound, small_entries, DiffRule, RuleView,
};
use crate::program::{
    halts_at, lemma_never_halts_from, lemma_run_add, lemma_run_natural, lemma_step_natural,
    natural, never_halts, run_of, step_of, BigInt, Program, State,
};
use crate::rule::{ApplyOutcome, ApplyResult, Rule};
use crate::tandem_repeat::{
    are_blocks_of, as_rep_blocks, block_spans, find_repeat_info, is_tiling,
    lemma_block_spans_repeats, repeat_views, scan_repeats, Span, MAX_WINDOW,
};
use crate::transcript::{
    clone_block, lemma_transcript_entry, same_block, trans_views, transcript, transcript_of,
    Trans,
};

verus! {

/// Where a simulation stands. `Halted` and `Infinite` are final.
#[derive(Debug, PartialEq, Eq, Clone, Copy, Structural)]
pub enum SimStatus {
    Running,
    Halted,
    Infinite,
}

/// An accelerated simulator: a program, the rules found for it, and the
/// counters of a run.
#[derive(Debug)]
pub struct ShiftSim {
    pub prog: Program,
    pub shift_rules: Vec<DiffRule>,
    pub status: SimStatus,
    /// The number of steps of the machine that the run stands for.
    pub base_steps: BigInt,
    /// The number of steps of the simulator.
    pub sim_steps: usize,
    /// The number of steps of the simulator in which a rule applied.
    pub num_shift_steps: usize,
}

/// The counters of a simulator, as mathematical values.
pub struct SimView {
    pub status: SimStatus,
    pub base_steps: int,
    pub sim_steps: int,
    pub num_shift_steps: int,
}

/// The rules of a list, each as its mathematical content.
pub open spec fn rule_views(rules: Seq<DiffRule>) -> Seq<RuleView> {
    Seq::new(rules.len(), |i: int| rules[i]@)
}

/// The index of the first rule, from `from` on, of which the box holds
/// `regs`, or the number of rules when there is none.
pub open spec fn first_rule(rules: Seq<RuleView>, regs: Seq<int>, from: int) -> int
    decreases rules.len() - from,
{
    if from < 0 || from >= rules.len() {
        rules.len() as int
    } else if rules[from].admits(regs) {
        from
    } else {
        first_rule(rules, regs, from + 1)
    }
}

/// One step of the simulator. A simulator that does not run stays as it
/// is. Else the first rule that applies decides: if it applies for ever the
/// run is infinite, else all its applications are made. If no rule applies
/// the machine makes one step, or the run has halted.
pub open spec fn sim_step(prog: Seq<Seq<int>>, rules: Seq<RuleView>, sim: SimView, regs: Seq<int>) -> (
    SimView,
    Seq<int>,
) {
    if sim.status != SimStatus::Running {
        (sim, regs)
    } else {
        let which = first_rule(rules, regs, 0);
        if which < rules.len() {
            match rules[which].apply(regs) {
                ApplyOutcome::Applied { num_apps, result, base_steps } => (
                    SimView {
                        status: SimStatus::Running,
                        base_steps: sim.base_steps + base_steps,
                        sim_steps: sim.sim_steps + 1,
                        num_shift_steps: sim.num_shift_steps + 1,
                    },
                    result,
                ),
                _ => (
                    SimView {
                        status: SimStatus::Infinite,
                        base_steps: sim.base_steps,
                        sim_steps: sim.sim_steps + 1,
                        num_shift_steps: sim.num_shift_steps + 1,
                    },
                    regs,
                ),
            }
        } else if halts_at(prog, regs) {
            (
                SimView {
                    status: SimStatus::Halted,
                    base_steps: sim.base_steps,
                    sim_steps: sim.sim_steps + 1,
                    num_shift_steps: sim.num_shift_steps,
                },
                regs,
            )
        } else {
            (
                SimView {
                    status: SimStatus::Running,
                    base_steps: sim.base_steps + 1,
                    sim_steps: sim.sim_steps + 1,
                    num_shift_steps: sim.num_shift_steps,
                },
                step_of(prog, regs),
            )
        }
    }
}

/// The simulator after it has run until it is final or has made `budget`
/// steps in all.
pub open spec fn sim_run(
    prog: Seq<Seq<int>>,
    rules: Seq<RuleView>,
    sim: SimView,
    regs: Seq<int>,
    budget: int,
) -> (SimView, Seq<int>)
    decreases budget - sim.sim_steps,
{
    if sim.status == SimStatus::Running && sim.sim_steps < budget {
        let next = sim_step(prog, rules, sim, regs);
        sim_run(prog, rules, next.0, next.1, budget)
    } else {
        (sim, regs)
    }
}

/// The first rule that applies is in range, applies if it is a rule, and
/// no rule before it applies.
pub proof fn lemma_first_rule(rules: Seq<RuleView>, regs: Seq<int>, from: int)
    requires
        0 <= from <= rules.len(),
    ensures
        from <= first_rule(rules, regs, from) <= rules.len(),
        first_rule(rules, regs, from) < rules.len() ==> rules[first_rule(rules, regs, from)].admits(
            regs,
        ),
        forall|i: int| from <= i < first_rule(rules, regs, from) ==> !(#[trigger] rules[i]).admits(regs),
    decreases rules.len() - from,
{
    if from < rules.len() && !rules[from].admits(regs) {
        lemma_first_rule(rules, regs, from + 1);
    }
}

/// What an accelerated simulation came to.
#[derive(Debug, PartialEq)]
pub struct ShiftSimResult {
    pub sim_status: SimStatus,
    /// The number of steps of the machine that the run stands for.
    pub base_steps: BigInt,
    /// The number of steps of the simulator, of which the application of
    /// a rule is one.
    pub sim_steps: usize,
    /// The number of rules that were found.
    pub num_shift_rules: usize,
    /// The number of steps in which a rule applied.
    pub num_shift_steps: usize,
}

impl View for ShiftSim {
    type V = SimView;

    open spec fn view(&self) -> SimView {
        SimView {
            status: self.status,
            base_steps: integer_value(self.base_steps),
            sim_steps: self.sim_steps as int,
            num_shift_steps: self.num_shift_steps as int,
        }
    }
}

impl ShiftSim {
    /// The program is well formed, every rule is, all for one number of
    /// registers, and no more steps with a rule are counted than steps.
    pub open spec fn wf(&self) -> bool {
        &&& self.prog.wf()
        &&& forall|i: int|
            0 <= i < self.shift_rules@.len() ==> (#[trigger] self.shift_rules@[i]).wf()
                && self.shift_rules@[i]@.size() == self.prog.num_registers_spec()
        &&& self.num_shift_steps <= self.sim_steps
    }

    /// A simulator at the start of a run.
    pub fn new(prog: Program, shift_rules: Vec<DiffRule>) -> (r: ShiftSim)
        ensures
            r.prog == prog,
            r.shift_rules == shift_rules,
            r@ == (SimView {
                status: SimStatus::Running,
                base_steps: 0,
                sim_steps: 0,
                num_shift_steps: 0,
            }),
    {
        ShiftSim {
            prog,
            shift_rules,
            status: SimStatus::Running,
            base_steps: big_from_i64(0),
            sim_steps: 0,
            num_shift_steps: 0,
        }
    }

    /// Makes one step of the simulator and returns the state after it.
    pub fn step(&mut self, state: State) -> (r: State)
        requires
            old(self).wf(),
            state@.len() == old(self).prog.num_registers_spec(),
            old(self).sim_steps < usize::MAX,
        ensures
            final(self).wf(),
            final(self).prog == old(self).prog,
            final(self).shift_rules == old(self).shift_rules,
            r@.len() == state@.len(),
            final(self)@ == sim_step(
                old(self).prog@,
                rule_views(old(self).shift_rules@),
                old(self)@,
                state@,
            ).0,
            r@ == sim_step(
                old(self).prog@,
                rule_views(old(self).shift_rules@),
                old(self)@,
                state@,
            ).1,
    {
        if self.status != SimStatus::Running {
            return state;
        }
        let ghost rules = rule_views(self.shift_rules@);
        self.sim_steps += 1;
        let n = self.shift_rules.len();
        let mut i: usize = 0;
        while i < n
            invariant
                0 <= i <= n,
                n == self.shift_rules@.len(),
                rules == rule_views(self.shift_rules@),
                self.wf(),
                old(self).wf(),
                old(self).sim_steps < usize::MAX,
                old(self).status == SimStatus::Running,
                self.prog == old(self).prog,
                self.shift_rules == old(self).shift_rules,
                self.status == SimStatus::Running,
                self.base_steps == old(self).base_steps,
                self.sim_steps == old(self).sim_steps + 1,
                self.num_shift_steps == old(self).num_shift_steps,
                state@.len() == self.prog.num_registers_spec(),
                first_rule(rules, state@, 0) == first_rule(rules, state@, i as int),
            decreases n - i,
        {
            assert(rules[i as int] == self.shift_rules@[i as int]@);
            assert(self.shift_rules@[i as int].wf());
            let ghost outcome = rules[i as int].apply(state@);
            match self.shift_rules[i].apply(&state) {
                ApplyResult::Infinite => {
                    assert(outcome == ApplyOutcome::Infinite);
                    assert(rules[i as int].admits(state@));
                    assert(first_rule(rules, state@, i as int) == i);
                    self.num_shift_steps += 1;
                    self.status = SimStatus::Infinite;
                    return state;
                },
                ApplyResult::Applied { num_apps: _, result, base_steps } => {
                    assert(outcome is Applied);
                    assert(rules[i as int].admits(state@));
                    assert(first_rule(rules, state@, i as int) == i);
                    self.num_shift_steps += 1;
                    self.base_steps = big_add(&self.base_steps, &base_steps);
                    return result;
                },
                ApplyResult::NotApplicable => {
                    assert(!rules[i as int].admits(state@));
                },
            }
            i += 1;
        }
        let mut next = state;
        if self.prog.step(&mut next) {
            self.base_steps = big_add_i64(&self.base_steps, 1);
        } else {
            self.status = SimStatus::Halted;
        }
        next
    }

    /// Steps until the simulator is final or has made `num_steps` steps in
    /// all, and returns the state it has come to.
    pub fn run(&mut self, state: State, num_steps: usize) -> (r: State)
        requires
            old(self).wf(),
            state@.len() == old(self).prog.num_registers_spec(),
        ensures
            final(self).wf(),
            final(self).prog == old(self).prog,
            final(self).shift_rules == old(self).shift_rules,
            r@.len() == state@.len(),
            final(self)@ == sim_run(
                old(self).prog@,
                rule_views(old(self).shift_rules@),
                old(self)@,
                state@,
                num_steps as int,
            ).0,
            r@ == sim_run(
                old(self).prog@,
                rule_views(old(self).shift_rules@),
                old(self)@,
                state@,
                num_steps as int,
            ).1,
    {
        let mut cur = state;
        while self.status == SimStatus::Running && self.sim_steps < num_steps
            invariant
                self.wf(),
                self.prog == old(self).prog,
                self.shift_rules == old(self).shift_rules,
                cur@.len() == state@.len(),
                state@.len() == old(self).prog.num_registers_spec(),
                sim_run(
                    old(self).prog@,
                    rule_views(old(self).shift_rules@),
                    old(self)@,
                    state@,
                    num_steps as int,
                ) == sim_run(
                    old(self).prog@,
                    rule_views(old(self).shift_rules@),
                    self@,
                    cur@,
                    num_steps as int,
                ),
            decreases num_steps - self.sim_steps,
        {
            cur = self.step(cur);
        }
        cur
    }
}

/// Whether every rule is for `size` registers, is true of the machine, and
/// stands for at least one step.
pub open spec fn rules_sound(prog: Seq<Seq<int>>, rules: Seq<RuleView>, size: nat) -> bool {
    forall|i: int|
        0 <= i < rules.len() ==> {
            &&& (#[trigger] rules[i]).wf()
            &&& rules[i].size() == size
            &&& rule_sound(prog, rules[i])
            &&& rules[i].num_steps >= 1
        }
}

/// A step of the simulator is a run of the machine. With rules that are
/// true of the machine, the state after the step is the state of the
/// machine after the steps that were counted; a simulator that has halted
/// stands on a state on which the machine halts; and a simulator that found
/// the run infinite stands on a state from which the machine never halts.
pub proof fn law_sim_step_follows_machine(
    prog: Seq<Seq<int>>,
    rules: Seq<RuleView>,
    sim: SimView,
    regs: Seq<int>,
    size: nat,
)
    requires
        rules_sound(prog, rules, size),
        natural(regs),
        regs.len() == size,
        sim.status == SimStatus::Running,
    ensures
        ({
            let next = sim_step(prog, rules, sim, regs);
            &&& next.0.base_steps >= sim.base_steps
            &&& next.0.sim_steps == sim.sim_steps + 1
            &&& natural(next.1)
            &&& next.1.len() == size
            &&& run_of(prog, regs, (next.0.base_steps - sim.base_steps) as nat) == Some(next.1)
            &&& next.0.status == SimStatus::Halted ==> halts_at(prog, next.1)
            &&& next.0.status == SimStatus::Infinite ==> never_halts(prog, regs)
        }),
{
    lemma_first_rule(rules, regs, 0);
    let which = first_rule(rules, regs, 0);
    if which < rules.len() {
        rules[which].law_apply_follows_machine(prog, regs);
    } else {
        lemma_step_natural(prog, regs);
        assert(run_of(prog, regs, 0) == Some(regs));
        if !halts_at(prog, regs) {
            assert(run_of(prog, regs, 1) == Some(step_of(prog, regs)));
        }
    }
}

/// A run of the simulator is a run of the machine: see
/// [`law_sim_step_follows_machine`].
pub proof fn law_sim_run_follows_machine(
    prog: Seq<Seq<int>>,
    rules: Seq<RuleView>,
    sim: SimView,
    regs: Seq<int>,
    budget: int,
    size: nat,
)
    requires
        rules_sound(prog, rules, size),
        natural(regs),
        regs.len() == size,
        sim.status == SimStatus::Running,
    ensures
        ({
            let last = sim_run(prog, rules, sim, regs, budget);
            &&& last.0.base_steps >= sim.base_steps
            &&& natural(last.1)
            &&& last.1.len() == size
            &&& run_of(prog, regs, (last.0.base_steps - sim.base_steps) as nat) == Some(last.1)
            &&& last.0.status == SimStatus::Halted ==> halts_at(prog, last.1)
            &&& last.0.status == SimStatus::Infinite ==> never_halts(prog, regs)
        }),
    decreases budget - sim.sim_steps,
{
    if sim.sim_steps < budget {
        law_sim_step_follows_machine(prog, rules, sim, regs, size);
        let next = sim_step(prog, rules, sim, regs);
        let first = (next.0.base_steps - sim.base_steps) as nat;
        if next.0.status == SimStatus::Running {
            law_sim_run_follows_machine(prog, rules, next.0, next.1, budget, size);
            let last = sim_run(prog, rules, next.0, next.1, budget);
            let rest = (last.0.base_steps - next.0.base_steps) as nat;
            lemma_run_add(prog, regs, first, rest);
            assert(first + rest == (last.0.base_steps - sim.base_steps) as nat);
            if last.0.status == SimStatus::Infinite {
                lemma_never_halts_from(prog, regs, first);
            }
        } else {
            assert(sim_run(prog, rules, next.0, next.1, budget) == next);
        }
    } else {
        assert(run_of(prog, regs, 0) == Some(regs));
    }
}

/// The transitions of a stretch of a transcript.
pub open spec fn block_content(views: Seq<Seq<usize>>, span: Span) -> Seq<Seq<usize>> {
    views.subrange(span.start, span.start + span.period)
}

/// The blocks of the first `upto` stretches that stand more than once,
/// each block once, in the order in which they first occur.
pub open spec fn repeated_blocks(views: Seq<Seq<usize>>, spans: Seq<Span>, upto: int) -> Seq<
    Seq<Seq<usize>>,
>
    decreases upto,
{
    if upto <= 0 {
        Seq::empty()
    } else {
        let before = repeated_blocks(views, spans, upto - 1);
        let block = block_content(views, spans[upto - 1]);
        if spans[upto - 1].count != 1 && !before.contains(block) {
            before.push(block)
        } else {
            before
        }
    }
}

/// The rules of a list of blocks of transitions, each of which has one.
pub open spec fn rules_of_blocks(prog: Seq<Seq<int>>, blocks: Seq<Seq<Seq<usize>>>) -> Seq<
    RuleView,
> {
    Seq::new(
        blocks.len(),
        |i: int| rule_of_trans_seq(prog, blocks[i], blocks[i].len() as int).unwrap(),
    )
}

/// The rules that a transcript gives when `repeats` are its repeats: those
/// of its blocks that stand more than once in a row.
pub open spec fn shift_rules_of(prog: Seq<Seq<int>>, views: Seq<Seq<usize>>, repeats: Seq<Span>) -> Seq<
    RuleView,
> {
    let spans = block_spans(repeats, views.len() as int, 0, 0);
    rules_of_blocks(prog, repeated_blocks(views, spans, spans.len() as int))
}

/// Whether a block of transitions has a rule that is true of the machine
/// and stands for as many steps as the block has transitions.
pub open spec fn block_has_rule(prog: Seq<Seq<int>>, block: Seq<Seq<usize>>, size: nat) -> bool {
    &&& names_registers(block, size)
    &&& 1 <= block.len() <= MAX_WINDOW
    &&& rule_of_trans_seq(prog, block, block.len() as int) is Some
    &&& rule_of_trans_seq(prog, block, block.len() as int).unwrap().wf()
    &&& rule_of_trans_seq(prog, block, block.len() as int).unwrap().size() == size
    &&& rule_of_trans_seq(prog, block, block.len() as int).unwrap().num_steps == block.len()
    &&& rule_sound(prog, rule_of_trans_seq(prog, block, block.len() as int).unwrap())
}

/// A stretch of the transcript of a run from natural numbers has a rule
/// that is true of the machine.
pub proof fn lemma_stretch_has_rule(
    prog: Seq<Seq<int>>,
    regs: Seq<int>,
    n: nat,
    span: Span,
    size: nat,
)
    requires
        program_sized(prog, size),
        small_entries(prog),
        regs.len() == size,
        size <= usize::MAX,
        natural(regs),
        0 <= span.start,
        1 <= span.period <= MAX_WINDOW,
        span.start + span.period <= transcript_of(prog, regs, n).len(),
    ensures
        block_has_rule(prog, block_content(transcript_of(prog, regs, n), span), size),
{
    let all = transcript_of(prog, regs, n);
    let block = block_content(all, span);
    lemma_transcript_entry(prog, regs, n, span.start);
    let from = run_of(prog, regs, span.start as nat).unwrap();
    lemma_run_natural(prog, regs, span.start as nat);
    assert forall|k: int| 0 <= k < span.period implies #[trigger] is_step_of_run(
        prog,
        block,
        from,
        k,
    ) by {
        lemma_transcript_entry(prog, regs, n, span.start + k);
        lemma_run_add(prog, regs, span.start as nat, k as nat);
        assert(span.start as nat + k as nat == (span.start + k) as nat);
        assert(block[k] == all[span.start + k]);
    }
    law_run_has_rule(prog, block, from, span.period, size);
    assert(block.take(span.period) =~= block);
}

/// The blocks of a list, each as its sequence of transitions.
pub open spec fn blocks_views(blocks: Seq<Vec<Trans>>) -> Seq<Seq<Seq<usize>>> {
    Seq::new(blocks.len(), |i: int| trans_views(blocks[i]@))
}

/// Whether one of `blocks` holds the transitions of `block`.
fn holds_block(blocks: &Vec<Vec<Trans>>, block: &Vec<Trans>) -> (r: bool)
    ensures
        r == blocks_views(blocks@).contains(trans_views(block@)),
{
    let mut i: usize = 0;
    while i < blocks.len()
        invariant
            0 <= i <= blocks@.len(),
            forall|j: int| 0 <= j < i ==> (#[trigger] blocks_views(blocks@)[j]) != trans_views(block@),
        decreases blocks@.len() - i,
    {
        if same_block(&blocks[i], block) {
            assert(blocks_views(blocks@)[i as int] == trans_views(block@));
            return true;
        }
        assert(blocks_views(blocks@)[i as int] != trans_views(block@));
        i += 1;
    }
    false
}

/// The rules of the blocks that stand more than once in a row in the
/// transcript of a run from the natural numbers `regs`.
fn rules_of_transcript(
    prog: &Program,
    trans_vec: &Vec<Trans>,
    Ghost(regs): Ghost<Seq<int>>,
    Ghost(steps): Ghost<nat>,
) -> (r: Vec<DiffRule>)
    requires
        prog.wf(),
        regs.len() == prog.num_registers_spec(),
        natural(regs),
        trans_views(trans_vec@) == transcript_of(prog@, regs, steps),
    ensures
        rule_views(r@) == shift_rules_of(
            prog@,
            trans_views(trans_vec@),
            scan_repeats(trans_vec@, 0),
        ),
        rules_sound(prog@, rule_views(r@), prog.num_registers_spec()),
{
    let size = prog.num_registers();
    let ghost views = trans_views(trans_vec@);
    let data = trans_vec.as_slice();
    let repeats = find_repeat_info(data);
    let len = data.len();
    let ghost spans = block_spans(repeat_views(repeats@), data@.len() as int, 0, 0);
    proof {
        prog.lemma_small_entries();
        let found = repeat_views(repeats@);
        assert forall|k: int| 0 <= k < found.len() implies {
            &&& (#[trigger] found[k]).start + found[k].period <= len
            &&& found[k].end() <= usize::MAX
        } by {
            assert(found[k].end() <= len);
            assert(found[k].period <= found[k].period * found[k].count) by (nonlinear_arith)
                requires
                    found[k].period >= 1,
                    found[k].count >= 2,
            ;
        }
        lemma_block_spans_repeats(found, data@.len() as int, 0, 0);
    }
    let rep_blocks = as_rep_blocks(data, repeats);
    let mut kept: Vec<Vec<Trans>> = Vec::new();
    let mut k: usize = 0;
    while k < rep_blocks.len()
        invariant
            0 <= k <= rep_blocks@.len(),
            prog.wf(),
            size == prog.num_registers_spec(),
            regs.len() == size,
            natural(regs),
            small_entries(prog@),
            views == trans_views(trans_vec@),
            views == transcript_of(prog@, regs, steps),
            data@ == trans_vec@,
            spans == block_spans(repeat_views(repeats@), data@.len() as int, 0, 0),
            is_tiling(repeat_views(repeats@), data@.len() as int),
            are_blocks_of(rep_blocks@, data@, spans),
            forall|j: int|
                0 <= j < spans.len() && (#[trigger] spans[j]).count != 1 ==> exists|e: int|
                    0 <= e < repeat_views(repeats@).len() && #[trigger] repeat_views(repeats@)[e]
                        == spans[j],
            blocks_views(kept@) == repeated_blocks(views, spans, k as int),
            forall|i: int|
                0 <= i < kept@.len() ==> block_has_rule(
                    prog@,
                    #[trigger] blocks_views(kept@)[i],
                    size as nat,
                ),
        decreases rep_blocks@.len() - k,
    {
        let block = &rep_blocks[k];
        let ghost span = spans[k as int];
        let ghost content = block_content(views, span);
        proof {
            assert(crate::tandem_repeat::is_block_of(rep_blocks@[k as int], data@, span));
        }
        if block.rep != 1 {
            proof {
                let e = choose|e: int|
                    0 <= e < repeat_views(repeats@).len() && #[trigger] repeat_views(repeats@)[e]
                        == span;
                assert(span.period <= span.period * span.count) by (nonlinear_arith)
                    requires
                        span.period >= 1,
                        span.count >= 2,
                ;
                assert(span.start + span.period <= views.len());
                assert(trans_views(block.block@) =~= content) by {
                    assert forall|j: int| 0 <= j < span.period implies trans_views(
                        block.block@,
                    )[j] == content[j] by {
                        assert(cloned(data@[span.start + j], block.block@[j]));
                    }
                }
                lemma_stretch_has_rule(prog@, regs, steps, span, size as nat);
            }
            if !holds_block(&kept, &block.block) {
                let ghost before = blocks_views(kept@);
                kept.push(clone_block(&block.block));
                proof {
                    assert(blocks_views(kept@) =~= before.push(content));
                    assert forall|i: int| 0 <= i < kept@.len() implies block_has_rule(
                        prog@,
                        #[trigger] blocks_views(kept@)[i],
                        size as nat,
                    ) by {
                        if i < before.len() {
                            assert(blocks_views(kept@)[i] == before[i]);
                        }
                    }
                }
            }
        }
        k += 1;
    }
    let ghost blocks = blocks_views(kept@);
    let mut rules: Vec<DiffRule> = Vec::new();
    let mut i: usize = 0;
    while i < kept.len()
        invariant
            0 <= i <= kept@.len(),
            prog.wf(),
            size == prog.num_registers_spec(),
            blocks == blocks_views(kept@),
            forall|j: int|
                0 <= j < kept@.len() ==> block_has_rule(prog@, #[trigger] blocks[j], size as nat),
            rules@.len() == i,
            forall|j: int|
                0 <= j < i ==> (#[trigger] rules@[j])@ == rule_of_trans_seq(
                    prog@,
                    blocks[j],
                    blocks[j].len() as int,
                ).unwrap(),
        decreases kept@.len() - i,
    {
        let block = kept[i].as_slice();
        proof {
            assert(block_has_rule(prog@, blocks[i as int], size as nat));
            assert(trans_views(block@) == blocks[i as int]);
        }
        match DiffRule::from_trans_vec(prog, block) {
            Some(rule) => {
                rules.push(rule);
            },
            None => {
                assert(false);
            },
        }
        i += 1;
    }
    proof {
        assert(spans.len() == rep_blocks@.len());
        assert(rule_views(rules@) =~= rules_of_blocks(prog@, blocks));
        assert forall|j: int| 0 <= j < rule_views(rules@).len() implies {
            &&& (#[trigger] rule_views(rules@)[j]).wf()
            &&& rule_views(rules@)[j].size() == size
            &&& rule_sound(prog@, rule_views(rules@)[j])
            &&& rule_views(rules@)[j].num_steps >= 1
        } by {
            assert(block_has_rule(prog@, blocks[j], size as nat));
        }
    }
    rules
}

/// Runs the machine for at most `transcript_steps` steps and returns the
/// rules of the blocks of transitions that stand more than once in a row.
/// Every rule is true of the machine.
pub fn find_shift_rules(prog: &Program, state: State, transcript_steps: usize) -> (r: Vec<DiffRule>)
    requires
        prog.wf(),
        state@.len() == prog.num_registers_spec(),
        natural(state@),
    ensures
        exists|transv: Seq<Trans>|
            trans_views(transv) == transcript_of(prog@, state@, transcript_steps as nat)
                && rule_views(r@) == shift_rules_of(
                prog@,
                trans_views(transv),
                #[trigger] scan_repeats(transv, 0),
            ),
        rules_sound(prog@, rule_views(r@), prog.num_registers_spec()),
{
    let trans_vec = transcript(prog, state, transcript_steps);
    let rules = rules_of_transcript(prog, &trans_vec, Ghost(state@), Ghost(transcript_steps as nat));
    assert(rule_views(rules@) == shift_rules_of(
        prog@,
        trans_views(trans_vec@),
        scan_repeats(trans_vec@, 0),
    ));
    rules
}

/// Finds rules in a literal run of at most `transcript_steps` steps, and
/// then simulates with them for at most `sim_steps` steps of the simulator.
pub fn shift_sim(prog: Program, state: State, transcript_steps: usize, sim_steps: usize) -> (r:
    ShiftSimResult)
    requires
        prog.wf(),
        state@.len() == prog.num_registers_spec(),
        natural(state@),
    ensures
        exists|transv: Seq<Trans>|
            trans_views(transv) == transcript_of(prog@, state@, transcript_steps as nat) && {
                let rules = shift_rules_of(
                    prog@,
                    trans_views(transv),
                    #[trigger] scan_repeats(transv, 0),
                );
                let start = SimView {
                    status: SimStatus::Running,
                    base_steps: 0,
                    sim_steps: 0,
                    num_shift_steps: 0,
                };
                let last = sim_run(prog@, rules, start, state@, sim_steps as int).0;
                &&& r.num_shift_rules == rules.len()
                &&& r.sim_status == last.status
                &&& integer_value(r.base_steps) == last.base_steps
                &&& r.sim_steps == last.sim_steps
                &&& r.num_shift_steps == last.num_shift_steps
            },
        integer_value(r.base_steps) >= 0,
        r.sim_status == SimStatus::Halted ==> run_of(
            prog@,
            state@,
            integer_value(r.base_steps) as nat,
        ) is Some && halts_at(
            prog@,
            run_of(prog@, state@, integer_value(r.base_steps) as nat).unwrap(),
        ),
        r.sim_status == SimStatus::Infinite ==> never_halts(prog@, state@),
{
    let ghost code = prog@;
    let ghost size = prog.num_registers_spec();
    let shift_rules = find_shift_rules(&prog, state.clone(), transcript_steps);
    let ghost rules = rule_views(shift_rules@);
    let mut sim = ShiftSim::new(prog, shift_rules);
    let ghost start = sim@;
    proof {
        assert forall|i: int| 0 <= i < sim.shift_rules@.len() implies (
        #[trigger] sim.shift_rules@[i]).wf() && sim.shift_rules@[i]@.size() == size by {
            assert(rules[i] == sim.shift_rules@[i]@);
        }
        law_sim_run_follows_machine(code, rules, start, state@, sim_steps as int, size);
    }
    let _last = sim.run(state, sim_steps);
    ShiftSimResult {
        sim_status: sim.status,
        base_steps: sim.base_steps,
        sim_steps: sim.sim_steps,
        num_shift_rules: sim.shift_rules.len(),
        num_shift_steps: sim.num_shift_steps,
    }
}

} // verus!

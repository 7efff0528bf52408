//! The register machine: instructions, programs, states, and literal stepping.
//!
//! A program is a priority list of instructions. An instruction is a vector
//! of signed deltas, one per register, and may fire on a state when no
//! register would become negative. At each step the first instruction that
//! may fire does; when none may, the machine halts.
use vstd::prelude::*;
use crate::bignum::{big_add_i64, big_clone, big_from_i64, big_lt_i64, integer_value};

verus! {

/// Machine integer of an instruction's entries.
pub type SmallInt = i32;

/// Arbitrary-precision integer of a register's value.
pub type BigInt = rug::Integer;

/// Whether an instruction with deltas `delta` may fire on registers `regs`.
pub open spec fn guard_holds(delta: Seq<int>, regs: Seq<int>) -> bool {
    forall|i: int| 0 <= i < regs.len() ==> regs[i] + delta[i] >= 0
}

/// The first register that `delta` would make negative, or `regs.len()`
/// when there is none, searching from register `from` on.
pub open spec fn first_blocked(delta: Seq<int>, regs: Seq<int>, from: int) -> int
    decreases regs.len() - from,
{
    if from < 0 || from >= regs.len() {
        regs.len() as int
    } else if regs[from] + delta[from] < 0 {
        from
    } else {
        first_blocked(delta, regs, from + 1)
    }
}

/// The registers after `delta` has been added to them.
pub open spec fn shifted(regs: Seq<int>, delta: Seq<int>) -> Seq<int> {
    Seq::new(regs.len(), |i: int| regs[i] + delta[i])
}

/// The index of the first instruction of `prog`, from `from` on, that may
/// fire on `regs`, or `prog.len()` when none may.
pub open spec fn first_applicable(prog: Seq<Seq<int>>, regs: Seq<int>, from: int) -> int
    decreases prog.len() - from,
{
    if from < 0 || from >= prog.len() {
        prog.len() as int
    } else if guard_holds(prog[from], regs) {
        from
    } else {
        first_applicable(prog, regs, from + 1)
    }
}

/// The index of the instruction that fires on `regs`, or `prog.len()` when
/// the machine halts there.
pub open spec fn fired(prog: Seq<Seq<int>>, regs: Seq<int>) -> int {
    first_applicable(prog, regs, 0)
}

/// Whether the machine halts on `regs`.
pub open spec fn halts_at(prog: Seq<Seq<int>>, regs: Seq<int>) -> bool {
    fired(prog, regs) == prog.len()
}

/// One step of the machine: the registers after the first applicable
/// instruction has fired. On a halting state the registers stay as they are.
pub open spec fn step_of(prog: Seq<Seq<int>>, regs: Seq<int>) -> Seq<int> {
    if halts_at(prog, regs) {
        regs
    } else {
        shifted(regs, prog[fired(prog, regs)])
    }
}

/// The registers after `n` steps, or `None` when the machine halts before
/// it has made them all.
pub open spec fn run_of(prog: Seq<Seq<int>>, regs: Seq<int>, n: nat) -> Option<Seq<int>>
    decreases n,
{
    if n == 0 {
        Some(regs)
    } else {
        match run_of(prog, regs, (n - 1) as nat) {
            Some(s) => if halts_at(prog, s) {
                None
            } else {
                Some(step_of(prog, s))
            },
            None => None,
        }
    }
}

/// `first_blocked` returns an index in range, blocked if inside the
/// registers, with every register before it (from `from` on) unblocked.
pub proof fn lemma_first_blocked(delta: Seq<int>, regs: Seq<int>, from: int)
    requires
        0 <= from <= regs.len(),
    ensures
        from <= first_blocked(delta, regs, from) <= regs.len(),
        first_blocked(delta, regs, from) < regs.len() ==> regs[first_blocked(delta, regs, from)]
            + delta[first_blocked(delta, regs, from)] < 0,
        forall|i: int|
            from <= i < first_blocked(delta, regs, from) ==> regs[i] + delta[i] >= 0,
    decreases regs.len() - from,
{
    if from < regs.len() && regs[from] + delta[from] >= 0 {
        lemma_first_blocked(delta, regs, from + 1);
    }
}

/// An instruction may fire exactly when no register is blocked.
pub proof fn lemma_guard_iff_unblocked(delta: Seq<int>, regs: Seq<int>)
    ensures
        guard_holds(delta, regs) <==> first_blocked(delta, regs, 0) == regs.len(),
{
    lemma_first_blocked(delta, regs, 0);
}

/// `first_applicable` returns an index in range, applicable if inside the
/// program, with every instruction before it (from `from` on) inapplicable.
pub proof fn lemma_first_applicable(prog: Seq<Seq<int>>, regs: Seq<int>, from: int)
    requires
        0 <= from <= prog.len(),
    ensures
        from <= first_applicable(prog, regs, from) <= prog.len(),
        first_applicable(prog, regs, from) < prog.len() ==> guard_holds(
            prog[first_applicable(prog, regs, from)],
            regs,
        ),
        forall|k: int|
            from <= k < first_applicable(prog, regs, from) ==> !guard_holds(#[trigger] prog[k], regs),
    decreases prog.len() - from,
{
    if from < prog.len() && !guard_holds(prog[from], regs) {
        lemma_first_applicable(prog, regs, from + 1);
    }
}

/// A configuration of the machine: one value per register.
#[derive(Debug, PartialEq)]
pub struct State {
    pub data: Vec<BigInt>,
}

impl View for State {
    type V = Seq<int>;

    open spec fn view(&self) -> Seq<int> {
        Seq::new(self.data@.len(), |i: int| integer_value(self.data@[i]))
    }
}

impl Clone for State {
    fn clone(&self) -> (r: State)
        ensures
            r@ == self@,
    {
        let mut data: Vec<BigInt> = Vec::new();
        let mut i: usize = 0;
        while i < self.data.len()
            invariant
                0 <= i <= self.data.len(),
                data.len() == i,
                forall|j: int| 0 <= j < i ==> integer_value(data@[j]) == integer_value(self.data@[j]),
            decreases self.data.len() - i,
        {
            data.push(big_clone(&self.data[i]));
            i += 1;
        }
        let r = State { data };
        assert(r@ =~= self@);
        r
    }
}

/// An instruction: the amount added to each register when it fires.
#[derive(Debug, Clone, PartialEq)]
pub struct Instr {
    pub data: Vec<SmallInt>,
}

impl View for Instr {
    type V = Seq<int>;

    open spec fn view(&self) -> Seq<int> {
        Seq::new(self.data@.len(), |i: int| self.data@[i] as int)
    }
}

/// A program: instructions in priority order.
#[derive(Debug)]
pub struct Program {
    pub instrs: Vec<Instr>,
}

impl View for Program {
    type V = Seq<Seq<int>>;

    open spec fn view(&self) -> Seq<Seq<int>> {
        Seq::new(self.instrs@.len(), |k: int| self.instrs@[k]@)
    }
}

/// Outcome of a bounded literal run.
#[derive(Debug)]
pub struct SimResult {
    pub halted: bool,
    pub total_steps: usize,
}

impl State {
    /// The state of the given values, one for each register.
    pub fn new(data: Vec<BigInt>) -> (r: State)
        ensures
            r.data == data,
    {
        State { data }
    }

    /// The canonical start state of `prog`: register 0 holds 1, the others 0.
    pub fn start(prog: &Program) -> (r: State)
        requires
            prog.wf(),
            prog.num_registers_spec() >= 1,
        ensures
            r@.len() == prog.num_registers_spec(),
            forall|i: int| 0 <= i < r@.len() ==> r@[i] == if i == 0 { 1int } else { 0int },
            natural(r@),
    {
        let num_regs = prog.num_registers();
        let mut data: Vec<BigInt> = Vec::new();
        let mut i: usize = 0;
        while i < num_regs
            invariant
                0 <= i <= num_regs,
                data.len() == i,
                forall|j: int|
                    0 <= j < i ==> integer_value(data@[j]) == if j == 0 { 1int } else { 0int },
            decreases num_regs - i,
        {
            data.push(big_from_i64(if i == 0 { 1 } else { 0 }));
            i += 1;
        }
        State { data }
    }
}

impl Instr {
    /// The instruction of the given deltas, one for each register.
    pub fn new(data: Vec<SmallInt>) -> (r: Instr)
        ensures
            r.data == data,
    {
        Instr { data }
    }

    /// The number of registers that the instruction is for.
    pub fn num_registers(&self) -> (n: usize)
        ensures
            n == self@.len(),
    {
        self.data.len()
    }

    /// Whether this instruction may fire on `state`. If not, the error is
    /// the first register that would become negative.
    pub fn can_apply(&self, state: &State) -> (r: Result<(), usize>)
        requires
            self@.len() == state@.len(),
        ensures
            r is Ok <==> guard_holds(self@, state@),
            r matches Err(reg) ==> reg == first_blocked(self@, state@, 0) && reg < state@.len(),
    {
        let n = self.data.len();
        let mut i: usize = 0;
        while i < n
            invariant
                0 <= i <= n,
                n == self.data.len(),
                n == state.data.len(),
                first_blocked(self@, state@, 0) == first_blocked(self@, state@, i as int),
            decreases n - i,
        {
            let delta: i64 = self.data[i] as i64;
            if big_lt_i64(&state.data[i], -delta) {
                proof {
                    lemma_guard_iff_unblocked(self@, state@);
                }
                return Err(i);
            }
            i += 1;
        }
        proof {
            lemma_guard_iff_unblocked(self@, state@);
        }
        Ok(())
    }

    /// Adds each delta to its register.
    pub fn apply(&self, state: &mut State)
        requires
            self@.len() == old(state)@.len(),
        ensures
            final(state)@ == shifted(old(state)@, self@),
    {
        let n = self.data.len();
        let mut i: usize = 0;
        while i < n
            invariant
                0 <= i <= n,
                n == self.data.len(),
                n == state.data.len(),
                n == old(state).data.len(),
                forall|j: int|
                    0 <= j < i ==> integer_value(state.data@[j]) == old(state)@[j] + self@[j],
                forall|j: int|
                    i <= j < n ==> integer_value(state.data@[j]) == old(state)@[j],
            decreases n - i,
        {
            let sum = big_add_i64(&state.data[i], self.data[i] as i64);
            state.data.set(i, sum);
            i += 1;
        }
        assert(state@ =~= shifted(old(state)@, self@));
    }
}

impl Program {
    /// A program has at least one instruction, and its instructions all
    /// have as many entries as there are registers.
    pub open spec fn wf(&self) -> bool {
        &&& self.instrs@.len() > 0
        &&& forall|k: int|
            0 <= k < self.instrs@.len() ==> (#[trigger] self.instrs@[k])@.len()
                == self.instrs@[0]@.len()
    }

    /// The number of registers: the length of the first instruction.
    pub open spec fn num_registers_spec(&self) -> nat {
        self.instrs@[0]@.len()
    }

    /// Every entry of every instruction is a small machine integer.
    pub proof fn lemma_small_entries(&self)
        ensures
            forall|k: int, i: int|
                0 <= k < self@.len() && 0 <= i < self@[k].len() ==> -0x8000_0000 <= (
                #[trigger] self@[k][i]) < 0x8000_0000,
    {
        assert forall|k: int, i: int| 0 <= k < self@.len() && 0 <= i < self@[k].len() implies
            -0x8000_0000 <= (#[trigger] self@[k][i]) < 0x8000_0000 by {
            assert(self@[k][i] == self.instrs@[k].data@[i]);
        }
    }

    /// The number of instructions.
    pub fn num_instrs(&self) -> (n: usize)
        ensures
            n == self@.len(),
    {
        self.instrs.len()
    }

    /// The number of registers, of a program that has an instruction.
    pub fn num_registers(&self) -> (n: usize)
        requires
            self.instrs@.len() > 0,
        ensures
            n == self.num_registers_spec(),
    {
        self.instrs[0].num_registers()
    }

    /// Makes one step. Returns whether an instruction fired; when none did
    /// the machine has halted and the state is unchanged.
    pub fn step(&self, state: &mut State) -> (r: bool)
        requires
            self.wf(),
            old(state)@.len() == self.num_registers_spec(),
        ensures
            r == !halts_at(self@, old(state)@),
            final(state)@ == step_of(self@, old(state)@),
    {
        let n = self.instrs.len();
        let mut k: usize = 0;
        while k < n
            invariant
                0 <= k <= n,
                n == self.instrs.len(),
                self.wf(),
                state@ == old(state)@,
                state@.len() == self.num_registers_spec(),
                fired(self@, state@) == first_applicable(self@, state@, k as int),
            decreases n - k,
        {
            if self.instrs[k].can_apply(state).is_ok() {
                self.instrs[k].apply(state);
                return true;
            }
            k += 1;
        }
        false
    }

    /// Steps until the machine halts, at most `num_steps` times.
    pub fn run(&self, state: &mut State, num_steps: usize) -> (r: SimResult)
        requires
            self.wf(),
            old(state)@.len() == self.num_registers_spec(),
        ensures
            r.total_steps <= num_steps,
            run_of(self@, old(state)@, r.total_steps as nat) == Some(final(state)@),
            r.halted ==> halts_at(self@, final(state)@) && r.total_steps < num_steps,
            !r.halted ==> r.total_steps == num_steps,
    {
        let mut step_num: usize = 0;
        while step_num < num_steps
            invariant
                0 <= step_num <= num_steps,
                self.wf(),
                state@.len() == self.num_registers_spec(),
                run_of(self@, old(state)@, step_num as nat) == Some(state@),
            decreases num_steps - step_num,
        {
            if !self.step(state) {
                return SimResult { halted: true, total_steps: step_num };
            }
            step_num += 1;
        }
        SimResult { halted: false, total_steps: num_steps }
    }
}

/// Whether every register holds a natural number.
pub open spec fn natural(regs: Seq<int>) -> bool {
    forall|i: int| 0 <= i < regs.len() ==> regs[i] >= 0
}

/// Whether the machine never halts from `regs`.
pub open spec fn never_halts(prog: Seq<Seq<int>>, regs: Seq<int>) -> bool {
    forall|n: nat| run_of(prog, regs, n) is Some
}

/// The instruction that fires is the only one that may fire while none
/// before it may.
pub proof fn lemma_fired_is(prog: Seq<Seq<int>>, regs: Seq<int>, k: int)
    requires
        0 <= k < prog.len(),
        guard_holds(prog[k], regs),
        forall|e: int| 0 <= e < k ==> !guard_holds(#[trigger] prog[e], regs),
    ensures
        fired(prog, regs) == k,
        !halts_at(prog, regs),
        step_of(prog, regs) == shifted(regs, prog[k]),
{
    lemma_first_applicable(prog, regs, 0);
}

/// A step of the machine on natural numbers gives natural numbers.
pub proof fn lemma_step_natural(prog: Seq<Seq<int>>, regs: Seq<int>)
    requires
        natural(regs),
    ensures
        natural(step_of(prog, regs)),
        step_of(prog, regs).len() == regs.len(),
{
    lemma_first_applicable(prog, regs, 0);
    if !halts_at(prog, regs) {
        let next = step_of(prog, regs);
        assert forall|i: int| 0 <= i < next.len() implies next[i] >= 0 by {
            assert(regs[i] + prog[fired(prog, regs)][i] >= 0);
        }
    }
}

/// A run of `a + b` steps is a run of `a` steps and then one of `b` steps.
pub proof fn lemma_run_add(prog: Seq<Seq<int>>, regs: Seq<int>, a: nat, b: nat)
    requires
        run_of(prog, regs, a) is Some,
    ensures
        run_of(prog, regs, a + b) == run_of(prog, run_of(prog, regs, a).unwrap(), b),
    decreases b,
{
    if b > 0 {
        lemma_run_add(prog, regs, a, (b - 1) as nat);
        assert((a + b - 1) as nat == a + (b - 1) as nat);
    }
}

/// A machine that makes `n` steps makes every smaller number of steps.
pub proof fn lemma_run_prefix(prog: Seq<Seq<int>>, regs: Seq<int>, n: nat, k: nat)
    requires
        run_of(prog, regs, n) is Some,
        k <= n,
    ensures
        run_of(prog, regs, k) is Some,
    decreases n,
{
    if k < n {
        lemma_run_prefix(prog, regs, (n - 1) as nat, k);
    }
}

/// A machine that reaches a state from which it never halts never halts.
pub proof fn lemma_never_halts_from(prog: Seq<Seq<int>>, regs: Seq<int>, a: nat)
    requires
        run_of(prog, regs, a) is Some,
        never_halts(prog, run_of(prog, regs, a).unwrap()),
    ensures
        never_halts(prog, regs),
{
    assert forall|n: nat| run_of(prog, regs, n) is Some by {
        if n <= a {
            lemma_run_prefix(prog, regs, a, n);
        } else {
            lemma_run_add(prog, regs, a, (n - a) as nat);
            assert(a + (n - a) as nat == n);
            assert(run_of(prog, run_of(prog, regs, a).unwrap(), (n - a) as nat) is Some);
        }
    }
}

/// A run of the machine from natural numbers stays in the natural
/// numbers, and keeps the number of registers.
pub proof fn lemma_run_natural(prog: Seq<Seq<int>>, regs: Seq<int>, n: nat)
    requires
        natural(regs),
        run_of(prog, regs, n) is Some,
    ensures
        natural(run_of(prog, regs, n).unwrap()),
        run_of(prog, regs, n).unwrap().len() == regs.len(),
    decreases n,
{
    if n > 0 {
        lemma_run_natural(prog, regs, (n - 1) as nat);
        lemma_step_natural(prog, run_of(prog, regs, (n - 1) as nat).unwrap());
    }
}

} // verus!

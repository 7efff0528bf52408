//! The register machine on machine integers, with the program as one
//! matrix: a fast form for runs in which no register outgrows a word.
use vstd::prelude::*;
use crate::program::{
    first_applicable, fired, guard_holds, halts_at, lemma_first_applicable, natural, run_of,
    shifted, step_of,
};

verus! {

/// Machine integer of the matrix and of the registers.
pub type Int = i64;

/// A program as a matrix, row by row: `num_rules` rows of `dims` entries.
#[derive(Debug)]
pub struct PVAS {
    pub rules: Vec<Int>,
    pub dims: usize,
    pub num_rules: usize,
}

/// Outcome of a bounded literal run.
#[derive(Debug)]
pub struct SimResult {
    pub halted: bool,
    pub total_steps: Int,
}

/// The registers of a slice, as integers.
pub open spec fn regs_of(state: Seq<Int>) -> Seq<int> {
    Seq::new(state.len(), |c: int| state[c] as int)
}

impl View for PVAS {
    type V = Seq<Seq<int>>;

    open spec fn view(&self) -> Seq<Seq<int>> {
        Seq::new(
            self.num_rules as nat,
            |r: int| Seq::new(self.dims as nat, |c: int| self.rules@[r * self.dims + c] as int),
        )
    }
}

/// Whether one step from `regs` can be made in machine integers: every sum
/// of a register and its entry in a row is one.
pub open spec fn step_fits(prog: Seq<Seq<int>>, regs: Seq<int>) -> bool {
    forall|r: int, c: int|
        0 <= r < prog.len() && 0 <= c < regs.len() ==> Int::MIN <= regs[c] + (#[trigger] prog[r][c])
            <= Int::MAX
}

/// Whether the first `n` steps from `regs`, as far as the machine makes
/// them, can be made in machine integers.
pub open spec fn run_fits(prog: Seq<Seq<int>>, regs: Seq<int>, n: nat) -> bool
    decreases n,
{
    n == 0 || (step_fits(prog, regs) && (halts_at(prog, regs) || run_fits(
        prog,
        step_of(prog, regs),
        (n - 1) as nat,
    )))
}

impl PVAS {
    /// The matrix has `num_rules` rows of `dims` entries.
    pub open spec fn wf(&self) -> bool {
        self.rules@.len() == self.num_rules * self.dims
    }

    /// The machine of the given matrix, of `num_rules` rows of `dims`
    /// entries.
    pub fn new(rules: Vec<Int>, dims: usize, num_rules: usize) -> (r: PVAS)
        ensures
            r.rules == rules,
            r.dims == dims,
            r.num_rules == num_rules,
    {
        PVAS { rules, dims, num_rules }
    }

    /// The entries of a row lie inside the matrix.
    proof fn lemma_index(&self, r: int)
        requires
            self.wf(),
            0 <= r < self.num_rules,
        ensures
            0 <= r * self.dims,
            r * self.dims + self.dims <= self.rules@.len(),
    {
        assert(r * self.dims + self.dims <= self.num_rules * self.dims) by (nonlinear_arith)
            requires
                0 <= r < self.num_rules,
                0 <= self.dims,
        ;
        assert(0 <= r * self.dims) by (nonlinear_arith)
            requires
                0 <= r,
                0 <= self.dims,
        ;
    }

    /// Whether row `r` may fire on `state`.
    fn row_applies(&self, r: usize, state: &[Int]) -> (ok: bool)
        requires
            self.wf(),
            r < self.num_rules,
            state@.len() == self.dims,
            step_fits(self@, regs_of(state@)),
        ensures
            ok == guard_holds(self@[r as int], regs_of(state@)),
    {
        let total = self.rules.len();
        proof {
            self.lemma_index(r as int);
        }
        let offset = r * self.dims;
        let mut c: usize = 0;
        while c < self.dims
            invariant
                0 <= c <= self.dims,
                self.wf(),
                r < self.num_rules,
                offset == r * self.dims,
                offset + self.dims <= total,
                total == self.rules@.len(),
                state@.len() == self.dims,
                step_fits(self@, regs_of(state@)),
                forall|j: int|
                    0 <= j < c ==> (#[trigger] regs_of(state@)[j]) + self@[r as int][j] >= 0,
            decreases self.dims - c,
        {
            proof {
                assert(self@[r as int][c as int] == self.rules@[offset + c]);
                assert(regs_of(state@)[c as int] == state@[c as int]);
                assert(Int::MIN <= regs_of(state@)[c as int] + self@[r as int][c as int]
                    <= Int::MAX);
            }
            let val = state[c];
            let delta = self.rules[offset + c];
            if val + delta < 0 {
                return false;
            }
            c += 1;
        }
        true
    }

    /// Makes one step. Returns whether a row fired; when none did the
    /// machine has halted and the state is unchanged.
    pub fn step(&self, state: &mut [Int]) -> (applied: bool)
        requires
            self.wf(),
            old(state)@.len() == self.dims,
            step_fits(self@, regs_of(old(state)@)),
        ensures
            applied == !halts_at(self@, regs_of(old(state)@)),
            final(state)@.len() == self.dims,
            regs_of(final(state)@) == step_of(self@, regs_of(old(state)@)),
    {
        let ghost before = regs_of(state@);
        let mut r: usize = 0;
        while r < self.num_rules
            invariant
                0 <= r <= self.num_rules,
                self.wf(),
                state@ == old(state)@,
                state@.len() == self.dims,
                before == regs_of(state@),
                step_fits(self@, before),
                fired(self@, before) == first_applicable(self@, before, r as int),
            decreases self.num_rules - r,
        {
            if self.row_applies(r, state) {
                let total = self.rules.len();
                proof {
                    self.lemma_index(r as int);
                }
                let offset = r * self.dims;
                let mut c: usize = 0;
                while c < self.dims
                    invariant
                        0 <= c <= self.dims,
                        self.wf(),
                        r < self.num_rules,
                        offset == r * self.dims,
                        offset + self.dims <= total,
                        total == self.rules@.len(),
                        state@.len() == self.dims,
                        before.len() == self.dims,
                        step_fits(self@, before),
                        forall|j: int|
                            0 <= j < c ==> (#[trigger] state@[j]) == before[j] + self@[r as int][j],
                        forall|j: int| c <= j < self.dims ==> (#[trigger] state@[j]) == before[j],
                    decreases self.dims - c,
                {
                    proof {
                                assert(self@[r as int][c as int] == self.rules@[offset + c]);
                        assert(Int::MIN <= before[c as int] + self@[r as int][c as int]
                            <= Int::MAX);
                    }
                    let delta = self.rules[offset + c];
                    let moved = state[c] + delta;
                    state[c] = moved;
                    c += 1;
                }
                assert(regs_of(state@) =~= shifted(before, self@[r as int]));
                return true;
            }
            r += 1;
        }
        false
    }

    /// Steps until the machine halts, at most `num_steps` times.
    pub fn run(&self, state: &mut [Int], num_steps: Int) -> (r: SimResult)
        requires
            self.wf(),
            old(state)@.len() == self.dims,
            num_steps >= 0 ==> run_fits(self@, regs_of(old(state)@), num_steps as nat),
        ensures
            r.halted ==> 0 <= r.total_steps < num_steps && halts_at(self@, regs_of(final(state)@))
                && run_of(self@, regs_of(old(state)@), r.total_steps as nat) == Some(
                regs_of(final(state)@),
            ),
            !r.halted ==> r.total_steps == num_steps && run_of(
                self@,
                regs_of(old(state)@),
                if num_steps >= 0 {
                    num_steps as nat
                } else {
                    0
                },
            ) == Some(regs_of(final(state)@)),
    {
        let mut step_num: Int = 0;
        while step_num < num_steps
            invariant
                0 <= step_num,
                step_num <= num_steps || num_steps < 0,
                num_steps < 0 ==> step_num == 0,
                self.wf(),
                state@.len() == self.dims,
                num_steps >= 0 ==> run_fits(self@, regs_of(state@), (num_steps - step_num) as nat),
                run_of(self@, regs_of(old(state)@), step_num as nat) == Some(regs_of(state@)),
            decreases num_steps - step_num,
        {
            if !self.step(state) {
                return SimResult { halted: true, total_steps: step_num };
            }
            step_num += 1;
        }
        SimResult { halted: false, total_steps: num_steps }
    }
}

/// Whether `regs` holds natural numbers of at most `m`.
pub open spec fn regs_below(regs: Seq<int>, m: int) -> bool {
    forall|c: int| 0 <= c < regs.len() ==> 0 <= #[trigger] regs[c] <= m
}

/// Whether every row of `prog` has as many entries as there are registers
/// in `regs`, none of them above `d` in magnitude.
pub open spec fn rows_within(prog: Seq<Seq<int>>, size: nat, d: int) -> bool {
    forall|r: int, c: int|
        0 <= r < prog.len() && 0 <= c < size ==> -d <= (#[trigger] prog[r][c]) <= d
}

/// A run of `n` steps can be made in machine integers from natural
/// numbers of at most `m`, with rows of entries up to `d`, when `m` and
/// `d` for each step are together a machine integer.
pub proof fn lemma_run_fits(prog: Seq<Seq<int>>, regs: Seq<int>, n: nat, m: int, d: int)
    requires
        regs_below(regs, m),
        rows_within(prog, regs.len(), d),
        forall|r: int| 0 <= r < prog.len() ==> (#[trigger] prog[r]).len() == regs.len(),
        0 <= d,
        m + n * d <= Int::MAX,
    ensures
        run_fits(prog, regs, n),
    decreases n,
{
    if n > 0 {
        assert(m + d <= m + n * d) by (nonlinear_arith)
            requires
                n >= 1,
                d >= 0,
        ;
        assert forall|r: int, c: int| 0 <= r < prog.len() && 0 <= c < regs.len() implies Int::MIN
            <= regs[c] + (#[trigger] prog[r][c]) <= Int::MAX by {
            assert(0 <= regs[c] <= m);
            assert(-d <= prog[r][c] <= d);
        }
        if !halts_at(prog, regs) {
            lemma_first_applicable(prog, regs, 0);
            let next = step_of(prog, regs);
            let row = prog[fired(prog, regs)];
            assert forall|c: int| 0 <= c < next.len() implies 0 <= #[trigger] next[c] <= m + d by {
                assert(0 <= regs[c] <= m);
                assert(-d <= prog[fired(prog, regs)][c] <= d);
                assert(regs[c] + row[c] >= 0);
            }
            assert((m + d) + (n - 1) * d == m + n * d) by (nonlinear_arith);
            lemma_run_fits(prog, next, (n - 1) as nat, m + d, d);
        }
    }
}

/// The greatest magnitude of the first `upto` of `entries`, 0 when there is
/// none.
pub open spec fn greatest_magnitude(entries: Seq<Int>, upto: int) -> int
    decreases upto,
{
    if upto <= 0 {
        0
    } else {
        let before = greatest_magnitude(entries, upto - 1);
        let here = if entries[upto - 1] < 0 {
            -entries[upto - 1]
        } else {
            entries[upto - 1] as int
        };
        if here > before {
            here
        } else {
            before
        }
    }
}

/// The greatest of the first `upto` of `values` and 0.
pub open spec fn greatest_value(values: Seq<Int>, upto: int) -> int
    decreases upto,
{
    if upto <= 0 {
        0
    } else if values[upto - 1] > greatest_value(values, upto - 1) {
        values[upto - 1] as int
    } else {
        greatest_value(values, upto - 1)
    }
}

/// No entry exceeds the greatest magnitude.
pub proof fn lemma_greatest_magnitude(entries: Seq<Int>, upto: int)
    requires
        0 <= upto <= entries.len(),
    ensures
        0 <= greatest_magnitude(entries, upto),
        forall|e: int|
            0 <= e < upto ==> -greatest_magnitude(entries, upto) <= #[trigger] entries[e]
                <= greatest_magnitude(entries, upto),
    decreases upto,
{
    if upto > 0 {
        lemma_greatest_magnitude(entries, upto - 1);
    }
}

impl PVAS {
    /// Whether the matrix is well formed and the magnitude of each of its
    /// entries is a machine integer.
    pub open spec fn has_reach(&self) -> bool {
        &&& self.wf()
        &&& forall|e: int| 0 <= e < self.rules@.len() ==> #[trigger] self.rules@[e] != Int::MIN
    }

    /// Whether a run of `num_steps` steps from `state` is sure to stay in
    /// machine integers: the matrix is well formed, the state has its
    /// registers and holds natural numbers, and the greatest of them, grown
    /// by the greatest magnitude of the matrix once for each step, is a
    /// machine integer.
    pub open spec fn run_is_sure(&self, state: Seq<Int>, num_steps: Int) -> bool {
        &&& self.has_reach()
        &&& state.len() == self.dims
        &&& forall|c: int| 0 <= c < state.len() ==> #[trigger] state[c] >= 0
        &&& num_steps <= 0 || greatest_value(state, state.len() as int) + num_steps
            * greatest_magnitude(self.rules@, self.rules@.len() as int) <= Int::MAX
    }

    /// The greatest magnitude of an entry of the matrix, if the matrix is
    /// well formed and every magnitude is a machine integer; else `None`.
    fn reach(&self) -> (r: Option<Int>)
        ensures
            match r {
                Some(d) => self.has_reach() && d == greatest_magnitude(
                    self.rules@,
                    self.rules@.len() as int,
                ) && rows_within(self@, self.dims as nat, d as int),
                None => !self.has_reach(),
            },
    {
        let len = self.rules.len();
        let total = match self.num_rules.checked_mul(self.dims) {
            Some(total) => total,
            None => {
                assert(self.num_rules * self.dims > len);
                return None;
            },
        };
        if len != total {
            return None;
        }
        let mut d: Int = 0;
        let mut i: usize = 0;
        while i < total
            invariant
                0 <= i <= total,
                total == self.rules@.len(),
                total == self.num_rules * self.dims,
                d == greatest_magnitude(self.rules@, i as int),
                forall|e: int| 0 <= e < i ==> #[trigger] self.rules@[e] != Int::MIN,
            decreases total - i,
        {
            let v = self.rules[i];
            if v == Int::MIN {
                return None;
            }
            proof {
                lemma_greatest_magnitude(self.rules@, i as int);
            }
            let mag: Int = if v < 0 {
                -v
            } else {
                v
            };
            if mag > d {
                d = mag;
            }
            i += 1;
        }
        proof {
            lemma_greatest_magnitude(self.rules@, total as int);
            assert forall|r: int, c: int|
                0 <= r < self@.len() && 0 <= c < self.dims implies -d <= (#[trigger] self@[r][c])
                <= d by {
                self.lemma_index(r);
                assert(self@[r][c] == self.rules@[r * self.dims + c]);
            }
        }
        Some(d)
    }

    /// Runs as [`PVAS::run`] does if the run is sure to stay in machine
    /// integers, and returns `None` with the state unchanged if it is not:
    /// see [`PVAS::run_is_sure`].
    pub fn try_run(&self, state: &mut [Int], num_steps: Int) -> (r: Option<SimResult>)
        ensures
            r is Some <==> self.run_is_sure(old(state)@, num_steps),
            r is None ==> final(state)@ == old(state)@,
            r matches Some(sim) ==> {
                &&& sim.halted ==> 0 <= sim.total_steps < num_steps && halts_at(
                    self@,
                    regs_of(final(state)@),
                ) && run_of(self@, regs_of(old(state)@), sim.total_steps as nat) == Some(
                    regs_of(final(state)@),
                )
                &&& !sim.halted ==> sim.total_steps == num_steps && run_of(
                    self@,
                    regs_of(old(state)@),
                    if num_steps >= 0 {
                        num_steps as nat
                    } else {
                        0
                    },
                ) == Some(regs_of(final(state)@))
            },
    {
        let d = match self.reach() {
            Some(d) => d,
            None => {
                return None;
            },
        };
        if state.len() != self.dims {
            return None;
        }
        let mut m: Int = 0;
        let mut c: usize = 0;
        while c < self.dims
            invariant
                0 <= c <= self.dims,
                state@ == old(state)@,
                state@.len() == self.dims,
                m == greatest_value(state@, c as int),
                0 <= m,
                forall|e: int| 0 <= e < c ==> 0 <= #[trigger] state@[e] <= m,
            decreases self.dims - c,
        {
            let v = state[c];
            if v < 0 {
                return None;
            }
            if v > m {
                m = v;
            }
            c += 1;
        }
        if num_steps > 0 && d > 0 && num_steps > (Int::MAX - m) / d {
            proof {
                assert(m + num_steps * d > Int::MAX) by (nonlinear_arith)
                    requires
                        num_steps > (Int::MAX - m) / (d as int),
                        d > 0,
                        Int::MAX - m >= 0,
                ;
            }
            return None;
        }
        proof {
            let regs = regs_of(state@);
            assert(regs_below(regs, m as int)) by {
                assert forall|e: int| 0 <= e < regs.len() implies 0 <= #[trigger] regs[e] <= m by {
                    assert(regs[e] == state@[e]);
                }
            }
            if num_steps > 0 {
                if d > 0 {
                    assert(num_steps * d <= Int::MAX - m) by (nonlinear_arith)
                        requires
                            0 < num_steps <= (Int::MAX - m) / (d as int),
                            d > 0,
                            Int::MAX - m >= 0,
                    ;
                } else {
                    assert(num_steps * d == 0) by (nonlinear_arith)
                        requires
                            d == 0,
                    ;
                }
                lemma_run_fits(self@, regs, num_steps as nat, m as int, d as int);
            } else if num_steps == 0 {
                assert(run_fits(self@, regs, 0));
            }
        }
        Some(self.run(state, num_steps))
    }
}

} // verus!

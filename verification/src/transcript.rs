//! The transcript of a run: for each step, which instruction fired and why
//! each instruction before it did not.
use vstd::prelude::*;
use vstd::std_specs::cmp::PartialEqSpecImpl;
use vstd::string::StringExecFns;
use crate::program::{
    first_applicable, first_blocked, fired, guard_holds, halts_at, lemma_first_applicable,
    lemma_first_blocked, lemma_guard_iff_unblocked, lemma_run_add, run_of, step_of, Program, State,
};
use crate::tandem_repeat::{RepBlock, ToStringVec};
use crate::text::{join_strings, joined, push_char, texts};

verus! {

/// One step of a run, seen from the program: for each instruction that was
/// tried and could not fire, the first register that it would have made
/// negative. The number of entries is the index of the instruction that
/// fired, or the number of instructions when none did.
#[derive(Debug, Eq, Hash)]
pub struct Trans {
    pub reg_fail: Vec<usize>,
}

impl Clone for Trans {
    fn clone(&self) -> (r: Trans)
        ensures
            r@ == self@,
    {
        let mut reg_fail: Vec<usize> = Vec::new();
        let mut i: usize = 0;
        while i < self.reg_fail.len()
            invariant
                0 <= i <= self.reg_fail@.len(),
                reg_fail@.len() == i,
                forall|j: int| 0 <= j < i ==> reg_fail@[j] == self.reg_fail@[j],
            decreases self.reg_fail@.len() - i,
        {
            reg_fail.push(self.reg_fail[i]);
            i += 1;
        }
        assert(reg_fail@ =~= self.reg_fail@);
        Trans { reg_fail }
    }
}

impl PartialEq for Trans {
    fn eq(&self, other: &Trans) -> (r: bool) {
        if self.reg_fail.len() != other.reg_fail.len() {
            assert(self@.len() != other@.len());
            return false;
        }
        let mut i: usize = 0;
        while i < self.reg_fail.len()
            invariant
                0 <= i <= self.reg_fail@.len(),
                self.reg_fail@.len() == other.reg_fail@.len(),
                forall|j: int| 0 <= j < i ==> self.reg_fail@[j] == other.reg_fail@[j],
            decreases self.reg_fail@.len() - i,
        {
            if self.reg_fail[i] != other.reg_fail[i] {
                assert(self@[i as int] != other@[i as int]);
                return false;
            }
            i += 1;
        }
        assert(self.reg_fail@ =~= other.reg_fail@);
        true
    }
}

impl PartialEqSpecImpl for Trans {
    open spec fn obeys_eq_spec() -> bool {
        true
    }

    open spec fn eq_spec(&self, other: &Trans) -> bool {
        self@ == other@
    }
}

impl View for Trans {
    type V = Seq<usize>;

    open spec fn view(&self) -> Seq<usize> {
        self.reg_fail@
    }
}

/// The transitions of a recorded run, each as the sequence of its entries.
pub open spec fn trans_views(ts: Seq<Trans>) -> Seq<Seq<usize>> {
    Seq::new(ts.len(), |i: int| ts[i]@)
}

/// The transition that `prog` makes on `regs`.
pub open spec fn trans_of(prog: Seq<Seq<int>>, regs: Seq<int>) -> Seq<usize> {
    Seq::new(fired(prog, regs) as nat, |k: int| first_blocked(prog[k], regs, 0) as usize)
}

/// The transitions of the first `n` steps from `regs`, or of all steps up
/// to the halt when the machine halts before.
pub open spec fn transcript_of(prog: Seq<Seq<int>>, regs: Seq<int>, n: nat) -> Seq<Seq<usize>>
    decreases n,
{
    if n == 0 || halts_at(prog, regs) {
        Seq::empty()
    } else {
        seq![trans_of(prog, regs)] + transcript_of(prog, step_of(prog, regs), (n - 1) as nat)
    }
}

/// Which instruction fires on `state`, and why the ones before it do not.
/// The state is left as it is.
pub fn eval_trans(prog: &Program, state: &State) -> (r: Trans)
    requires
        prog.wf(),
        state@.len() == prog.num_registers_spec(),
    ensures
        r@ == trans_of(prog@, state@),
{
    let n = prog.instrs.len();
    let mut reg_fail: Vec<usize> = Vec::new();
    let mut k: usize = 0;
    let mut found = false;
    while k < n && !found
        invariant
            0 <= k <= n,
            n == prog.instrs@.len(),
            prog.wf(),
            state@.len() == prog.num_registers_spec(),
            reg_fail@.len() == k,
            fired(prog@, state@) == first_applicable(prog@, state@, k as int),
            found ==> k < n && guard_holds(prog@[k as int], state@),
            forall|j: int|
                0 <= j < k ==> #[trigger] reg_fail@[j] == first_blocked(prog@[j], state@, 0),
        decreases n - k + if found { 0int } else { 1int },
    {
        match prog.instrs[k].can_apply(state) {
            Err(reg) => {
                reg_fail.push(reg);
                k += 1;
            },
            Ok(_) => {
                found = true;
            },
        }
    }
    proof {
        assert(fired(prog@, state@) == k);
        assert(reg_fail@ =~= trans_of(prog@, state@));
    }
    Trans { reg_fail }
}

/// Makes one step and returns its transition, or returns `None`, with the
/// state unchanged, when the machine has halted.
pub fn step(prog: &Program, state: &mut State) -> (r: Option<Trans>)
    requires
        prog.wf(),
        old(state)@.len() == prog.num_registers_spec(),
    ensures
        r is None <==> halts_at(prog@, old(state)@),
        r matches Some(t) ==> t@ == trans_of(prog@, old(state)@),
        final(state)@ == step_of(prog@, old(state)@),
{
    let trans = eval_trans(prog, state);
    let instr_num = trans.reg_fail.len();
    proof {
        lemma_first_applicable(prog@, state@, 0);
    }
    if instr_num < prog.num_instrs() {
        prog.instrs[instr_num].apply(state);
        Some(trans)
    } else {
        None
    }
}

/// Runs for at most `num_steps` steps and records the transition of each.
pub fn transcript(prog: &Program, state: State, num_steps: usize) -> (r: Vec<Trans>)
    requires
        prog.wf(),
        state@.len() == prog.num_registers_spec(),
    ensures
        trans_views(r@) == transcript_of(prog@, state@, num_steps as nat),
{
    let mut cur = state;
    let mut ret: Vec<Trans> = Vec::new();
    let mut i: usize = 0;
    while i < num_steps
        invariant
            0 <= i <= num_steps,
            prog.wf(),
            cur@.len() == prog.num_registers_spec(),
            transcript_of(prog@, state@, num_steps as nat) == trans_views(ret@) + transcript_of(
                prog@,
                cur@,
                (num_steps - i) as nat,
            ),
        decreases num_steps - i,
    {
        let ghost before = cur@;
        let ghost done = trans_views(ret@);
        let ghost rest = (num_steps - i - 1) as nat;
        match step(prog, &mut cur) {
            Some(trans) => {
                ret.push(trans);
                assert(trans_views(ret@) =~= done + seq![trans@]);
                assert(done + (seq![trans@] + transcript_of(prog@, cur@, rest)) =~= (done
                    + seq![trans@]) + transcript_of(prog@, cur@, rest));
            },
            None => {
                assert(transcript_of(prog@, before, (num_steps - i) as nat) =~= Seq::<
                    Seq<usize>,
                >::empty());
                assert(done + Seq::<Seq<usize>>::empty() =~= done);
                return ret;
            },
        }
        i += 1;
    }
    assert(trans_views(ret@) + Seq::<Seq<usize>>::empty() =~= trans_views(ret@));
    ret
}

/// The letter of the `n`-th instruction: `A` for the first, and on through
/// the characters of one byte, starting over behind the last.
pub open spec fn letter_of(n: int) -> char {
    (((n + 65) % 256) as u8) as char
}

impl ToStringVec for Trans {
    /// One letter: that of the instruction that fired.
    open spec fn one_text(&self) -> Seq<char> {
        seq![letter_of(self@.len() as int)]
    }

    /// The letters of the transitions in a row.
    open spec fn vec_text(xs: Seq<Self>) -> Seq<char> {
        joined(Seq::new(xs.len(), |i: int| xs[i].one_text()), Seq::empty(), xs.len() as int)
    }

    fn to_string_one(&self) -> (s: String) {
        let instr_num: usize = self.reg_fail.len() % 256;
        let code: u8 = ((instr_num + 65) % 256) as u8;
        let mut out = String::new();
        push_char(&mut out, code as char);
        assert(out@ =~= seq![letter_of(self@.len() as int)]);
        out
    }

    fn to_string_vec(xs: &Vec<Self>) -> (s: String) {
        let mut parts: Vec<String> = Vec::new();
        let mut i: usize = 0;
        while i < xs.len()
            invariant
                0 <= i <= xs@.len(),
                parts@.len() == i,
                forall|j: int| 0 <= j < i ==> (#[trigger] parts@[j])@ == xs@[j].one_text(),
            decreases xs@.len() - i,
        {
            parts.push(xs[i].to_string_one());
            i += 1;
        }
        proof {
            assert(texts(parts@) =~= Seq::new(xs@.len(), |i: int| xs@[i].one_text()));
        }
        proof {
            reveal_strlit("");
            assert(""@ =~= Seq::<char>::empty());
        }
        join_strings(&parts, "")
    }
}

/// A block of transitions, and whether it stands more than once in a row.
#[derive(Debug)]
pub struct StrippedBlock {
    pub block: Vec<Trans>,
    pub is_rep: bool,
}

/// A copy of a list of transitions.
pub fn clone_block(block: &Vec<Trans>) -> (r: Vec<Trans>)
    ensures
        trans_views(r@) == trans_views(block@),
{
    let mut out: Vec<Trans> = Vec::new();
    let mut i: usize = 0;
    while i < block.len()
        invariant
            0 <= i <= block@.len(),
            out@.len() == i,
            forall|j: int| 0 <= j < i ==> (#[trigger] out@[j])@ == block@[j]@,
        decreases block@.len() - i,
    {
        out.push(block[i].clone());
        i += 1;
    }
    assert(trans_views(out@) =~= trans_views(block@));
    out
}

/// Whether two lists hold the same transitions.
pub fn same_block(a: &Vec<Trans>, b: &Vec<Trans>) -> (r: bool)
    ensures
        r == (trans_views(a@) == trans_views(b@)),
{
    if a.len() != b.len() {
        assert(trans_views(a@).len() != trans_views(b@).len());
        return false;
    }
    let mut i: usize = 0;
    while i < a.len()
        invariant
            0 <= i <= a@.len(),
            a@.len() == b@.len(),
            forall|j: int| 0 <= j < i ==> (#[trigger] a@[j])@ == b@[j]@,
        decreases a@.len() - i,
    {
        if !(a[i] == b[i]) {
            assert(trans_views(a@)[i as int] != trans_views(b@)[i as int]);
            return false;
        }
        i += 1;
    }
    assert(trans_views(a@) =~= trans_views(b@));
    true
}

impl Clone for StrippedBlock {
    fn clone(&self) -> (r: StrippedBlock)
        ensures
            trans_views(r.block@) == trans_views(self.block@),
            r.is_rep == self.is_rep,
    {
        StrippedBlock { block: clone_block(&self.block), is_rep: self.is_rep }
    }
}

impl PartialEq for StrippedBlock {
    fn eq(&self, other: &StrippedBlock) -> (r: bool) {
        self.is_rep == other.is_rep && same_block(&self.block, &other.block)
    }
}

impl PartialEqSpecImpl for StrippedBlock {
    open spec fn obeys_eq_spec() -> bool {
        true
    }

    open spec fn eq_spec(&self, other: &StrippedBlock) -> bool {
        self.is_rep == other.is_rep && trans_views(self.block@) == trans_views(other.block@)
    }
}

impl ToStringVec for StrippedBlock {
    /// The letters of the block, and a `+` behind them when the block
    /// stands more than once.
    open spec fn one_text(&self) -> Seq<char> {
        Trans::vec_text(self.block@) + if self.is_rep {
            seq!['+']
        } else {
            Seq::empty()
        }
    }

    /// The texts of the blocks with a blank between each two, in round
    /// brackets.
    open spec fn vec_text(xs: Seq<Self>) -> Seq<char> {
        seq!['('] + joined(
            Seq::new(xs.len(), |i: int| xs[i].one_text()),
            seq![' '],
            xs.len() as int,
        ) + seq![')']
    }

    fn to_string_one(&self) -> (s: String) {
        let mut ret = Trans::to_string_vec(&self.block);
        if self.is_rep {
            push_char(&mut ret, '+');
        } else {
            assert(ret@ + Seq::<char>::empty() =~= ret@);
        }
        ret
    }

    fn to_string_vec(xs: &Vec<Self>) -> (s: String) {
        let mut parts: Vec<String> = Vec::new();
        let mut i: usize = 0;
        while i < xs.len()
            invariant
                0 <= i <= xs@.len(),
                parts@.len() == i,
                forall|j: int| 0 <= j < i ==> (#[trigger] parts@[j])@ == xs@[j].one_text(),
            decreases xs@.len() - i,
        {
            parts.push(xs[i].to_string_one());
            i += 1;
        }
        proof {
            assert(texts(parts@) =~= Seq::new(xs@.len(), |i: int| xs@[i].one_text()));
        }
        proof {
            reveal_strlit(" ");
            assert(" "@ =~= seq![' ']);
        }
        let inner = join_strings(&parts, " ");
        let mut ret = String::new();
        push_char(&mut ret, '(');
        ret.append(inner.as_str());
        push_char(&mut ret, ')');
        assert(ret@ =~= seq!['('] + inner@ + seq![')']);
        ret
    }
}

/// The blocks without their numbers of copies: of each only whether it
/// stands more than once.
pub fn strip_reps(rep_blocks: Vec<RepBlock<Trans>>) -> (r: Vec<StrippedBlock>)
    ensures
        r@.len() == rep_blocks@.len(),
        forall|i: int|
            0 <= i < r@.len() ==> trans_views((#[trigger] r@[i]).block@) == trans_views(
                rep_blocks@[i].block@,
            ) && r@[i].is_rep == (rep_blocks@[i].rep > 1),
{
    let mut out: Vec<StrippedBlock> = Vec::new();
    let mut i: usize = 0;
    while i < rep_blocks.len()
        invariant
            0 <= i <= rep_blocks@.len(),
            out@.len() == i,
            forall|j: int|
                0 <= j < i ==> trans_views((#[trigger] out@[j]).block@) == trans_views(
                    rep_blocks@[j].block@,
                ) && out@[j].is_rep == (rep_blocks@[j].rep > 1),
        decreases rep_blocks@.len() - i,
    {
        let r = &rep_blocks[i];
        out.push(StrippedBlock { block: clone_block(&r.block), is_rep: r.rep > 1 });
        i += 1;
    }
    out
}

/// The register at which the `k`-th instruction fails on `regs`.
pub open spec fn blocked_at(prog: Seq<Seq<int>>, regs: Seq<int>, k: int) -> int {
    first_blocked(prog[k], regs, 0)
}

/// Every entry of a transition of the machine names a register, at which
/// the instruction of the entry fails.
pub proof fn lemma_trans_names_registers(prog: Seq<Seq<int>>, regs: Seq<int>)
    requires
        regs.len() <= usize::MAX,
    ensures
        trans_of(prog, regs).len() == fired(prog, regs),
        forall|k: int|
            0 <= k < fired(prog, regs) ==> 0 <= #[trigger] blocked_at(prog, regs, k) < regs.len(),
        forall|k: int|
            0 <= k < fired(prog, regs) ==> trans_of(prog, regs)[k] == #[trigger] blocked_at(
                prog,
                regs,
                k,
            ),
        forall|k: int|
            0 <= k < fired(prog, regs) ==> regs[#[trigger] blocked_at(prog, regs, k)]
                + prog[k][blocked_at(prog, regs, k)] < 0,
{
    lemma_first_applicable(prog, regs, 0);
    assert forall|k: int| 0 <= k < fired(prog, regs) implies 0 <= #[trigger] blocked_at(
        prog,
        regs,
        k,
    ) < regs.len() && trans_of(prog, regs)[k] == blocked_at(prog, regs, k) && regs[blocked_at(
        prog,
        regs,
        k,
    )] + prog[k][blocked_at(prog, regs, k)] < 0 by {
        assert(!guard_holds(prog[k], regs));
        lemma_guard_iff_unblocked(prog[k], regs);
        lemma_first_blocked(prog[k], regs, 0);
    }
}

/// The `k`-th transition of a transcript is the transition of the machine
/// on the state after `k` steps, on which the machine does not halt.
pub proof fn lemma_transcript_entry(prog: Seq<Seq<int>>, regs: Seq<int>, n: nat, k: int)
    requires
        0 <= k < transcript_of(prog, regs, n).len(),
    ensures
        run_of(prog, regs, k as nat) is Some,
        !halts_at(prog, run_of(prog, regs, k as nat).unwrap()),
        transcript_of(prog, regs, n)[k] == trans_of(prog, run_of(prog, regs, k as nat).unwrap()),
    decreases n,
{
    let next = step_of(prog, regs);
    let tail = transcript_of(prog, next, (n - 1) as nat);
    assert(transcript_of(prog, regs, n) == seq![trans_of(prog, regs)] + tail);
    assert(run_of(prog, regs, 0) == Some(regs));
    if k > 0 {
        assert(transcript_of(prog, regs, n)[k] == tail[k - 1]);
        lemma_transcript_entry(prog, next, (n - 1) as nat, k - 1);
        assert(run_of(prog, regs, 1) == Some(next));
        lemma_run_add(prog, regs, 1, (k - 1) as nat);
        assert(1 + (k - 1) as nat == k as nat);
    }
}

/// A transcript has a transition for each step that the machine makes, up
/// to the number that was asked for: it is shorter only when the machine
/// halts, on the state after as many steps as the transcript is long.
pub proof fn law_transcript_length(prog: Seq<Seq<int>>, regs: Seq<int>, n: nat)
    ensures
        transcript_of(prog, regs, n).len() <= n,
        run_of(prog, regs, transcript_of(prog, regs, n).len()) is Some,
        transcript_of(prog, regs, n).len() < n ==> halts_at(
            prog,
            run_of(prog, regs, transcript_of(prog, regs, n).len()).unwrap(),
        ),
    decreases n,
{
    assert(run_of(prog, regs, 0) == Some(regs));
    if n > 0 && !halts_at(prog, regs) {
        let next = step_of(prog, regs);
        let tail = transcript_of(prog, next, (n - 1) as nat);
        law_transcript_length(prog, next, (n - 1) as nat);
        assert(transcript_of(prog, regs, n) == seq![trans_of(prog, regs)] + tail);
        assert(run_of(prog, regs, 1) == Some(next));
        lemma_run_add(prog, regs, 1, tail.len());
    }
}

} // verus!

//! Closed unions of boxes.
//!
//! A union of boxes is closed when the machine, on every state of it, makes
//! a step, and the step leads to a state of it again. A machine that is
//! started inside a closed union never leaves it, and so never halts.
use vstd::prelude::*;
use crate::program::{
    fired, guard_holds, halts_at, lemma_fired_is, lemma_first_applicable, lemma_run_add, run_of,
    shifted, step_of, Program, SmallInt,
};
use crate::vec_set::{
    box_can_pass, box_contains, box_failures, box_failures_at, box_failures_upto, box_fits,
    box_is_subset, box_success, box_successors, instr_views, is_covered,
    law_split_apply_partitions, successors_fit, successors_of_all, uncovered, uniform,
    union_contains, union_of, unshifted, NatSet, Range, UnionVecSet,
};

verus! {

/// The mathematical content of a [`ClosureResult`].
pub enum ClosureOutcome {
    ContainsHalt,
    Closed(Seq<Seq<Range>>),
    GaveUp(Seq<Seq<Range>>),
}

/// How the search for a closed union ended.
#[derive(Debug, PartialEq)]
pub enum ClosureResult {
    /// A state on which the machine halts was reached.
    ContainsHalt,
    /// The union is closed under the machine's step.
    Closed(UnionVecSet),
    /// The union did not close within the given number of rounds; it is
    /// returned as far as it had grown.
    GaveUp(UnionVecSet),
}

impl View for ClosureResult {
    type V = ClosureOutcome;

    open spec fn view(&self) -> ClosureOutcome {
        match *self {
            ClosureResult::ContainsHalt => ClosureOutcome::ContainsHalt,
            ClosureResult::Closed(u) => ClosureOutcome::Closed(u@),
            ClosureResult::GaveUp(u) => ClosureOutcome::GaveUp(u@),
        }
    }
}

/// The search from a union `result` of which the boxes of `frontier` have
/// been added last, for at most `iters` rounds. A round takes the
/// successors of the frontier. It ends the search with a halt when the
/// machine halts on a state of the frontier, and with a closed union when
/// `result` covers every successor; else the successors that are not
/// covered are the next frontier.
pub open spec fn closure_from(
    prog: Seq<Seq<int>>,
    result: Seq<Seq<Range>>,
    frontier: Seq<Seq<Range>>,
    iters: nat,
) -> ClosureOutcome
    decreases iters,
{
    if iters == 0 {
        ClosureOutcome::GaveUp(result)
    } else {
        match successors_of_all(frontier, prog, 0, frontier.len() as int) {
            None => ClosureOutcome::ContainsHalt,
            Some(succ) => {
                let next = uncovered(succ, result, succ.len() as int);
                if next.len() == 0 {
                    ClosureOutcome::Closed(union_of(result, frontier))
                } else {
                    closure_from(prog, union_of(result, frontier), next, (iters - 1) as nat)
                }
            },
        }
    }
}

/// Whether the search can be made in machine integers.
pub open spec fn closure_fits(
    prog: Seq<Seq<int>>,
    result: Seq<Seq<Range>>,
    frontier: Seq<Seq<Range>>,
    iters: nat,
) -> bool
    decreases iters,
{
    if iters == 0 {
        true
    } else {
        &&& forall|j: int| 0 <= j < frontier.len() ==> successors_fit(#[trigger] frontier[j], prog, 0)
        &&& match successors_of_all(frontier, prog, 0, frontier.len() as int) {
            None => true,
            Some(succ) => {
                let next = uncovered(succ, result, succ.len() as int);
                next.len() == 0 || closure_fits(
                    prog,
                    union_of(result, frontier),
                    next,
                    (iters - 1) as nat,
                )
            },
        }
    }
}

/// Whether every instruction of `prog` has `size` entries.
pub open spec fn sized(prog: Seq<Seq<int>>, size: nat) -> bool {
    forall|k: int| 0 <= k < prog.len() ==> (#[trigger] prog[k]).len() == size
}

/// Whether the machine makes a step on every state of `boxes`, and the
/// step leads to a state of `boxes`.
pub open spec fn is_closed(prog: Seq<Seq<int>>, boxes: Seq<Seq<Range>>) -> bool {
    forall|regs: Seq<int>| #[trigger]
        union_contains(boxes, regs) ==> !halts_at(prog, regs) && union_contains(
            boxes,
            step_of(prog, regs),
        )
}

/// Whether every state of `a` is a state of `b`.
pub open spec fn union_within(a: Seq<Seq<Range>>, b: Seq<Seq<Range>>) -> bool {
    forall|regs: Seq<int>| #[trigger] union_contains(a, regs) ==> union_contains(b, regs)
}

/// A box that is a subset of another, set by set, holds only states of the
/// other.
pub proof fn lemma_box_subset(a: Seq<Range>, b: Seq<Range>, regs: Seq<int>)
    requires
        a.len() == b.len(),
        box_is_subset(a, b),
        box_contains(a, regs),
    ensures
        box_contains(b, regs),
{
    assert forall|i: int| 0 <= i < b.len() implies (#[trigger] b[i]).contains(regs[i]) by {
        assert(a[i].is_subset(b[i]));
        a[i].lemma_is_subset(b[i]);
        assert(a[i].contains(regs[i]));
    }
}

/// The boxes that are kept are among the boxes, and with the cover they
/// hold every state of the boxes.
pub proof fn lemma_uncovered(boxes: Seq<Seq<Range>>, cover: Seq<Seq<Range>>, upto: int, size: nat)
    requires
        0 <= upto <= boxes.len(),
        uniform(boxes, size),
        uniform(cover, size),
    ensures
        uniform(uncovered(boxes, cover, upto), size),
        forall|regs: Seq<int>| #[trigger]
            union_contains(uncovered(boxes, cover, upto), regs) ==> exists|j: int|
                0 <= j < upto && box_contains(#[trigger] boxes[j], regs),
        forall|j: int, regs: Seq<int>|
            0 <= j < upto && #[trigger] box_contains(boxes[j], regs) ==> union_contains(cover, regs)
                || union_contains(uncovered(boxes, cover, upto), regs),
    decreases upto,
{
    if upto > 0 {
        let last = upto - 1;
        lemma_uncovered(boxes, cover, last, size);
        let before = uncovered(boxes, cover, last);
        let now = uncovered(boxes, cover, upto);
        if is_covered(boxes[last], cover) {
            let c = choose|c: int| 0 <= c < cover.len() && box_is_subset(boxes[last], #[trigger] cover[c]);
            assert forall|j: int, regs: Seq<int>|
                0 <= j < upto && #[trigger] box_contains(boxes[j], regs) implies union_contains(
                cover,
                regs,
            ) || union_contains(now, regs) by {
                if j == last {
                    lemma_box_subset(boxes[last], cover[c], regs);
                    assert(box_contains(cover[c], regs));
                }
            }
        } else {
            assert(now == before.push(boxes[last]));
            assert forall|regs: Seq<int>| #[trigger] union_contains(now, regs) implies exists|j: int|
                0 <= j < upto && box_contains(#[trigger] boxes[j], regs) by {
                let w = choose|w: int| 0 <= w < now.len() && box_contains(#[trigger] now[w], regs);
                if w < before.len() {
                    assert(now[w] == before[w]);
                    assert(union_contains(before, regs));
                } else {
                    assert(now[w] == boxes[last]);
                }
            }
            assert forall|j: int, regs: Seq<int>|
                0 <= j < upto && #[trigger] box_contains(boxes[j], regs) implies union_contains(
                cover,
                regs,
            ) || union_contains(now, regs) by {
                if j == last {
                    assert(now[before.len() as int] == boxes[last]);
                    assert(union_contains(now, regs));
                } else if !union_contains(cover, regs) {
                    assert(union_contains(before, regs));
                    let w = choose|w: int|
                        0 <= w < before.len() && box_contains(#[trigger] before[w], regs);
                    assert(now[w] == before[w]);
                    assert(union_contains(now, regs));
                }
            }
        }
    }
}

/// The union of two unions of boxes holds the states of both and no
/// others.
pub proof fn lemma_union_of(a: Seq<Seq<Range>>, b: Seq<Seq<Range>>, size: nat)
    requires
        uniform(a, size),
        uniform(b, size),
    ensures
        uniform(union_of(a, b), size),
        forall|regs: Seq<int>| #[trigger]
            union_contains(union_of(a, b), regs) <==> union_contains(a, regs) || union_contains(
                b,
                regs,
            ),
{
    lemma_uncovered(b, a, b.len() as int, size);
    let extra = uncovered(b, a, b.len() as int);
    let all = union_of(a, b);
    assert forall|regs: Seq<int>| #[trigger]
        union_contains(all, regs) <==> union_contains(a, regs) || union_contains(b, regs) by {
        if union_contains(all, regs) {
            let w = choose|w: int| 0 <= w < all.len() && box_contains(#[trigger] all[w], regs);
            if w < a.len() {
                assert(all[w] == a[w]);
            } else {
                assert(all[w] == extra[w - a.len()]);
                assert(union_contains(extra, regs));
            }
        }
        if union_contains(a, regs) {
            let w = choose|w: int| 0 <= w < a.len() && box_contains(#[trigger] a[w], regs);
            assert(all[w] == a[w]);
        }
        if union_contains(b, regs) && !union_contains(a, regs) {
            let w = choose|w: int| 0 <= w < b.len() && box_contains(#[trigger] b[w], regs);
            assert(union_contains(extra, regs));
            let x = choose|x: int| 0 <= x < extra.len() && box_contains(#[trigger] extra[x], regs);
            assert(all[a.len() + x] == extra[x]);
        }
    }
}

/// The successors of some boxes hold the successors of each of them.
pub proof fn lemma_successors_of_all_part(
    boxes: Seq<Seq<Range>>,
    prog: Seq<Seq<int>>,
    k: int,
    upto: int,
    j: int,
)
    requires
        0 <= j < upto <= boxes.len(),
        successors_of_all(boxes, prog, k, upto) is Some,
    ensures
        box_successors(boxes[j], prog, k) is Some,
        union_within(
            box_successors(boxes[j], prog, k).unwrap(),
            successors_of_all(boxes, prog, k, upto).unwrap(),
        ),
    decreases upto,
{
    let all = successors_of_all(boxes, prog, k, upto).unwrap();
    let head = successors_of_all(boxes, prog, k, upto - 1).unwrap();
    let tail = box_successors(boxes[upto - 1], prog, k).unwrap();
    assert(all == head + tail);
    if j == upto - 1 {
        assert forall|regs: Seq<int>| #[trigger] union_contains(tail, regs) implies union_contains(
            all,
            regs,
        ) by {
            let w = choose|w: int| 0 <= w < tail.len() && box_contains(#[trigger] tail[w], regs);
            assert(all[head.len() + w] == tail[w]);
        }
    } else {
        lemma_successors_of_all_part(boxes, prog, k, upto - 1, j);
        let part = box_successors(boxes[j], prog, k).unwrap();
        assert forall|regs: Seq<int>| #[trigger] union_contains(part, regs) implies union_contains(
            all,
            regs,
        ) by {
            assert(union_contains(head, regs));
            let w = choose|w: int| 0 <= w < head.len() && box_contains(#[trigger] head[w], regs);
            assert(all[w] == head[w]);
        }
    }
}

/// The successors of a box have as many registers as the box.
pub proof fn lemma_successors_uniform(b: Seq<Range>, prog: Seq<Seq<int>>, k: int, size: nat)
    requires
        0 <= k,
        b.len() == size,
        sized(prog, size),
    ensures
        box_successors(b, prog, k) matches Some(list) ==> uniform(list, size),
    decreases prog.len() - k, 0int,
{
    if k < prog.len() {
        let failures = box_failures(b, prog[k]);
        assert(uniform(failures, size)) by {
            lemma_failures_uniform(b, prog[k], b.len() as int);
        }
        lemma_successors_of_all_uniform(failures, prog, k + 1, failures.len() as int, size);
    }
}

/// The failure boxes of a box have as many registers as the box.
pub proof fn lemma_failures_uniform(b: Seq<Range>, delta: Seq<int>, upto: int)
    requires
        0 <= upto <= b.len(),
    ensures
        uniform(box_failures_upto(b, delta, upto), b.len()),
        upto == b.len() ==> uniform(box_failures(b, delta), b.len()),
    decreases upto,
{
    if upto > 0 {
        lemma_failures_uniform(b, delta, upto - 1);
        let before = box_failures_upto(b, delta, upto - 1);
        let here = box_failures_at(b, delta, upto - 1);
        let all = box_failures_upto(b, delta, upto);
        assert forall|j: int| 0 <= j < all.len() implies (#[trigger] all[j]).len() == b.len() by {
            if j < before.len() {
                assert(all[j] == before[j]);
            } else {
                assert(all[j] == here[j - before.len()]);
            }
        }
    }
}

/// The successors of boxes of one size have that size.
pub proof fn lemma_successors_of_all_uniform(
    boxes: Seq<Seq<Range>>,
    prog: Seq<Seq<int>>,
    k: int,
    upto: int,
    size: nat,
)
    requires
        0 <= k,
        0 <= upto <= boxes.len(),
        uniform(boxes, size),
        sized(prog, size),
    ensures
        successors_of_all(boxes, prog, k, upto) matches Some(list) ==> uniform(list, size),
    decreases prog.len() - k, 1 + upto,
{
    if upto > 0 {
        lemma_successors_of_all_uniform(boxes, prog, k, upto - 1, size);
        lemma_successors_uniform(boxes[upto - 1], prog, k, size);
        if let Some(all) = successors_of_all(boxes, prog, k, upto) {
            let head = successors_of_all(boxes, prog, k, upto - 1).unwrap();
            let tail = box_successors(boxes[upto - 1], prog, k).unwrap();
            assert forall|j: int| 0 <= j < all.len() implies (#[trigger] all[j]).len() == size by {
                if j < head.len() {
                    assert(all[j] == head[j]);
                } else {
                    assert(all[j] == tail[j - head.len()]);
                }
            }
        }
    }
}

/// The successors of a box hold the next state of each of its states: on
/// a state of `b` on which no instruction before the `k`-th may fire, the
/// machine makes a step, and the step leads into the successors of `b`
/// under the instructions from the `k`-th on.
pub proof fn lemma_successors_sound(b: Seq<Range>, prog: Seq<Seq<int>>, k: int, regs: Seq<int>)
    requires
        0 <= k,
        sized(prog, b.len()),
        box_contains(b, regs),
        forall|e: int| 0 <= e < k && e < prog.len() ==> !guard_holds(#[trigger] prog[e], regs),
        box_successors(b, prog, k) is Some,
    ensures
        !halts_at(prog, regs),
        union_contains(box_successors(b, prog, k).unwrap(), step_of(prog, regs)),
    decreases prog.len() - k,
{
    let list = box_successors(b, prog, k).unwrap();
    let delta = prog[k];
    let failures = box_failures(b, delta);
    let after = successors_of_all(failures, prog, k + 1, failures.len() as int).unwrap();
    law_split_apply_partitions(b, delta);
    lemma_first_applicable(prog, regs, 0);
    if guard_holds(delta, regs) {
        assert(fired(prog, regs) == k);
        let sb = box_success(b, delta).unwrap();
        assert(list == after.push(sb));
        assert(box_contains(sb, shifted(regs, delta)));
        assert(list[after.len() as int] == sb);
    } else {
        let j = choose|j: int| 0 <= j < failures.len() && box_contains(#[trigger] failures[j], regs);
        lemma_failures_uniform(b, delta, b.len() as int);
        lemma_successors_of_all_part(failures, prog, k + 1, failures.len() as int, j);
        lemma_successors_sound(failures[j], prog, k + 1, regs);
        let part = box_successors(failures[j], prog, k + 1).unwrap();
        assert(union_contains(part, step_of(prog, regs)));
        assert(union_contains(after, step_of(prog, regs)));
        let w = choose|w: int|
            0 <= w < after.len() && box_contains(#[trigger] after[w], step_of(prog, regs));
        assert(list[w] == after[w]);
    }
}

/// What holds of the search while it runs: the states of `result` that are
/// not in the frontier step into `result` or the frontier.
pub open spec fn settled(prog: Seq<Seq<int>>, result: Seq<Seq<Range>>, frontier: Seq<Seq<Range>>) -> bool {
    forall|regs: Seq<int>| #[trigger]
        union_contains(result, regs) ==> union_contains(frontier, regs) || (!halts_at(prog, regs)
            && (union_contains(result, step_of(prog, regs)) || union_contains(
            frontier,
            step_of(prog, regs),
        )))
}

/// Whether the machine steps from every state of `from` into `a` or `b`.
pub open spec fn steps_into(
    prog: Seq<Seq<int>>,
    from: Seq<Seq<Range>>,
    a: Seq<Seq<Range>>,
    b: Seq<Seq<Range>>,
) -> bool {
    forall|regs: Seq<int>| #[trigger]
        union_contains(from, regs) ==> !halts_at(prog, regs) && (union_contains(
            a,
            step_of(prog, regs),
        ) || union_contains(b, step_of(prog, regs)))
}

/// Whether `all` holds the states of `a` and of `b` and no others.
pub open spec fn joins(all: Seq<Seq<Range>>, a: Seq<Seq<Range>>, b: Seq<Seq<Range>>) -> bool {
    forall|regs: Seq<int>| #[trigger]
        union_contains(all, regs) <==> union_contains(a, regs) || union_contains(b, regs)
}

/// From the states of the frontier the machine steps into `result` or into
/// the successors that `result` does not cover.
pub proof fn lemma_frontier_steps(
    prog: Seq<Seq<int>>,
    result: Seq<Seq<Range>>,
    frontier: Seq<Seq<Range>>,
    size: nat,
)
    requires
        sized(prog, size),
        uniform(result, size),
        uniform(frontier, size),
        successors_of_all(frontier, prog, 0, frontier.len() as int) is Some,
    ensures
        steps_into(
            prog,
            frontier,
            result,
            uncovered(
                successors_of_all(frontier, prog, 0, frontier.len() as int).unwrap(),
                result,
                successors_of_all(frontier, prog, 0, frontier.len() as int).unwrap().len() as int,
            ),
        ),
{
    let succ = successors_of_all(frontier, prog, 0, frontier.len() as int).unwrap();
    let next = uncovered(succ, result, succ.len() as int);
    lemma_successors_of_all_uniform(frontier, prog, 0, frontier.len() as int, size);
    lemma_uncovered(succ, result, succ.len() as int, size);
    assert forall|regs: Seq<int>| #[trigger] union_contains(frontier, regs) implies !halts_at(
        prog,
        regs,
    ) && (union_contains(result, step_of(prog, regs)) || union_contains(
        next,
        step_of(prog, regs),
    )) by {
        let j = choose|j: int| 0 <= j < frontier.len() && box_contains(#[trigger] frontier[j], regs);
        lemma_successors_of_all_part(frontier, prog, 0, frontier.len() as int, j);
        lemma_successors_sound(frontier[j], prog, 0, regs);
        let to = step_of(prog, regs);
        assert(union_contains(box_successors(frontier[j], prog, 0).unwrap(), to));
        assert(union_contains(succ, to));
        let w = choose|w: int| 0 <= w < succ.len() && box_contains(#[trigger] succ[w], to);
        assert(box_contains(succ[w], to));
    }
}

/// When every successor of the frontier is covered, `result` and the
/// frontier together are closed.
pub proof fn lemma_round_closes(
    prog: Seq<Seq<int>>,
    result: Seq<Seq<Range>>,
    frontier: Seq<Seq<Range>>,
    next: Seq<Seq<Range>>,
    grown: Seq<Seq<Range>>,
)
    requires
        settled(prog, result, frontier),
        steps_into(prog, frontier, result, next),
        joins(grown, result, frontier),
        next.len() == 0,
    ensures
        is_closed(prog, grown),
        union_within(result, grown),
{
    assert forall|regs: Seq<int>| #[trigger] union_contains(grown, regs) implies !halts_at(
        prog,
        regs,
    ) && union_contains(grown, step_of(prog, regs)) by {
        let to = step_of(prog, regs);
        assert(union_contains(result, regs) || union_contains(frontier, regs));
        if union_contains(frontier, regs) {
            assert(!union_contains(next, to));
            assert(union_contains(result, to));
        } else {
            assert(union_contains(result, regs));
            assert(union_contains(result, to) || union_contains(frontier, to));
        }
        assert(union_contains(grown, to));
    }
    assert forall|regs: Seq<int>| #[trigger] union_contains(result, regs) implies union_contains(
        grown,
        regs,
    ) by {}
}

/// After a round that does not close, the states that have been dealt
/// with step into the grown union or the next frontier.
pub proof fn lemma_round_settles(
    prog: Seq<Seq<int>>,
    result: Seq<Seq<Range>>,
    frontier: Seq<Seq<Range>>,
    next: Seq<Seq<Range>>,
    grown: Seq<Seq<Range>>,
)
    requires
        settled(prog, result, frontier),
        steps_into(prog, frontier, result, next),
        joins(grown, result, frontier),
    ensures
        settled(prog, grown, next),
        union_within(result, grown),
{
    assert forall|regs: Seq<int>| #[trigger] union_contains(grown, regs) implies union_contains(
        next,
        regs,
    ) || (!halts_at(prog, regs) && (union_contains(grown, step_of(prog, regs)) || union_contains(
        next,
        step_of(prog, regs),
    ))) by {
        let to = step_of(prog, regs);
        assert(union_contains(result, regs) || union_contains(frontier, regs));
        if union_contains(frontier, regs) {
            assert(union_contains(result, to) || union_contains(next, to));
        } else {
            assert(union_contains(result, regs));
            assert(union_contains(result, to) || union_contains(frontier, to));
        }
        if !union_contains(next, to) {
            assert(union_contains(grown, to));
        }
    }
    assert forall|regs: Seq<int>| #[trigger] union_contains(result, regs) implies union_contains(
        grown,
        regs,
    ) by {}
}

/// A search that ends with a closed union has found one that holds the
/// states it started from.
pub proof fn lemma_closure_sound(
    prog: Seq<Seq<int>>,
    result: Seq<Seq<Range>>,
    frontier: Seq<Seq<Range>>,
    iters: nat,
    size: nat,
)
    requires
        sized(prog, size),
        uniform(result, size),
        uniform(frontier, size),
        settled(prog, result, frontier),
    ensures
        closure_from(prog, result, frontier, iters) matches ClosureOutcome::Closed(u) ==> is_closed(
            prog,
            u,
        ) && union_within(result, u),
    decreases iters,
{
    if iters > 0 {
        if let Some(succ) = successors_of_all(frontier, prog, 0, frontier.len() as int) {
            let next = uncovered(succ, result, succ.len() as int);
            let grown = union_of(result, frontier);
            lemma_frontier_steps(prog, result, frontier, size);
            lemma_union_of(result, frontier, size);
            assert(joins(grown, result, frontier));
            if next.len() == 0 {
                lemma_round_closes(prog, result, frontier, next, grown);
            } else {
                lemma_successors_of_all_uniform(frontier, prog, 0, frontier.len() as int, size);
                lemma_uncovered(succ, result, succ.len() as int, size);
                lemma_round_settles(prog, result, frontier, next, grown);
                lemma_closure_sound(prog, grown, next, (iters - 1) as nat, size);
                if let ClosureOutcome::Closed(u) = closure_from(prog, result, frontier, iters) {
                    lemma_within_trans(result, grown, u);
                }
            }
        }
    }
}

/// Being within is transitive.
pub proof fn lemma_within_trans(a: Seq<Seq<Range>>, b: Seq<Seq<Range>>, c: Seq<Seq<Range>>)
    requires
        union_within(a, b),
        union_within(b, c),
    ensures
        union_within(a, c),
{
}

/// A search that ends with a closed union proves that the machine never
/// halts from the states it started from: the union that it returns holds
/// every state of the seed, and is closed under the machine's step.
pub proof fn law_closed_is_invariant(prog: Seq<Seq<int>>, seed: Seq<Seq<Range>>, iters: nat, size: nat)
    requires
        sized(prog, size),
        uniform(seed, size),
    ensures
        closure_from(prog, seed, seed, iters) matches ClosureOutcome::Closed(u) ==> is_closed(
            prog,
            u,
        ) && union_within(seed, u),
{
    lemma_closure_sound(prog, seed, seed, iters, size);
}

/// From a state of a closed union the machine makes any number of steps
/// without halting, and stays inside the union.
pub proof fn law_closed_never_halts(prog: Seq<Seq<int>>, boxes: Seq<Seq<Range>>, regs: Seq<int>, n: nat)
    requires
        is_closed(prog, boxes),
        union_contains(boxes, regs),
    ensures
        run_of(prog, regs, n) is Some,
        union_contains(boxes, run_of(prog, regs, n).unwrap()),
        !halts_at(prog, run_of(prog, regs, n).unwrap()),
    decreases n,
{
    if n > 0 {
        law_closed_never_halts(prog, boxes, regs, (n - 1) as nat);
    }
}

/// Grows `set` by the successors of its states, round by round, until it
/// is closed, a state is found on which the machine halts, or `num_iters`
/// rounds have been made.
pub fn closure(prog: &Program, set: &UnionVecSet, num_iters: usize) -> (r: ClosureResult)
    requires
        prog.wf(),
        uniform(set@, prog.num_registers_spec()),
        closure_fits(prog@, set@, set@, num_iters as nat),
    ensures
        r@ == closure_from(prog@, set@, set@, num_iters as nat),
        r matches ClosureResult::Closed(u) ==> is_closed(prog@, u@) && union_within(set@, u@),
        r is ContainsHalt ==> halt_reached(prog@, set@, num_iters as nat),
{
    let ghost size = prog.num_registers_spec();
    let instrs = prog.instrs.as_slice();
    assert(instr_views(instrs@) =~= prog@);
    assert(sized(prog@, size));
    let mut result = set.clone();
    let mut frontier = set.clone();
    let mut i: usize = 0;
    while i < num_iters
        invariant
            0 <= i <= num_iters,
            instr_views(instrs@) == prog@,
            sized(prog@, size),
            uniform(result@, size),
            uniform(frontier@, size),
            uniform(set@, size),
            closure_fits(prog@, result@, frontier@, (num_iters - i) as nat),
            closure_from(prog@, set@, set@, num_iters as nat) == closure_from(
                prog@,
                result@,
                frontier@,
                (num_iters - i) as nat,
            ),
        decreases num_iters - i,
    {
        proof {
            lemma_successors_of_all_uniform(frontier@, prog@, 0, frontier@.len() as int, size);
            lemma_union_of(result@, frontier@, size);
        }
        match frontier.successors(instrs) {
            None => {
                proof {
                    law_halt_is_real(prog@, set@, num_iters as nat, size);
                }
                return ClosureResult::ContainsHalt;
            },
            Some(succ) => {
                proof {
                    lemma_uncovered(succ@, result@, succ@.len() as int, size);
                }
                let next = succ.minus_covered(&result);
                if next.is_empty() {
                    proof {
                        law_closed_is_invariant(prog@, set@, num_iters as nat, size);
                    }
                    return ClosureResult::Closed(result.union(frontier));
                }
                result = result.union(frontier);
                frontier = next;
            },
        }
        i += 1;
    }
    ClosureResult::GaveUp(result)
}

/// Whether the least members of the sets of `b` are natural numbers of at
/// most `m`.
pub open spec fn box_below(b: Seq<Range>, m: int) -> bool {
    forall|i: int| 0 <= i < b.len() ==> 0 <= (#[trigger] b[i]).least() <= m
}

/// Whether every box of `boxes` is below `m`.
pub open spec fn all_below(boxes: Seq<Seq<Range>>, m: int) -> bool {
    forall|j: int| 0 <= j < boxes.len() ==> box_below(#[trigger] boxes[j], m)
}

/// Whether no entry of `delta` exceeds `d` in magnitude.
pub open spec fn delta_within(delta: Seq<int>, d: int) -> bool {
    forall|i: int| 0 <= i < delta.len() ==> -d <= #[trigger] delta[i] <= d
}

/// Whether no entry of an instruction of `prog` exceeds `d` in magnitude.
pub open spec fn prog_within(prog: Seq<Seq<int>>, d: int) -> bool {
    forall|k: int| 0 <= k < prog.len() ==> delta_within(#[trigger] prog[k], d)
}

/// The failure boxes of a box below `m` are below `m`, for an instruction
/// of entries up to `m`.
pub proof fn lemma_failures_below(b: Seq<Range>, delta: Seq<int>, m: int, upto: int)
    requires
        b.len() == delta.len(),
        0 <= upto <= b.len(),
        box_below(b, m),
        delta_within(delta, m),
    ensures
        all_below(box_failures_upto(b, delta, upto), m),
        upto == b.len() ==> all_below(box_failures(b, delta), m),
    decreases upto,
{
    if upto > 0 {
        let last = upto - 1;
        lemma_failures_below(b, delta, m, last);
        let before = box_failures_upto(b, delta, last);
        let here = box_failures_at(b, delta, last);
        let all = box_failures_upto(b, delta, upto);
        assert forall|j: int| 0 <= j < all.len() implies box_below(#[trigger] all[j], m) by {
            if j < before.len() {
                assert(all[j] == before[j]);
            } else {
                let k = j - before.len();
                let f = here[k];
                assert(all[j] == f);
                b[last].law_split_add_partitions(delta[last]);
                assert(b[last].add_failure(delta[last])[k] == Range::Fixed(b[last].least() + k));
                assert(-m <= delta[last] <= m);
                assert forall|i: int| 0 <= i < f.len() implies 0 <= (#[trigger] f[i]).least()
                    <= m by {
                    if i != last {
                        assert(f[i] == b[i]);
                    }
                }
            }
        }
    }
    if upto == b.len() && !box_can_pass(b, delta) {
        assert(box_failures(b, delta)[0] == b);
    }
}

/// The success box of a box below `m` is below `m + d`, for an
/// instruction of entries up to `d`.
pub proof fn lemma_success_below(b: Seq<Range>, delta: Seq<int>, m: int, d: int)
    requires
        b.len() == delta.len(),
        box_below(b, m),
        delta_within(delta, d),
        0 <= d,
    ensures
        box_success(b, delta) matches Some(sb) ==> box_below(sb, m + d) && sb.len() == b.len(),
{
    if let Some(sb) = box_success(b, delta) {
        assert forall|i: int| 0 <= i < sb.len() implies 0 <= (#[trigger] sb[i]).least() <= m + d by {
            assert(0 <= b[i].least() <= m);
            assert(-d <= delta[i] <= d);
            assert(b[i].add_success(delta[i]) is Some);
        }
    }
}

/// The successors of a box below `m` can be computed in machine integers,
/// and are below `m + d`, when the instructions have entries up to `d`,
/// `d` is at most `m`, and `m + d` is a small machine integer.
pub proof fn lemma_successors_below(
    b: Seq<Range>,
    prog: Seq<Seq<int>>,
    k: int,
    m: int,
    d: int,
    size: nat,
)
    requires
        0 <= k,
        b.len() == size,
        sized(prog, size),
        box_below(b, m),
        prog_within(prog, d),
        0 <= d <= m,
        m + d <= SmallInt::MAX,
    ensures
        successors_fit(b, prog, k),
        box_successors(b, prog, k) matches Some(list) ==> all_below(list, m + d),
    decreases prog.len() - k, 0int,
{
    if k < prog.len() {
        let delta = prog[k];
        let failures = box_failures(b, delta);
        assert(delta_within(delta, d));
        assert(delta_within(delta, m)) by {
            assert forall|i: int| 0 <= i < delta.len() implies -m <= #[trigger] delta[i] <= m by {
                assert(-d <= delta[i] <= d);
            }
        }
        lemma_failures_below(b, delta, m, b.len() as int);
        lemma_failures_uniform(b, delta, b.len() as int);
        lemma_success_below(b, delta, m, d);
        assert(box_fits(b, delta)) by {
            assert forall|i: int| 0 <= i < b.len() implies delta[i] > SmallInt::MIN && (
            #[trigger] b[i]).least() + delta[i] <= SmallInt::MAX by {
                assert(-d <= delta[i] <= d);
                assert(0 <= b[i].least() <= m);
            }
        }
        lemma_successors_of_all_below(failures, prog, k + 1, failures.len() as int, m, d, size);
        assert forall|j: int| 0 <= j < failures.len() implies successors_fit(
            #[trigger] failures[j],
            prog,
            k + 1,
        ) by {
            lemma_successors_below(failures[j], prog, k + 1, m, d, size);
        }
        if let Some(list) = box_successors(b, prog, k) {
            let after = successors_of_all(failures, prog, k + 1, failures.len() as int).unwrap();
            assert forall|j: int| 0 <= j < list.len() implies box_below(#[trigger] list[j], m + d) by {
                if j < after.len() {
                    assert(list[j] == after[j]);
                }
            }
        }
    }
}

/// The successors of boxes below `m` are below `m + d`: see
/// [`lemma_successors_below`].
pub proof fn lemma_successors_of_all_below(
    boxes: Seq<Seq<Range>>,
    prog: Seq<Seq<int>>,
    k: int,
    upto: int,
    m: int,
    d: int,
    size: nat,
)
    requires
        0 <= k,
        0 <= upto <= boxes.len(),
        uniform(boxes, size),
        sized(prog, size),
        all_below(boxes, m),
        prog_within(prog, d),
        0 <= d <= m,
        m + d <= SmallInt::MAX,
    ensures
        successors_of_all(boxes, prog, k, upto) matches Some(list) ==> all_below(list, m + d),
    decreases prog.len() - k, 1 + upto,
{
    if upto > 0 {
        lemma_successors_of_all_below(boxes, prog, k, upto - 1, m, d, size);
        lemma_successors_below(boxes[upto - 1], prog, k, m, d, size);
        if let Some(all) = successors_of_all(boxes, prog, k, upto) {
            let head = successors_of_all(boxes, prog, k, upto - 1).unwrap();
            let tail = box_successors(boxes[upto - 1], prog, k).unwrap();
            assert forall|j: int| 0 <= j < all.len() implies box_below(#[trigger] all[j], m + d) by {
                if j < head.len() {
                    assert(all[j] == head[j]);
                } else {
                    assert(all[j] == tail[j - head.len()]);
                }
            }
        }
    }
}

/// The boxes that are kept of boxes below `m` are below `m`.
pub proof fn lemma_uncovered_below(boxes: Seq<Seq<Range>>, cover: Seq<Seq<Range>>, upto: int, m: int)
    requires
        0 <= upto <= boxes.len(),
        all_below(boxes, m),
    ensures
        all_below(uncovered(boxes, cover, upto), m),
    decreases upto,
{
    if upto > 0 {
        lemma_uncovered_below(boxes, cover, upto - 1, m);
        let before = uncovered(boxes, cover, upto - 1);
        let now = uncovered(boxes, cover, upto);
        assert forall|j: int| 0 <= j < now.len() implies box_below(#[trigger] now[j], m) by {
            if j < before.len() {
                assert(now[j] == before[j]);
            } else {
                assert(now[j] == boxes[upto - 1]);
            }
        }
    }
}

/// A search can be made in machine integers when the frontier is below
/// `m`, the instructions have entries up to `d`, `d` is at most `m`, and
/// `m` and `d` for each round are together a small machine integer.
pub proof fn lemma_closure_fits(
    prog: Seq<Seq<int>>,
    result: Seq<Seq<Range>>,
    frontier: Seq<Seq<Range>>,
    iters: nat,
    m: int,
    d: int,
    size: nat,
)
    requires
        sized(prog, size),
        uniform(result, size),
        uniform(frontier, size),
        all_below(frontier, m),
        prog_within(prog, d),
        0 <= d <= m,
        m + iters * d <= SmallInt::MAX,
    ensures
        closure_fits(prog, result, frontier, iters),
    decreases iters,
{
    if iters > 0 {
        assert(m + d <= m + iters * d) by (nonlinear_arith)
            requires
                iters >= 1,
                d >= 0,
        ;
        assert forall|j: int| 0 <= j < frontier.len() implies successors_fit(
            #[trigger] frontier[j],
            prog,
            0,
        ) by {
            lemma_successors_below(frontier[j], prog, 0, m, d, size);
        }
        if let Some(succ) = successors_of_all(frontier, prog, 0, frontier.len() as int) {
            let next = uncovered(succ, result, succ.len() as int);
            lemma_successors_of_all_below(frontier, prog, 0, frontier.len() as int, m, d, size);
            lemma_successors_of_all_uniform(frontier, prog, 0, frontier.len() as int, size);
            lemma_uncovered(succ, result, succ.len() as int, size);
            lemma_uncovered_below(succ, result, succ.len() as int, m + d);
            lemma_union_of(result, frontier, size);
            assert((m + d) + (iters - 1) * d == m + iters * d) by (nonlinear_arith);
            if next.len() != 0 {
                lemma_closure_fits(
                    prog,
                    union_of(result, frontier),
                    next,
                    (iters - 1) as nat,
                    m + d,
                    d,
                    size,
                );
            }
        }
    }
}

/// The greatest of `floor` and the magnitudes of the first `upto` entries
/// of `row`.
pub open spec fn row_reach(row: Seq<int>, upto: int, floor: int) -> int
    decreases upto,
{
    if upto <= 0 {
        floor
    } else {
        let before = row_reach(row, upto - 1, floor);
        let here = if row[upto - 1] < 0 {
            -row[upto - 1]
        } else {
            row[upto - 1]
        };
        if here > before {
            here
        } else {
            before
        }
    }
}

/// The greatest magnitude of an entry of the first `upto` instructions, 0
/// when there is none.
pub open spec fn prog_reach(prog: Seq<Seq<int>>, upto: int) -> int
    decreases upto,
{
    if upto <= 0 {
        0
    } else {
        row_reach(prog[upto - 1], prog[upto - 1].len() as int, prog_reach(prog, upto - 1))
    }
}

/// The greatest of `floor` and the least members of the first `upto` sets
/// of `b`.
pub open spec fn box_top(b: Seq<Range>, upto: int, floor: int) -> int
    decreases upto,
{
    if upto <= 0 {
        floor
    } else if b[upto - 1].least() > box_top(b, upto - 1, floor) {
        b[upto - 1].least()
    } else {
        box_top(b, upto - 1, floor)
    }
}

/// The greatest of the least members of the sets of the first `upto`
/// boxes, 0 when there is none above it.
pub open spec fn union_top_of(boxes: Seq<Seq<Range>>, upto: int) -> int
    decreases upto,
{
    if upto <= 0 {
        0
    } else {
        box_top(boxes[upto - 1], boxes[upto - 1].len() as int, union_top_of(boxes, upto - 1))
    }
}

/// Whether every set of every box holds natural numbers only.
pub open spec fn all_natural(boxes: Seq<Seq<Range>>) -> bool {
    forall|j: int, i: int|
        0 <= j < boxes.len() && 0 <= i < boxes[j].len() ==> (#[trigger] boxes[j][i]).least() >= 0
}

/// Whether the search from `set` for `num_iters` rounds is sure to stay in
/// small machine integers whatever it finds: the program is well formed,
/// the boxes have its registers and hold natural numbers, and the greatest
/// number in the seed and in the program, grown by the greatest magnitude
/// of the program once for each round, is a small machine integer.
pub open spec fn search_is_sure(prog: &Program, set: Seq<Seq<Range>>, num_iters: nat) -> bool {
    &&& prog.wf()
    &&& uniform(set, prog.num_registers_spec())
    &&& all_natural(set)
    &&& {
        let d = prog_reach(prog@, prog@.len() as int);
        let top = union_top_of(set, set.len() as int);
        (if top < d {
            d
        } else {
            top
        }) + num_iters * d <= SmallInt::MAX
    }
}

/// No entry of a row exceeds the reach of the row, which is at least the
/// floor.
pub proof fn lemma_row_reach(row: Seq<int>, upto: int, floor: int)
    requires
        0 <= upto <= row.len(),
    ensures
        floor <= row_reach(row, upto, floor),
        forall|i: int|
            0 <= i < upto ==> -row_reach(row, upto, floor) <= #[trigger] row[i] <= row_reach(
                row,
                upto,
                floor,
            ),
    decreases upto,
{
    if upto > 0 {
        lemma_row_reach(row, upto - 1, floor);
    }
}

/// No entry of an instruction exceeds the reach of the program.
pub proof fn lemma_prog_reach(prog: Seq<Seq<int>>, upto: int)
    requires
        0 <= upto <= prog.len(),
    ensures
        0 <= prog_reach(prog, upto),
        forall|k: int| 0 <= k < upto ==> delta_within(#[trigger] prog[k], prog_reach(prog, upto)),
    decreases upto,
{
    if upto > 0 {
        lemma_prog_reach(prog, upto - 1);
        let before = prog_reach(prog, upto - 1);
        let now = prog_reach(prog, upto);
        lemma_row_reach(prog[upto - 1], prog[upto - 1].len() as int, before);
        assert forall|k: int| 0 <= k < upto implies delta_within(#[trigger] prog[k], now) by {
            if k < upto - 1 {
                assert(delta_within(prog[k], before));
                assert forall|i: int| 0 <= i < prog[k].len() implies -now <= #[trigger] prog[k][i]
                    <= now by {
                    assert(-before <= prog[k][i] <= before);
                }
            }
        }
    }
}

/// No least member of a set of a box exceeds the top of the box, which is
/// at least the floor.
pub proof fn lemma_box_top(b: Seq<Range>, upto: int, floor: int)
    requires
        0 <= upto <= b.len(),
    ensures
        floor <= box_top(b, upto, floor),
        forall|i: int| 0 <= i < upto ==> (#[trigger] b[i]).least() <= box_top(b, upto, floor),
    decreases upto,
{
    if upto > 0 {
        lemma_box_top(b, upto - 1, floor);
    }
}

/// No least member of a set of a box exceeds the top of the union.
pub proof fn lemma_union_top(boxes: Seq<Seq<Range>>, upto: int)
    requires
        0 <= upto <= boxes.len(),
    ensures
        0 <= union_top_of(boxes, upto),
        forall|j: int, i: int|
            0 <= j < upto && 0 <= i < boxes[j].len() ==> (#[trigger] boxes[j][i]).least()
                <= union_top_of(boxes, upto),
    decreases upto,
{
    if upto > 0 {
        lemma_union_top(boxes, upto - 1);
        lemma_box_top(
            boxes[upto - 1],
            boxes[upto - 1].len() as int,
            union_top_of(boxes, upto - 1),
        );
    }
}

/// The greatest magnitude of an entry of the program, if the program is
/// well formed; else `None`.
fn program_reach(prog: &Program) -> (r: Option<i64>)
    ensures
        match r {
            Some(d) => prog.wf() && d == prog_reach(prog@, prog@.len() as int) && 0 <= d
                <= 0x8000_0000 && prog_within(prog@, d as int),
            None => !prog.wf(),
        },
{
    if prog.instrs.len() == 0 {
        return None;
    }
    let size = prog.instrs[0].data.len();
    let mut d: i64 = 0;
    let mut k: usize = 0;
    while k < prog.instrs.len()
        invariant
            0 <= k <= prog.instrs@.len(),
            prog.instrs@.len() > 0,
            size == prog.instrs@[0]@.len(),
            0 <= d <= 0x8000_0000,
            d == prog_reach(prog@, k as int),
            forall|e: int| 0 <= e < k ==> (#[trigger] prog.instrs@[e])@.len() == size,
        decreases prog.instrs@.len() - k,
    {
        let instr = &prog.instrs[k];
        if instr.data.len() != size {
            assert(prog.instrs@[k as int]@.len() != prog.instrs@[0]@.len());
            return None;
        }
        let ghost before = d as int;
        let ghost row = prog@[k as int];
        assert(row == instr@);
        let mut i: usize = 0;
        while i < size
            invariant
                0 <= i <= size,
                size == instr.data@.len(),
                row == instr@,
                0 <= d <= 0x8000_0000,
                d == row_reach(row, i as int, before),
            decreases size - i,
        {
            let v: i64 = instr.data[i] as i64;
            assert(row[i as int] == v);
            let mag: i64 = if v < 0 {
                -v
            } else {
                v
            };
            if mag > d {
                d = mag;
            }
            i += 1;
        }
        k += 1;
    }
    proof {
        lemma_prog_reach(prog@, prog@.len() as int);
    }
    Some(d)
}

/// The greatest of the least members of the sets of the boxes, if every
/// box has `size` sets of natural numbers; else `None`.
fn union_top(set: &UnionVecSet, size: usize) -> (r: Option<i64>)
    ensures
        match r {
            Some(m) => uniform(set@, size as nat) && all_natural(set@) && m == union_top_of(
                set@,
                set@.len() as int,
            ) && 0 <= m <= SmallInt::MAX && all_below(set@, m as int),
            None => !(uniform(set@, size as nat) && all_natural(set@)),
        },
{
    let mut m: i64 = 0;
    let mut j: usize = 0;
    while j < set.0.len()
        invariant
            0 <= j <= set.0@.len(),
            0 <= m <= SmallInt::MAX,
            m == union_top_of(set@, j as int),
            forall|e: int| 0 <= e < j ==> (#[trigger] set@[e]).len() == size,
            forall|e: int, i: int|
                0 <= e < j && 0 <= i < set@[e].len() ==> (#[trigger] set@[e][i]).least() >= 0,
        decreases set.0@.len() - j,
    {
        let b = &set.0[j];
        assert(set@[j as int] == b@);
        if b.0.len() != size {
            assert(set@[j as int].len() != size);
            return None;
        }
        let ghost before = m as int;
        let mut i: usize = 0;
        while i < size
            invariant
                0 <= i <= size,
                size == b.0@.len(),
                set@[j as int] == b@,
                j < set@.len(),
                0 <= m <= SmallInt::MAX,
                m == box_top(b@, i as int, before),
                forall|e: int| 0 <= e < i ==> (#[trigger] b@[e]).least() >= 0,
            decreases size - i,
        {
            let least: SmallInt = match b.0[i] {
                NatSet::Fixed(n) => n,
                NatSet::Min(n) => n,
            };
            assert(b@[i as int] == b.0@[i as int]@);
            if least < 0 {
                assert(set@[j as int][i as int].least() < 0);
                return None;
            }
            if least as i64 > m {
                m = least as i64;
            }
            i += 1;
        }
        proof {
            assert forall|e: int, i: int|
                0 <= e < j + 1 && 0 <= i < set@[e].len() implies (#[trigger] set@[e][i]).least()
                >= 0 by {
                if e == j {
                    assert(b@[i].least() >= 0);
                }
            }
        }
        j += 1;
    }
    proof {
        lemma_union_top(set@, set@.len() as int);
        assert forall|e: int| 0 <= e < set@.len() implies box_below(#[trigger] set@[e], m as int) by {
            assert forall|i: int| 0 <= i < set@[e].len() implies 0 <= (#[trigger] set@[e][i]).least()
                <= m by {}
        }
    }
    Some(m)
}

/// Whether the search from `set` for `num_iters` rounds is sure to stay in
/// small machine integers whatever it finds: see [`search_is_sure`].
pub fn closure_is_safe(prog: &Program, set: &UnionVecSet, num_iters: usize) -> (ok: bool)
    ensures
        ok == search_is_sure(prog, set@, num_iters as nat),
        ok ==> prog.wf() && uniform(set@, prog.num_registers_spec()) && closure_fits(
            prog@,
            set@,
            set@,
            num_iters as nat,
        ),
{
    let d = match program_reach(prog) {
        Some(d) => d,
        None => {
            return false;
        },
    };
    let size = prog.num_registers();
    let top = match union_top(set, size) {
        Some(top) => top,
        None => {
            return false;
        },
    };
    let m: i64 = if top < d {
        d
    } else {
        top
    };
    let limit: i64 = 0x7fff_ffff;
    if m > limit {
        proof {
            assert(num_iters * d >= 0) by (nonlinear_arith)
                requires
                    num_iters >= 0,
                    d >= 0,
            ;
        }
        return false;
    }
    if d > 0 && (num_iters > 0x7fff_ffff || num_iters as i64 > (limit - m) / d) {
        proof {
            if num_iters > 0x7fff_ffff {
                assert(num_iters * d > limit) by (nonlinear_arith)
                    requires
                        num_iters > limit,
                        d >= 1,
                ;
            } else {
                assert(num_iters * d > limit - m) by (nonlinear_arith)
                    requires
                        num_iters > (limit - m) / (d as int),
                        d > 0,
                        limit - m >= 0,
                ;
            }
        }
        return false;
    }
    proof {
        assert(sized(prog@, size as nat));
        if d > 0 {
            assert(num_iters * d <= limit - m) by (nonlinear_arith)
                requires
                    0 <= num_iters <= (limit - m) / (d as int),
                    d > 0,
                    limit - m >= 0,
            ;
        } else {
            assert(num_iters * d == 0) by (nonlinear_arith)
                requires
                    d == 0,
            ;
        }
        assert(all_below(set@, m as int)) by {
            assert forall|j: int| 0 <= j < set@.len() implies box_below(#[trigger] set@[j], m as int) by {
                assert(box_below(set@[j], top as int));
                assert forall|i: int| 0 <= i < set@[j].len() implies 0 <= (#[trigger] set@[j][i]).least()
                    <= m by {
                    assert(0 <= set@[j][i].least() <= top);
                }
            }
        }
        lemma_closure_fits(prog@, set@, set@, num_iters as nat, m as int, d as int, size as nat);
    }
    true
}

/// Searches as [`closure`] does if the search is sure to stay in small
/// machine integers, and returns `None` if it is not: see
/// [`search_is_sure`].
pub fn try_closure(prog: &Program, set: &UnionVecSet, num_iters: usize) -> (r: Option<ClosureResult>)
    ensures
        r is Some <==> search_is_sure(prog, set@, num_iters as nat),
        r matches Some(found) ==> found@ == closure_from(prog@, set@, set@, num_iters as nat),
        r matches Some(ClosureResult::Closed(u)) ==> is_closed(prog@, u@) && union_within(set@, u@),
        r matches Some(ClosureResult::ContainsHalt) ==> halt_reached(
            prog@,
            set@,
            num_iters as nat,
        ),
{
    if closure_is_safe(prog, set, num_iters) {
        Some(closure(prog, set, num_iters))
    } else {
        None
    }
}

/// Whether no instruction before the `k`-th may fire on any state of `b`.
pub open spec fn all_fail_before(b: Seq<Range>, prog: Seq<Seq<int>>, k: int) -> bool {
    forall|regs: Seq<int>, e: int|
        #[trigger] box_contains(b, regs) && 0 <= e < k && e < prog.len() ==> !guard_holds(
            #[trigger] prog[e],
            regs,
        )
}

/// The state of the least members of the sets of a box, a state of the
/// box.
pub open spec fn least_state(b: Seq<Range>) -> Seq<int> {
    Seq::new(b.len(), |i: int| b[i].least())
}

/// Whether every state of `to` is what the machine makes in one step of
/// some state of `from`.
pub open spec fn steps_onto(prog: Seq<Seq<int>>, from: Seq<Range>, to: Seq<Seq<Range>>) -> bool {
    forall|next: Seq<int>| #[trigger]
        union_contains(to, next) ==> exists|regs: Seq<int>| #[trigger]
            box_contains(from, regs) && !halts_at(prog, regs) && step_of(prog, regs) == next
}

/// The failure boxes of a box on whose states no instruction before the
/// `k`-th may fire hold only states on which none up to the `k`-th may.
pub proof fn lemma_failures_fail(b: Seq<Range>, prog: Seq<Seq<int>>, k: int, j: int)
    requires
        0 <= k < prog.len(),
        b.len() == prog[k].len(),
        all_fail_before(b, prog, k),
        0 <= j < box_failures(b, prog[k]).len(),
    ensures
        all_fail_before(box_failures(b, prog[k])[j], prog, k + 1),
        forall|regs: Seq<int>| #[trigger]
            box_contains(box_failures(b, prog[k])[j], regs) ==> box_contains(b, regs),
{
    law_split_apply_partitions(b, prog[k]);
    let f = box_failures(b, prog[k])[j];
    assert forall|regs: Seq<int>, e: int| #[trigger]
        box_contains(f, regs) && 0 <= e < k + 1 && e < prog.len() implies !guard_holds(
        #[trigger] prog[e],
        regs,
    ) by {
        assert(box_contains(b, regs) && !guard_holds(prog[k], regs));
    }
}

/// The successors of a box hold nothing but next states of its states.
pub proof fn lemma_successors_exact(b: Seq<Range>, prog: Seq<Seq<int>>, k: int)
    requires
        0 <= k,
        sized(prog, b.len()),
        all_fail_before(b, prog, k),
        box_successors(b, prog, k) is Some,
    ensures
        steps_onto(prog, b, box_successors(b, prog, k).unwrap()),
    decreases prog.len() - k,
{
    let list = box_successors(b, prog, k).unwrap();
    let delta = prog[k];
    let failures = box_failures(b, delta);
    let after = successors_of_all(failures, prog, k + 1, failures.len() as int).unwrap();
    law_split_apply_partitions(b, delta);
    lemma_failures_uniform(b, delta, b.len() as int);
    assert forall|next: Seq<int>| #[trigger] union_contains(list, next) implies exists|
        regs: Seq<int>,
    | #[trigger]
        box_contains(b, regs) && !halts_at(prog, regs) && step_of(prog, regs) == next by {
        let w = choose|w: int| 0 <= w < list.len() && box_contains(#[trigger] list[w], next);
        if w < after.len() {
            assert(list[w] == after[w]);
            let j = lemma_successors_of_all_source(failures, prog, k + 1, failures.len() as int, w);
            lemma_failures_fail(b, prog, k, j);
            lemma_successors_exact(failures[j], prog, k + 1);
            let part = box_successors(failures[j], prog, k + 1).unwrap();
            assert(union_contains(part, next));
            let regs = choose|regs: Seq<int>| #[trigger]
                box_contains(failures[j], regs) && !halts_at(prog, regs) && step_of(prog, regs)
                    == next;
            assert(box_contains(b, regs));
        } else {
            let sb = box_success(b, delta).unwrap();
            assert(list[w] == sb);
            let regs = unshifted(next, delta);
            assert(box_contains(b, regs) && guard_holds(delta, regs));
            assert forall|e: int| 0 <= e < k implies !guard_holds(#[trigger] prog[e], regs) by {}
            lemma_fired_is(prog, regs, k);
        }
    }
}

/// A box among the successors of some boxes is among the successors of
/// one of them; the lemma returns which.
pub proof fn lemma_successors_of_all_source(
    boxes: Seq<Seq<Range>>,
    prog: Seq<Seq<int>>,
    k: int,
    upto: int,
    w: int,
) -> (j: int)
    requires
        0 <= upto <= boxes.len(),
        successors_of_all(boxes, prog, k, upto) is Some,
        0 <= w < successors_of_all(boxes, prog, k, upto).unwrap().len(),
    ensures
        0 <= j < upto,
        box_successors(boxes[j], prog, k) is Some,
        exists|x: int|
            0 <= x < box_successors(boxes[j], prog, k).unwrap().len() && #[trigger] box_successors(
                boxes[j],
                prog,
                k,
            ).unwrap()[x] == successors_of_all(boxes, prog, k, upto).unwrap()[w],
    decreases upto,
{
    let all = successors_of_all(boxes, prog, k, upto).unwrap();
    let head = successors_of_all(boxes, prog, k, upto - 1).unwrap();
    let tail = box_successors(boxes[upto - 1], prog, k).unwrap();
    assert(all == head + tail);
    if w < head.len() {
        assert(all[w] == head[w]);
        lemma_successors_of_all_source(boxes, prog, k, upto - 1, w)
    } else {
        assert(tail[w - head.len()] == all[w]);
        upto - 1
    }
}

/// A box without successors holds a state on which the machine halts.
pub proof fn lemma_no_successors_halts(b: Seq<Range>, prog: Seq<Seq<int>>, k: int) -> (regs: Seq<int>)
    requires
        0 <= k,
        sized(prog, b.len()),
        all_fail_before(b, prog, k),
        box_successors(b, prog, k) is None,
    ensures
        box_contains(b, regs),
        halts_at(prog, regs),
    decreases prog.len() - k,
{
    if k >= prog.len() {
        let regs = least_state(b);
        assert(box_contains(b, regs));
        lemma_first_applicable(prog, regs, 0);
        regs
    } else {
        let failures = box_failures(b, prog[k]);
        lemma_failures_uniform(b, prog[k], b.len() as int);
        let j = lemma_successors_of_all_gap(failures, prog, k + 1, failures.len() as int);
        lemma_failures_fail(b, prog, k, j);
        lemma_no_successors_halts(failures[j], prog, k + 1)
    }
}

/// Where boxes have no successors together, one of them has none; the
/// lemma returns which.
pub proof fn lemma_successors_of_all_gap(
    boxes: Seq<Seq<Range>>,
    prog: Seq<Seq<int>>,
    k: int,
    upto: int,
) -> (j: int)
    requires
        0 <= upto <= boxes.len(),
        successors_of_all(boxes, prog, k, upto) is None,
    ensures
        0 <= j < upto,
        box_successors(boxes[j], prog, k) is None,
    decreases upto,
{
    if successors_of_all(boxes, prog, k, upto - 1) is None {
        lemma_successors_of_all_gap(boxes, prog, k, upto - 1)
    } else {
        upto - 1
    }
}

/// Whether every state of `boxes` is what the machine makes of a state of
/// `seed` in `n` steps.
pub open spec fn reached_in(
    prog: Seq<Seq<int>>,
    seed: Seq<Seq<Range>>,
    boxes: Seq<Seq<Range>>,
    n: nat,
) -> bool {
    forall|regs: Seq<int>| #[trigger]
        union_contains(boxes, regs) ==> exists|from: Seq<int>| #[trigger]
            union_contains(seed, from) && run_of(prog, from, n) == Some(regs)
}

/// Whether some state of `seed` comes, in fewer than `limit` steps of the
/// machine, to a state on which the machine halts.
pub open spec fn halt_reached(prog: Seq<Seq<int>>, seed: Seq<Seq<Range>>, limit: nat) -> bool {
    exists|from: Seq<int>, n: nat| #[trigger]
        union_contains(seed, from) && n < limit && (#[trigger] run_of(prog, from, n)) is Some
            && halts_at(prog, run_of(prog, from, n).unwrap())
}

/// The successors of a frontier that is reached from the seed in `n`
/// steps, as far as they are kept, are reached in `n + 1` steps.
pub proof fn lemma_frontier_reached(
    prog: Seq<Seq<int>>,
    seed: Seq<Seq<Range>>,
    result: Seq<Seq<Range>>,
    frontier: Seq<Seq<Range>>,
    size: nat,
    n: nat,
)
    requires
        sized(prog, size),
        uniform(result, size),
        uniform(frontier, size),
        reached_in(prog, seed, frontier, n),
        successors_of_all(frontier, prog, 0, frontier.len() as int) is Some,
    ensures
        reached_in(
            prog,
            seed,
            uncovered(
                successors_of_all(frontier, prog, 0, frontier.len() as int).unwrap(),
                result,
                successors_of_all(frontier, prog, 0, frontier.len() as int).unwrap().len() as int,
            ),
            n + 1,
        ),
{
    let succ = successors_of_all(frontier, prog, 0, frontier.len() as int).unwrap();
    let next = uncovered(succ, result, succ.len() as int);
    lemma_successors_of_all_uniform(frontier, prog, 0, frontier.len() as int, size);
    lemma_uncovered(succ, result, succ.len() as int, size);
    assert forall|regs: Seq<int>| #[trigger] union_contains(next, regs) implies exists|
        from: Seq<int>,
    | #[trigger]
        union_contains(seed, from) && run_of(prog, from, n + 1) == Some(regs) by {
        let w = choose|w: int| 0 <= w < succ.len() && box_contains(#[trigger] succ[w], regs);
        let j = lemma_successors_of_all_source(frontier, prog, 0, frontier.len() as int, w);
        lemma_successors_exact(frontier[j], prog, 0);
        let part = box_successors(frontier[j], prog, 0).unwrap();
        assert(union_contains(part, regs));
        let before = choose|before: Seq<int>| #[trigger]
            box_contains(frontier[j], before) && !halts_at(prog, before) && step_of(prog, before)
                == regs;
        assert(union_contains(frontier, before));
        let from = choose|from: Seq<int>| #[trigger]
            union_contains(seed, from) && run_of(prog, from, n) == Some(before);
        assert(run_of(prog, before, 0) == Some(before));
        assert(run_of(prog, before, 1) == Some(regs));
        lemma_run_add(prog, from, n, 1);
        assert(union_contains(seed, from) && run_of(prog, from, n + 1) == Some(regs));
    }
}

/// A search that ends with a halt has found one: a state of the seed
/// comes to a state on which the machine halts, in as many steps as the
/// search has made rounds before the last.
pub proof fn lemma_halt_is_reached(
    prog: Seq<Seq<int>>,
    seed: Seq<Seq<Range>>,
    result: Seq<Seq<Range>>,
    frontier: Seq<Seq<Range>>,
    iters: nat,
    size: nat,
    done: nat,
)
    requires
        sized(prog, size),
        uniform(result, size),
        uniform(frontier, size),
        reached_in(prog, seed, frontier, done),
        closure_from(prog, result, frontier, iters) == ClosureOutcome::ContainsHalt,
    ensures
        halt_reached(prog, seed, done + iters),
    decreases iters,
{
    match successors_of_all(frontier, prog, 0, frontier.len() as int) {
        None => {
            let j = lemma_successors_of_all_gap(frontier, prog, 0, frontier.len() as int);
            let regs = lemma_no_successors_halts(frontier[j], prog, 0);
            assert(union_contains(frontier, regs));
            let from = choose|from: Seq<int>| #[trigger]
                union_contains(seed, from) && run_of(prog, from, done) == Some(regs);
            assert(union_contains(seed, from) && done < done + iters && run_of(prog, from, done)
                 is Some && halts_at(prog, run_of(prog, from, done).unwrap()));
        },
        Some(succ) => {
            let next = uncovered(succ, result, succ.len() as int);
            lemma_frontier_reached(prog, seed, result, frontier, size, done);
            lemma_successors_of_all_uniform(frontier, prog, 0, frontier.len() as int, size);
            lemma_uncovered(succ, result, succ.len() as int, size);
            lemma_union_of(result, frontier, size);
            lemma_halt_is_reached(
                prog,
                seed,
                union_of(result, frontier),
                next,
                (iters - 1) as nat,
                size,
                done + 1,
            );
        },
    }
}

/// A search that ends with a halt has found a state of the seed from
/// which the machine comes to a halt, in fewer steps than the search was
/// given rounds.
pub proof fn law_halt_is_real(prog: Seq<Seq<int>>, seed: Seq<Seq<Range>>, iters: nat, size: nat)
    requires
        sized(prog, size),
        uniform(seed, size),
        closure_from(prog, seed, seed, iters) == ClosureOutcome::ContainsHalt,
    ensures
        halt_reached(prog, seed, iters),
{
    assert forall|regs: Seq<int>| #[trigger] union_contains(seed, regs) implies exists|
        from: Seq<int>,
    | #[trigger]
        union_contains(seed, from) && run_of(prog, from, 0) == Some(regs) by {
        assert(union_contains(seed, regs) && run_of(prog, regs, 0) == Some(regs));
    }
    lemma_halt_is_reached(prog, seed, seed, seed, iters, size, 0);
}

} // verus!

//! Sets of natural numbers, and sets of states as products of them.
//!
//! A [`NatSet`] is one number or all numbers from one on. A [`VecSet`] is a
//! box: the states whose registers each lie in the set of their position. A
//! [`UnionVecSet`] is the union of finitely many boxes.
use vstd::prelude::*;
use vstd::string::StringExecFns;
use crate::program::{guard_holds, shifted, Instr, SmallInt};
use crate::text::{
    join_strings, joined, parse_error_text, parse_small, parsed_small, signed_decimal,
    signed_text, str_trim, strip_plus, texts, trimmed,
};

verus! {

/// A set of natural numbers.
#[derive(Debug, PartialEq, Eq, Clone, Copy, Structural)]
pub enum NatSet {
    /// `Fixed(n)` is the set of `n` alone.
    Fixed(SmallInt),
    /// `Min(n)` is the set of all numbers from `n` on.
    Min(SmallInt),
}

/// The mathematical content of a [`NatSet`].
pub enum Range {
    Fixed(int),
    Min(int),
}

impl Range {
    /// Whether `x` is in the set.
    pub open spec fn contains(self, x: int) -> bool {
        match self {
            Range::Fixed(n) => x == n,
            Range::Min(n) => x >= n,
        }
    }

    /// The least member of the set.
    pub open spec fn least(self) -> int {
        match self {
            Range::Fixed(n) => n,
            Range::Min(n) => n,
        }
    }

    /// Whether every member of `self` is a member of `other`.
    pub open spec fn is_subset(self, other: Range) -> bool {
        match (self, other) {
            (Range::Fixed(a), Range::Fixed(b)) => a == b,
            (Range::Min(_), Range::Fixed(_)) => false,
            (Range::Fixed(a), Range::Min(b)) => a >= b,
            (Range::Min(a), Range::Min(b)) => a >= b,
        }
    }

    /// The set of the members of `self`, each moved by `v`.
    pub open spec fn plus(self, v: int) -> Range {
        match self {
            Range::Fixed(n) => Range::Fixed(n + v),
            Range::Min(n) => Range::Min(n + v),
        }
    }

    /// The members of `self` from `thresh` on, as a set, if there are any.
    pub open spec fn above(self, thresh: int) -> Option<Range> {
        match self {
            Range::Fixed(n) => if n >= thresh {
                Some(self)
            } else {
                None
            },
            Range::Min(n) => if n >= thresh {
                Some(self)
            } else {
                Some(Range::Min(thresh))
            },
        }
    }

    /// The number of members of `self` below `thresh`.
    pub open spec fn below_count(self, thresh: int) -> int {
        match self {
            Range::Fixed(n) => if n >= thresh {
                0
            } else {
                1
            },
            Range::Min(n) => if n >= thresh {
                0
            } else {
                thresh - n
            },
        }
    }

    /// The members of `self` below `thresh`, in rising order, each as a
    /// set of its own.
    pub open spec fn below(self, thresh: int) -> Seq<Range> {
        Seq::new(self.below_count(thresh) as nat, |k: int| Range::Fixed(self.least() + k))
    }

    /// What adding `v` to the members of `self` gives, where the sum is a
    /// natural number.
    pub open spec fn add_success(self, v: int) -> Option<Range> {
        match self.above(-v) {
            Some(part) => Some(part.plus(v)),
            None => None,
        }
    }

    /// The members of `self` to which `v` cannot be added, each as a set of
    /// its own.
    pub open spec fn add_failure(self, v: int) -> Seq<Range> {
        self.below(-v)
    }

    /// Subset, as computed, is subset of the members.
    pub proof fn lemma_is_subset(self, other: Range)
        ensures
            self.is_subset(other) <==> forall|x: int| self.contains(x) ==> other.contains(x),
    {
        if !self.is_subset(other) {
            match (self, other) {
                (Range::Fixed(a), _) => {
                    assert(self.contains(a) && !other.contains(a));
                },
                (Range::Min(a), Range::Fixed(b)) => {
                    let x = if a > b {
                        a
                    } else {
                        b + 1
                    };
                    assert(self.contains(x) && !other.contains(x));
                },
                (Range::Min(a), Range::Min(b)) => {
                    assert(self.contains(a) && !other.contains(a));
                },
            }
        }
    }

    /// Adding `v` splits a set exactly. The sums that are natural numbers
    /// are the members of the success set; the members that have no such sum
    /// are, one each, the failure sets; no member is lost and none is in two
    /// parts.
    pub proof fn law_split_add_partitions(self, v: int)
        ensures
            forall|x: int|
                self.contains(x) && x + v >= 0 ==> self.add_success(v) is Some
                    && self.add_success(v).unwrap().contains(x + v),
            forall|y: int|
                self.add_success(v) is Some && self.add_success(v).unwrap().contains(y)
                    ==> y >= 0 && self.contains(y - v),
            forall|x: int|
                self.contains(x) && x + v < 0 ==> 0 <= x - self.least() < self.add_failure(v).len()
                    && self.add_failure(v)[x - self.least()] == Range::Fixed(x),
            forall|k: int|
                0 <= k < self.add_failure(v).len() ==> #[trigger] self.add_failure(v)[k]
                    == Range::Fixed(self.least() + k) && self.contains(self.least() + k)
                    && self.least() + k + v < 0,
    {
    }
}

impl View for NatSet {
    type V = Range;

    open spec fn view(&self) -> Range {
        match *self {
            NatSet::Fixed(n) => Range::Fixed(n as int),
            NatSet::Min(n) => Range::Min(n as int),
        }
    }
}

/// The sets of a list, each as its mathematical content.
pub open spec fn range_views(sets: Seq<NatSet>) -> Seq<Range> {
    Seq::new(sets.len(), |i: int| sets[i]@)
}

/// What adding a number to the members of a set gives.
#[derive(Debug, PartialEq, Clone)]
pub struct SplitAddResult {
    /// The sums that are natural numbers, if there are any.
    pub success: Option<NatSet>,
    /// The members to which the number cannot be added.
    pub failure: Vec<NatSet>,
}

impl NatSet {
    /// Whether `self` is a subset of `other`.
    pub fn is_subset(self, other: NatSet) -> (r: bool)
        ensures
            r == self@.is_subset(other@),
            r == forall|x: int| self@.contains(x) ==> other@.contains(x),
    {
        proof {
            self@.lemma_is_subset(other@);
        }
        match (self, other) {
            (NatSet::Fixed(a), NatSet::Fixed(b)) => a == b,
            (NatSet::Min(_), NatSet::Fixed(_)) => false,
            (NatSet::Fixed(a), NatSet::Min(b)) => a >= b,
            (NatSet::Min(a), NatSet::Min(b)) => a >= b,
        }
    }

    /// The set of the members of `self`, each moved by `v`. The result may
    /// hold negative numbers.
    pub fn add(self, v: SmallInt) -> (r: NatSet)
        requires
            SmallInt::MIN <= self@.least() + v <= SmallInt::MAX,
        ensures
            r@ == self@.plus(v as int),
    {
        match self {
            NatSet::Fixed(n) => NatSet::Fixed(n + v),
            NatSet::Min(n) => NatSet::Min(n + v),
        }
    }

    /// Splits the set at `thresh`: the members from `thresh` on as one set,
    /// if there are any, and the members below it, one set each.
    pub fn partition(self, thresh: SmallInt) -> (r: (Option<NatSet>, Vec<NatSet>))
        ensures
            match r.0 {
                Some(part) => self@.above(thresh as int) == Some(part@),
                None => self@.above(thresh as int) is None,
            },
            range_views(r.1@) == self@.below(thresh as int),
    {
        match self {
            NatSet::Fixed(n) => {
                if n >= thresh {
                    let below: Vec<NatSet> = Vec::new();
                    assert(range_views(below@) =~= self@.below(thresh as int));
                    (Some(self), below)
                } else {
                    let mut below: Vec<NatSet> = Vec::new();
                    below.push(self);
                    assert(range_views(below@) =~= self@.below(thresh as int));
                    (None, below)
                }
            },
            NatSet::Min(n) => {
                let mut below: Vec<NatSet> = Vec::new();
                if n >= thresh {
                    assert(range_views(below@) =~= self@.below(thresh as int));
                    (Some(self), below)
                } else {
                    let mut m: SmallInt = n;
                    while m < thresh
                        invariant
                            n <= m <= thresh,
                            below@.len() == m - n,
                            forall|k: int| 0 <= k < m - n ==> below@[k] == NatSet::Fixed((n + k) as SmallInt),
                        decreases thresh - m,
                    {
                        below.push(NatSet::Fixed(m));
                        m += 1;
                    }
                    assert(range_views(below@) =~= self@.below(thresh as int));
                    (Some(NatSet::Min(thresh)), below)
                }
            },
        }
    }

    /// Whether `v` can be added to the members of `self` in machine
    /// integers.
    pub open spec fn can_split_add(self, v: SmallInt) -> bool {
        v > SmallInt::MIN && self@.least() + v <= SmallInt::MAX
    }

    /// Adds `v`, which may be negative, to the members of the set. The
    /// success is the set of the sums that are natural numbers; the failure
    /// holds the members whose sum would be negative.
    pub fn split_add(self, v: SmallInt) -> (r: SplitAddResult)
        requires
            self.can_split_add(v),
        ensures
            match r.success {
                Some(part) => self@.add_success(v as int) == Some(part@),
                None => self@.add_success(v as int) is None,
            },
            range_views(r.failure@) == self@.add_failure(v as int),
    {
        let (above, below) = self.partition(-v);
        let success = match above {
            Some(part) => Some(part.add(v)),
            None => None,
        };
        SplitAddResult { success, failure: below }
    }
}

/// Whether the state `regs` lies in the box `b`.
pub open spec fn box_contains(b: Seq<Range>, regs: Seq<int>) -> bool {
    &&& regs.len() == b.len()
    &&& forall|i: int| 0 <= i < b.len() ==> (#[trigger] b[i]).contains(regs[i])
}

/// Whether each set of `a` is a subset of the set of `b` at its position.
pub open spec fn box_is_subset(a: Seq<Range>, b: Seq<Range>) -> bool {
    forall|i: int| 0 <= i < a.len() ==> (#[trigger] a[i]).is_subset(b[i])
}

/// Whether every register of `b` has a sum with its entry of `delta` that
/// is a natural number.
pub open spec fn box_can_pass(b: Seq<Range>, delta: Seq<int>) -> bool {
    forall|i: int| 0 <= i < b.len() ==> (#[trigger] b[i]).add_success(delta[i]) is Some
}

/// The states that the instruction `delta` makes of the states of `b` on
/// which it may fire, as a box, if there are any.
pub open spec fn box_success(b: Seq<Range>, delta: Seq<int>) -> Option<Seq<Range>> {
    if box_can_pass(b, delta) {
        Some(Seq::new(b.len(), |i: int| b[i].add_success(delta[i]).unwrap()))
    } else {
        None
    }
}

/// The boxes of the states of `b` on which `delta` fails at register
/// `reg`: `b` with the set of that register replaced by one of its failing
/// members, for each of them.
pub open spec fn box_failures_at(b: Seq<Range>, delta: Seq<int>, reg: int) -> Seq<Seq<Range>> {
    Seq::new(
        b[reg].add_failure(delta[reg]).len(),
        |k: int| b.update(reg, b[reg].add_failure(delta[reg])[k]),
    )
}

/// The boxes of the states of `b` on which `delta` fails at one of the
/// first `upto` registers, register by register.
pub open spec fn box_failures_upto(b: Seq<Range>, delta: Seq<int>, upto: int) -> Seq<Seq<Range>>
    decreases upto,
{
    if upto <= 0 {
        Seq::empty()
    } else {
        box_failures_upto(b, delta, upto - 1) + box_failures_at(b, delta, upto - 1)
    }
}

/// Boxes that together hold the states of `b` on which `delta` may not
/// fire: `b` itself when it may fire on none, else the failures of each
/// register.
pub open spec fn box_failures(b: Seq<Range>, delta: Seq<int>) -> Seq<Seq<Range>> {
    if box_can_pass(b, delta) {
        box_failures_upto(b, delta, b.len() as int)
    } else {
        seq![b]
    }
}

/// The registers before `delta` was added to them.
pub open spec fn unshifted(regs: Seq<int>, delta: Seq<int>) -> Seq<int> {
    Seq::new(regs.len(), |i: int| regs[i] - delta[i])
}

/// A failure box of register `reg` holds only states of `b` on which
/// `delta` fails at that register, and every such state lies in one.
pub proof fn lemma_failures_at(b: Seq<Range>, delta: Seq<int>, reg: int)
    requires
        b.len() == delta.len(),
        0 <= reg < b.len(),
    ensures
        forall|k: int, regs: Seq<int>|
            0 <= k < box_failures_at(b, delta, reg).len() && #[trigger] box_contains(
                box_failures_at(b, delta, reg)[k],
                regs,
            ) ==> box_contains(b, regs) && regs[reg] + delta[reg] < 0,
        forall|regs: Seq<int>|
            #[trigger] box_contains(b, regs) && regs[reg] + delta[reg] < 0 ==> 0 <= regs[reg]
                - b[reg].least() < box_failures_at(b, delta, reg).len() && box_contains(
                box_failures_at(b, delta, reg)[regs[reg] - b[reg].least()],
                regs,
            ),
{
    let here = box_failures_at(b, delta, reg);
    b[reg].law_split_add_partitions(delta[reg]);
    assert forall|k: int, regs: Seq<int>|
        0 <= k < here.len() && #[trigger] box_contains(here[k], regs) implies box_contains(b, regs)
        && regs[reg] + delta[reg] < 0 by {
        let f = here[k];
        assert(f == b.update(reg, b[reg].add_failure(delta[reg])[k]));
        assert(f[reg].contains(regs[reg]));
        assert forall|i: int| 0 <= i < b.len() implies (#[trigger] b[i]).contains(regs[i]) by {
            assert(f[i].contains(regs[i]));
        }
    }
    assert forall|regs: Seq<int>| #[trigger]
        box_contains(b, regs) && regs[reg] + delta[reg] < 0 implies 0 <= regs[reg]
        - b[reg].least() < here.len() && box_contains(here[regs[reg] - b[reg].least()], regs) by {
        assert(b[reg].contains(regs[reg]));
        let k = regs[reg] - b[reg].least();
        let f = here[k];
        assert(f == b.update(reg, b[reg].add_failure(delta[reg])[k]));
        assert forall|i: int| 0 <= i < f.len() implies (#[trigger] f[i]).contains(regs[i]) by {
            if i != reg {
                assert(b[i].contains(regs[i]));
            }
        }
    }
}

/// The failure boxes of the first `upto` registers hold only states of
/// `b` on which `delta` may not fire, and every state of `b` on which
/// `delta` fails at one of these registers lies in one.
pub proof fn lemma_failures_upto(b: Seq<Range>, delta: Seq<int>, upto: int)
    requires
        b.len() == delta.len(),
        0 <= upto <= b.len(),
    ensures
        forall|j: int, regs: Seq<int>|
            0 <= j < box_failures_upto(b, delta, upto).len() && #[trigger] box_contains(
                box_failures_upto(b, delta, upto)[j],
                regs,
            ) ==> box_contains(b, regs) && !guard_holds(delta, regs),
        forall|regs: Seq<int>, reg: int|
            #[trigger] box_contains(b, regs) && 0 <= reg < upto && #[trigger] regs[reg]
                + delta[reg] < 0 ==> exists|j: int|
                0 <= j < box_failures_upto(b, delta, upto).len() && box_contains(
                    #[trigger] box_failures_upto(b, delta, upto)[j],
                    regs,
                ),
    decreases upto,
{
    if upto > 0 {
        let last = upto - 1;
        lemma_failures_upto(b, delta, last);
        lemma_failures_at(b, delta, last);
        let before = box_failures_upto(b, delta, last);
        let here = box_failures_at(b, delta, last);
        let all = box_failures_upto(b, delta, upto);
        assert(all == before + here);
        assert forall|j: int, regs: Seq<int>|
            0 <= j < all.len() && #[trigger] box_contains(all[j], regs) implies box_contains(
            b,
            regs,
        ) && !guard_holds(delta, regs) by {
            if j < before.len() {
                assert(all[j] == before[j]);
            } else {
                assert(all[j] == here[j - before.len()]);
                assert(box_contains(here[j - before.len()], regs));
                assert(regs[last] + delta[last] < 0);
            }
        }
        assert forall|regs: Seq<int>, reg: int| #[trigger]
            box_contains(b, regs) && 0 <= reg < upto && #[trigger] regs[reg] + delta[reg]
                < 0 implies exists|j: int|
            0 <= j < all.len() && box_contains(#[trigger] all[j], regs) by {
            if reg < last {
                let j = choose|j: int|
                    0 <= j < before.len() && box_contains(#[trigger] before[j], regs);
                assert(all[j] == before[j]);
                assert(box_contains(all[j], regs));
            } else {
                let k = regs[last] - b[last].least();
                assert(box_contains(here[k], regs));
                assert(all[before.len() + k] == here[k]);
                assert(box_contains(all[before.len() + k], regs));
            }
        }
    }
}

/// A state of `b` on which `delta` may fire, where there is one: each
/// register holds the least member of its set from which `delta` leaves a
/// natural number.
pub open spec fn passing_state(b: Seq<Range>, delta: Seq<int>) -> Seq<int> {
    Seq::new(
        b.len(),
        |i: int|
            if b[i].least() + delta[i] >= 0 {
                b[i].least()
            } else {
                -delta[i]
            },
    )
}

/// Whether applying `delta` splits `b` exactly into `success` and
/// `failure`. The success box holds the results of the instruction on the
/// states of the box on which it may fire, and nothing else; there is none
/// exactly when it may fire on no state, and then the failure is the box
/// itself. Every failure box lies in the box and holds only states on which
/// the instruction may not fire. Every state of the box on which it may not
/// fire lies in a failure box.
pub open spec fn splits_exactly(
    b: Seq<Range>,
    delta: Seq<int>,
    success: Option<Seq<Range>>,
    failure: Seq<Seq<Range>>,
) -> bool {
    &&& forall|regs: Seq<int>|
        #[trigger] box_contains(b, regs) && guard_holds(delta, regs) ==> success is Some
            && box_contains(success.unwrap(), shifted(regs, delta))
    &&& forall|next: Seq<int>|
        success is Some && #[trigger] box_contains(success.unwrap(), next) ==> box_contains(
            b,
            unshifted(next, delta),
        ) && guard_holds(delta, unshifted(next, delta)) && shifted(unshifted(next, delta), delta)
            == next
    &&& success is None <==> forall|regs: Seq<int>|
        #[trigger] box_contains(b, regs) ==> !guard_holds(delta, regs)
    &&& success is None ==> failure == seq![b]
    &&& forall|j: int, regs: Seq<int>|
        0 <= j < failure.len() && #[trigger] box_contains(failure[j], regs) ==> box_contains(
            b,
            regs,
        ) && !guard_holds(delta, regs)
    &&& forall|regs: Seq<int>|
        #[trigger] box_contains(b, regs) && !guard_holds(delta, regs) ==> exists|j: int|
            0 <= j < failure.len() && box_contains(#[trigger] failure[j], regs)
}

/// Where every register of a box has a member from which the instruction
/// leaves a natural number, the instruction may fire on a state of the
/// box.
pub proof fn lemma_passing_state(b: Seq<Range>, delta: Seq<int>)
    requires
        b.len() == delta.len(),
        box_can_pass(b, delta),
    ensures
        box_contains(b, passing_state(b, delta)),
        guard_holds(delta, passing_state(b, delta)),
{
    let regs = passing_state(b, delta);
    assert forall|i: int| 0 <= i < b.len() implies (#[trigger] b[i]).contains(regs[i]) && regs[i]
        + delta[i] >= 0 by {
        assert(b[i].add_success(delta[i]) is Some);
    }
    assert forall|i: int| 0 <= i < regs.len() implies #[trigger] regs[i] + delta[i] >= 0 by {
        assert(b[i].contains(regs[i]) && regs[i] + delta[i] >= 0);
    }
}

/// Applying an instruction splits a box exactly: see [`splits_exactly`].
pub proof fn law_split_apply_partitions(b: Seq<Range>, delta: Seq<int>)
    requires
        b.len() == delta.len(),
    ensures
        splits_exactly(b, delta, box_success(b, delta), box_failures(b, delta)),
        forall|regs: Seq<int>|
            #[trigger] box_contains(b, regs) && guard_holds(delta, regs) ==> box_success(b, delta)
                 is Some && box_contains(box_success(b, delta).unwrap(), shifted(regs, delta)),
        forall|next: Seq<int>|
            box_success(b, delta) is Some && #[trigger] box_contains(
                box_success(b, delta).unwrap(),
                next,
            ) ==> box_contains(b, unshifted(next, delta)) && guard_holds(
                delta,
                unshifted(next, delta),
            ) && shifted(unshifted(next, delta), delta) == next,
        forall|j: int, regs: Seq<int>|
            0 <= j < box_failures(b, delta).len() && #[trigger] box_contains(
                box_failures(b, delta)[j],
                regs,
            ) ==> box_contains(b, regs) && !guard_holds(delta, regs),
        forall|regs: Seq<int>|
            #[trigger] box_contains(b, regs) && !guard_holds(delta, regs) ==> exists|j: int|
                0 <= j < box_failures(b, delta).len() && box_contains(
                    #[trigger] box_failures(b, delta)[j],
                    regs,
                ),
{
    lemma_split_apply_success(b, delta);
    lemma_split_apply_failure(b, delta);
    if box_can_pass(b, delta) {
        lemma_passing_state(b, delta);
    }
}

/// The success half of [`law_split_apply_partitions`].
pub proof fn lemma_split_apply_success(b: Seq<Range>, delta: Seq<int>)
    requires
        b.len() == delta.len(),
    ensures
        forall|regs: Seq<int>|
            #[trigger] box_contains(b, regs) && guard_holds(delta, regs) ==> box_success(b, delta)
                 is Some && box_contains(box_success(b, delta).unwrap(), shifted(regs, delta)),
        forall|next: Seq<int>|
            box_success(b, delta) is Some && #[trigger] box_contains(
                box_success(b, delta).unwrap(),
                next,
            ) ==> box_contains(b, unshifted(next, delta)) && guard_holds(
                delta,
                unshifted(next, delta),
            ) && shifted(unshifted(next, delta), delta) == next,
{
    assert forall|regs: Seq<int>| #[trigger]
        box_contains(b, regs) && guard_holds(delta, regs) implies box_success(b, delta) is Some
        && box_contains(box_success(b, delta).unwrap(), shifted(regs, delta)) by {
        assert forall|i: int| 0 <= i < b.len() implies (#[trigger] b[i]).add_success(delta[i])
             is Some && b[i].add_success(delta[i]).unwrap().contains(regs[i] + delta[i]) by {
            b[i].law_split_add_partitions(delta[i]);
            assert(b[i].contains(regs[i]));
        }
        let sb = box_success(b, delta).unwrap();
        assert forall|i: int| 0 <= i < sb.len() implies (#[trigger] sb[i]).contains(
            shifted(regs, delta)[i],
        ) by {
            assert(b[i].add_success(delta[i]).unwrap().contains(regs[i] + delta[i]));
        }
    }
    assert forall|next: Seq<int>|
        box_success(b, delta) is Some && #[trigger] box_contains(
            box_success(b, delta).unwrap(),
            next,
        ) implies box_contains(b, unshifted(next, delta)) && guard_holds(
        delta,
        unshifted(next, delta),
    ) && shifted(unshifted(next, delta), delta) == next by {
        let sb = box_success(b, delta).unwrap();
        let regs = unshifted(next, delta);
        assert forall|i: int| 0 <= i < b.len() implies (#[trigger] b[i]).contains(regs[i])
            && regs[i] + delta[i] >= 0 by {
            b[i].law_split_add_partitions(delta[i]);
            assert(b[i].add_success(delta[i]) is Some);
            assert(sb[i] == b[i].add_success(delta[i]).unwrap());
            assert(sb[i].contains(next[i]));
        }
        assert forall|i: int| 0 <= i < regs.len() implies #[trigger] regs[i] + delta[i] >= 0 by {
            assert(b[i].contains(regs[i]) && regs[i] + delta[i] >= 0);
        }
        assert(guard_holds(delta, regs));
        assert(box_contains(b, regs));
        assert(shifted(regs, delta) =~= next);
    }
}

/// The failure half of [`law_split_apply_partitions`].
pub proof fn lemma_split_apply_failure(b: Seq<Range>, delta: Seq<int>)
    requires
        b.len() == delta.len(),
    ensures
        forall|j: int, regs: Seq<int>|
            0 <= j < box_failures(b, delta).len() && #[trigger] box_contains(
                box_failures(b, delta)[j],
                regs,
            ) ==> box_contains(b, regs) && !guard_holds(delta, regs),
        forall|regs: Seq<int>|
            #[trigger] box_contains(b, regs) && !guard_holds(delta, regs) ==> exists|j: int|
                0 <= j < box_failures(b, delta).len() && box_contains(
                    #[trigger] box_failures(b, delta)[j],
                    regs,
                ),
{
    if box_can_pass(b, delta) {
        lemma_failures_upto(b, delta, b.len() as int);
        assert forall|regs: Seq<int>| #[trigger]
            box_contains(b, regs) && !guard_holds(delta, regs) implies exists|j: int|
            0 <= j < box_failures(b, delta).len() && box_contains(
                #[trigger] box_failures(b, delta)[j],
                regs,
            ) by {
            let reg = choose|reg: int| 0 <= reg < regs.len() && !(regs[reg] + delta[reg] >= 0);
            assert(box_contains(b, regs) && 0 <= reg < b.len() && regs[reg] + delta[reg] < 0);
        }
    } else {
        let i = choose|i: int| 0 <= i < b.len() && !((#[trigger] b[i]).add_success(delta[i])
             is Some);
        b[i].law_split_add_partitions(delta[i]);
        assert forall|j: int, regs: Seq<int>|
            0 <= j < box_failures(b, delta).len() && #[trigger] box_contains(
                box_failures(b, delta)[j],
                regs,
            ) implies box_contains(b, regs) && !guard_holds(delta, regs) by {
            assert(b[i].contains(regs[i]));
            assert(regs[i] + delta[i] < 0);
        }
        assert forall|regs: Seq<int>| #[trigger]
            box_contains(b, regs) && !guard_holds(delta, regs) implies exists|j: int|
            0 <= j < box_failures(b, delta).len() && box_contains(
                #[trigger] box_failures(b, delta)[j],
                regs,
            ) by {
            assert(box_contains(box_failures(b, delta)[0], regs));
        }
    }
}

/// The instructions of a list, each as its sequence of entries.
pub open spec fn instr_views(instrs: Seq<Instr>) -> Seq<Seq<int>> {
    Seq::new(instrs.len(), |k: int| instrs[k]@)
}

/// The boxes that hold the states after one step from the states of `b`,
/// when the machine tries the instructions of `prog` from the `k`-th on:
/// the successors, under the later instructions, of the states on which the
/// `k`-th fails, and then its success box. None when some state is left on
/// which no instruction may fire.
pub open spec fn box_successors(b: Seq<Range>, prog: Seq<Seq<int>>, k: int) -> Option<
    Seq<Seq<Range>>,
>
    decreases prog.len() - k, 0int,
{
    if k < 0 || k >= prog.len() {
        None
    } else {
        let failures = box_failures(b, prog[k]);
        match successors_of_all(failures, prog, k + 1, failures.len() as int) {
            None => None,
            Some(list) => match box_success(b, prog[k]) {
                Some(sb) => Some(list.push(sb)),
                None => Some(list),
            },
        }
    }
}

/// The successors of the first `upto` boxes of `boxes`, box by box, under
/// the instructions of `prog` from the `k`-th on. None when one of them has
/// none.
pub open spec fn successors_of_all(
    boxes: Seq<Seq<Range>>,
    prog: Seq<Seq<int>>,
    k: int,
    upto: int,
) -> Option<Seq<Seq<Range>>>
    decreases prog.len() - k, 1 + upto,
{
    if upto <= 0 {
        Some(Seq::empty())
    } else {
        match successors_of_all(boxes, prog, k, upto - 1) {
            None => None,
            Some(head) => match box_successors(boxes[upto - 1], prog, k) {
                None => None,
                Some(tail) => Some(head + tail),
            },
        }
    }
}

/// Whether `delta` can be applied to the box `b` in machine integers.
pub open spec fn box_fits(b: Seq<Range>, delta: Seq<int>) -> bool {
    &&& b.len() == delta.len()
    &&& forall|i: int|
        0 <= i < b.len() ==> delta[i] > SmallInt::MIN && (#[trigger] b[i]).least() + delta[i]
            <= SmallInt::MAX
}

/// Whether the successors of `b` under the instructions from the `k`-th on
/// can be computed in machine integers.
pub open spec fn successors_fit(b: Seq<Range>, prog: Seq<Seq<int>>, k: int) -> bool
    decreases prog.len() - k,
{
    if k < 0 || k >= prog.len() {
        true
    } else {
        &&& box_fits(b, prog[k])
        &&& forall|j: int|
            0 <= j < box_failures(b, prog[k]).len() ==> successors_fit(
                #[trigger] box_failures(b, prog[k])[j],
                prog,
                k + 1,
            )
    }
}

/// Whether some box of `boxes` holds the state `regs`.
pub open spec fn union_contains(boxes: Seq<Seq<Range>>, regs: Seq<int>) -> bool {
    exists|j: int| 0 <= j < boxes.len() && box_contains(#[trigger] boxes[j], regs)
}

/// Whether `b` is a subset of one of the boxes of `cover`.
pub open spec fn is_covered(b: Seq<Range>, cover: Seq<Seq<Range>>) -> bool {
    exists|j: int| 0 <= j < cover.len() && box_is_subset(b, #[trigger] cover[j])
}

/// Those of the first `upto` boxes of `boxes` that are no subset of any
/// box of `cover`, in their order.
pub open spec fn uncovered(boxes: Seq<Seq<Range>>, cover: Seq<Seq<Range>>, upto: int) -> Seq<
    Seq<Range>,
>
    decreases upto,
{
    if upto <= 0 {
        Seq::empty()
    } else if is_covered(boxes[upto - 1], cover) {
        uncovered(boxes, cover, upto - 1)
    } else {
        uncovered(boxes, cover, upto - 1).push(boxes[upto - 1])
    }
}

/// The boxes of `a`, and then those of `b` that are no subset of any box
/// of `a`.
pub open spec fn union_of(a: Seq<Seq<Range>>, b: Seq<Seq<Range>>) -> Seq<Seq<Range>> {
    a + uncovered(b, a, b.len() as int)
}

/// Whether every box of `boxes` has `size` registers.
pub open spec fn uniform(boxes: Seq<Seq<Range>>, size: nat) -> bool {
    forall|j: int| 0 <= j < boxes.len() ==> (#[trigger] boxes[j]).len() == size
}

/// A box is a subset of another of as many registers, set by set,
/// exactly when each of its states is a state of the other.
pub proof fn law_box_subset(a: Seq<Range>, b: Seq<Range>)
    requires
        a.len() == b.len(),
    ensures
        box_is_subset(a, b) <==> forall|regs: Seq<int>| #[trigger]
            box_contains(a, regs) ==> box_contains(b, regs),
{
    if box_is_subset(a, b) {
        assert forall|regs: Seq<int>| #[trigger] box_contains(a, regs) implies box_contains(
            b,
            regs,
        ) by {
            assert forall|i: int| 0 <= i < b.len() implies (#[trigger] b[i]).contains(regs[i]) by {
                assert(a[i].is_subset(b[i]));
                a[i].lemma_is_subset(b[i]);
                assert(a[i].contains(regs[i]));
            }
        }
    } else {
        let i = choose|i: int| 0 <= i < a.len() && !(#[trigger] a[i]).is_subset(b[i]);
        a[i].lemma_is_subset(b[i]);
        let x = choose|x: int| a[i].contains(x) && !b[i].contains(x);
        let regs = Seq::new(a.len(), |j: int| if j == i { x } else { a[j].least() });
        assert(box_contains(a, regs)) by {
            assert forall|j: int| 0 <= j < a.len() implies (#[trigger] a[j]).contains(regs[j]) by {}
        }
        assert(!box_contains(b, regs)) by {
            assert(!b[i].contains(regs[i]));
        }
    }
}

/// A box: the states of which each register lies in the set of its
/// position.
#[derive(Debug, PartialEq)]
pub struct VecSet(pub Vec<NatSet>);

impl View for VecSet {
    type V = Seq<Range>;

    open spec fn view(&self) -> Seq<Range> {
        range_views(self.0@)
    }
}

impl Clone for VecSet {
    fn clone(&self) -> (r: VecSet)
        ensures
            r.0@ == self.0@,
    {
        let mut sets: Vec<NatSet> = Vec::new();
        let mut i: usize = 0;
        while i < self.0.len()
            invariant
                0 <= i <= self.0@.len(),
                sets@.len() == i,
                forall|j: int| 0 <= j < i ==> sets@[j] == self.0@[j],
            decreases self.0@.len() - i,
        {
            sets.push(self.0[i]);
            i += 1;
        }
        assert(sets@ =~= self.0@);
        VecSet(sets)
    }
}

/// The boxes of a list, each as its mathematical content.
pub open spec fn box_views(boxes: Seq<VecSet>) -> Seq<Seq<Range>> {
    Seq::new(boxes.len(), |i: int| boxes[i]@)
}

/// What applying an instruction to the states of a box gives.
#[derive(Debug, PartialEq, Clone)]
pub struct SplitApplyResult {
    /// The results, as a box, if the instruction may fire on any state.
    pub success: Option<VecSet>,
    /// Boxes that together hold the states on which it may not fire.
    pub failure: Vec<VecSet>,
}

impl VecSet {
    /// Whether `self` is a subset of `other`, a box of as many registers.
    pub fn is_subset(&self, other: &VecSet) -> (r: bool)
        requires
            self@.len() == other@.len(),
        ensures
            r == box_is_subset(self@, other@),
            r == forall|regs: Seq<int>| #[trigger]
                box_contains(self@, regs) ==> box_contains(other@, regs),
    {
        proof {
            law_box_subset(self@, other@);
        }
        let n = self.0.len();
        let mut i: usize = 0;
        while i < n
            invariant
                0 <= i <= n,
                n == self.0@.len(),
                n == other.0@.len(),
                forall|j: int| 0 <= j < i ==> (#[trigger] self@[j]).is_subset(other@[j]),
            decreases n - i,
        {
            if !self.0[i].is_subset(other.0[i]) {
                proof {
                    assert(!self@[i as int].is_subset(other@[i as int]));
                    law_box_subset(self@, other@);
                }
                return false;
            }
            i += 1;
        }
        true
    }

    /// The box with the set of register `index` replaced by `val`.
    pub fn update(&self, index: usize, val: NatSet) -> (r: VecSet)
        requires
            index < self@.len(),
        ensures
            r@ == self@.update(index as int, val@),
    {
        let mut new = self.clone();
        new.0.set(index, val);
        assert(new@ =~= self@.update(index as int, val@));
        new
    }

    /// Whether `instr` can be applied to the box in machine integers.
    pub open spec fn can_split_apply(&self, instr: &Instr) -> bool {
        &&& self.0@.len() == instr.data@.len()
        &&& forall|i: int|
            0 <= i < self.0@.len() ==> (#[trigger] self.0@[i]).can_split_add(instr.data@[i])
    }

    /// Applies `instr` to the states of the box. The success is the box of
    /// the results, if the instruction may fire on any state. The failure is
    /// a list of boxes that together hold the states on which it may not
    /// fire.
    pub fn split_apply(&self, instr: &Instr) -> (r: SplitApplyResult)
        requires
            self.can_split_apply(instr),
        ensures
            match r.success {
                Some(b) => box_success(self@, instr@) == Some(b@),
                None => box_success(self@, instr@) is None,
            },
            box_views(r.failure@) == box_failures(self@, instr@),
            splits_exactly(
                self@,
                instr@,
                match r.success {
                    Some(b) => Some(b@),
                    None => None,
                },
                box_views(r.failure@),
            ),
    {
        proof {
            law_split_apply_partitions(self@, instr@);
        }
        let n = self.0.len();
        let mut split_add_res: Vec<SplitAddResult> = Vec::new();
        let mut success: Vec<NatSet> = Vec::new();
        let mut i: usize = 0;
        while i < n
            invariant
                0 <= i <= n,
                n == self.0@.len(),
                self.can_split_apply(instr),
                split_add_res@.len() == i,
                success@.len() <= i,
                forall|j: int|
                    0 <= j < i ==> range_views((#[trigger] split_add_res@[j]).failure@)
                        == self@[j].add_failure(instr@[j]),
                success@.len() == i <==> forall|j: int|
                    0 <= j < i ==> (#[trigger] self@[j]).add_success(instr@[j]) is Some,
                success@.len() == i ==> forall|j: int|
                    0 <= j < i ==> (#[trigger] self@[j]).add_success(instr@[j]) == Some(
                        success@[j]@,
                    ),
            decreases n - i,
        {
            assert(self.0@[i as int].can_split_add(instr.data@[i as int]));
            let res = self.0[i].split_add(instr.data[i]);
            assert(self@[i as int] == self.0@[i as int]@);
            assert(instr@[i as int] == instr.data@[i as int]);
            if success.len() == i {
                match res.success {
                    Some(part) => {
                        success.push(part);
                    },
                    None => {
                        assert(!(self@[i as int].add_success(instr@[i as int]) is Some));
                    },
                }
            }
            split_add_res.push(res);
            i += 1;
        }
        if success.len() < n {
            let mut failure: Vec<VecSet> = Vec::new();
            failure.push(self.clone());
            assert(box_views(failure@) =~= seq![self@]);
            SplitApplyResult { success: None, failure }
        } else {
            assert(box_can_pass(self@, instr@));
            let mut failure: Vec<VecSet> = Vec::new();
            let mut reg_num: usize = 0;
            while reg_num < n
                invariant
                    0 <= reg_num <= n,
                    n == self.0@.len(),
                    n == instr@.len(),
                    split_add_res@.len() == n,
                    forall|j: int|
                        0 <= j < n ==> range_views((#[trigger] split_add_res@[j]).failure@)
                            == self@[j].add_failure(instr@[j]),
                    box_views(failure@) == box_failures_upto(self@, instr@, reg_num as int),
                decreases n - reg_num,
            {
                let fails = &split_add_res[reg_num].failure;
                let ghost before = box_views(failure@);
                let ghost here = box_failures_at(self@, instr@, reg_num as int);
                assert(range_views(fails@) == self@[reg_num as int].add_failure(
                    instr@[reg_num as int],
                ));
                let mut k: usize = 0;
                while k < fails.len()
                    invariant
                        0 <= k <= fails@.len(),
                        reg_num < n,
                        n == self.0@.len(),
                        range_views(fails@) == self@[reg_num as int].add_failure(
                            instr@[reg_num as int],
                        ),
                        here == box_failures_at(self@, instr@, reg_num as int),
                        box_views(failure@) == before + here.subrange(0, k as int),
                    decreases fails@.len() - k,
                {
                    let ghost so_far = box_views(failure@);
                    let made = self.update(reg_num, fails[k]);
                    failure.push(made);
                    proof {
                        assert(range_views(fails@)[k as int] == fails@[k as int]@);
                        assert(made@ == here[k as int]);
                        assert(box_views(failure@) =~= so_far + seq![made@]);
                        assert(here.subrange(0, k + 1) =~= here.subrange(0, k as int) + seq![
                            here[k as int],
                        ]);
                        assert(before + (here.subrange(0, k as int) + seq![here[k as int]]) =~= (
                        before + here.subrange(0, k as int)) + seq![here[k as int]]);
                    }
                    k += 1;
                }
                assert(here.subrange(0, here.len() as int) =~= here);
                reg_num += 1;
            }
            let r = SplitApplyResult { success: Some(VecSet(success)), failure };
            proof {
                assert(VecSet(success)@ =~= box_success(self@, instr@).unwrap());
            }
            r
        }
    }
}

impl VecSet {
    /// The boxes that hold the states after one step of the machine from
    /// the states of this box, or `None` when the machine halts on one of
    /// them.
    pub fn successors(&self, instrs: &[Instr]) -> (r: Option<Vec<VecSet>>)
        requires
            successors_fit(self@, instr_views(instrs@), 0),
        ensures
            match r {
                Some(list) => box_successors(self@, instr_views(instrs@), 0) == Some(
                    box_views(list@),
                ),
                None => box_successors(self@, instr_views(instrs@), 0) is None,
            },
    {
        self.successors_from(instrs, 0)
    }

    /// The successors under the instructions from the `k`-th on.
    fn successors_from(&self, instrs: &[Instr], k: usize) -> (r: Option<Vec<VecSet>>)
        requires
            successors_fit(self@, instr_views(instrs@), k as int),
        ensures
            match r {
                Some(list) => box_successors(self@, instr_views(instrs@), k as int) == Some(
                    box_views(list@),
                ),
                None => box_successors(self@, instr_views(instrs@), k as int) is None,
            },
        decreases instrs@.len() - k,
    {
        let n = instrs.len();
        if k >= n {
            return None;
        }
        let ghost prog = instr_views(instrs@);
        let instr = &instrs[k];
        proof {
            assert(prog[k as int] == instr@);
            assert(box_fits(self@, instr@));
            assert forall|i: int| 0 <= i < self.0@.len() implies (#[trigger] self.0@[i]).can_split_add(
                instr.data@[i],
            ) by {
                assert(self@[i].least() + instr@[i] <= SmallInt::MAX);
            }
        }
        let res = self.split_apply(instr);
        let SplitApplyResult { success, failure } = res;
        let ghost failures = box_failures(self@, instr@);
        let mut next: Vec<VecSet> = Vec::new();
        let mut j: usize = 0;
        while j < failure.len()
            invariant
                0 <= j <= failure@.len(),
                k < n,
                n == instrs@.len(),
                prog == instr_views(instrs@),
                failures == box_failures(self@, prog[k as int]),
                box_views(failure@) == failures,
                successors_fit(self@, prog, k as int),
                successors_of_all(failures, prog, k + 1, j as int) == Some(box_views(next@)),
            decreases failure@.len() - j,
        {
            assert(failures[j as int] == failure@[j as int]@);
            assert(successors_fit(failures[j as int], prog, k + 1));
            match failure[j].successors_from(instrs, k + 1) {
                None => {
                    proof {
                        lemma_successors_of_all_none(
                            failures,
                            prog,
                            k + 1,
                            j + 1,
                            failures.len() as int,
                        );
                    }
                    return None;
                },
                Some(list) => {
                    let ghost head = box_views(next@);
                    let ghost tail = box_views(list@);
                    let mut list = list;
                    next.append(&mut list);
                    assert(box_views(next@) =~= head + tail);
                },
            }
            j += 1;
        }
        match success {
            Some(vs) => {
                let ghost list = box_views(next@);
                next.push(vs);
                assert(box_views(next@) =~= list.push(vs@));
            },
            None => {},
        }
        Some(next)
    }
}

/// Once the successors of some boxes are missing, those of more boxes are.
pub proof fn lemma_successors_of_all_none(
    boxes: Seq<Seq<Range>>,
    prog: Seq<Seq<int>>,
    k: int,
    from: int,
    upto: int,
)
    requires
        0 <= from <= upto,
        successors_of_all(boxes, prog, k, from) is None,
    ensures
        successors_of_all(boxes, prog, k, upto) is None,
    decreases upto - from,
{
    if from < upto {
        lemma_successors_of_all_none(boxes, prog, k, from, upto - 1);
    }
}

/// A union of boxes.
#[derive(Debug, PartialEq)]
pub struct UnionVecSet(pub Vec<VecSet>);

impl View for UnionVecSet {
    type V = Seq<Seq<Range>>;

    open spec fn view(&self) -> Seq<Seq<Range>> {
        box_views(self.0@)
    }
}

impl Clone for UnionVecSet {
    fn clone(&self) -> (r: UnionVecSet)
        ensures
            r@ == self@,
    {
        let mut boxes: Vec<VecSet> = Vec::new();
        let mut i: usize = 0;
        while i < self.0.len()
            invariant
                0 <= i <= self.0@.len(),
                boxes@.len() == i,
                forall|j: int| 0 <= j < i ==> (#[trigger] boxes@[j])@ == self.0@[j]@,
            decreases self.0@.len() - i,
        {
            boxes.push(self.0[i].clone());
            i += 1;
        }
        let r = UnionVecSet(boxes);
        assert(r@ =~= self@);
        r
    }
}

impl UnionVecSet {
    /// The union of the boxes of `boxes`.
    pub fn new(boxes: Vec<VecSet>) -> (r: UnionVecSet)
        ensures
            r.0 == boxes,
    {
        UnionVecSet(boxes)
    }

    /// The number of boxes.
    pub fn len(&self) -> (n: usize)
        ensures
            n == self@.len(),
    {
        self.0.len()
    }

    /// Whether there is no box, and so no state.
    pub fn is_empty(&self) -> (r: bool)
        ensures
            r == (self@.len() == 0),
    {
        self.0.len() == 0
    }

    /// Whether `b` is a subset of one of the boxes.
    pub fn covers(&self, b: &VecSet) -> (r: bool)
        requires
            uniform(self@, b@.len()),
        ensures
            r == is_covered(b@, self@),
    {
        let mut j: usize = 0;
        while j < self.0.len()
            invariant
                0 <= j <= self.0@.len(),
                uniform(self@, b@.len()),
                forall|i: int| 0 <= i < j ==> !box_is_subset(b@, #[trigger] self@[i]),
            decreases self.0@.len() - j,
        {
            assert(self@[j as int] == self.0@[j as int]@);
            if b.is_subset(&self.0[j]) {
                return true;
            }
            j += 1;
        }
        false
    }

    /// The boxes that are no subset of any box of `other`.
    pub fn minus_covered(&self, other: &UnionVecSet) -> (r: UnionVecSet)
        requires
            forall|j: int|
                0 <= j < self@.len() ==> uniform(other@, (#[trigger] self@[j]).len()),
        ensures
            r@ == uncovered(self@, other@, self@.len() as int),
    {
        let mut kept: Vec<VecSet> = Vec::new();
        let mut i: usize = 0;
        while i < self.0.len()
            invariant
                0 <= i <= self.0@.len(),
                forall|j: int|
                    0 <= j < self@.len() ==> uniform(other@, (#[trigger] self@[j]).len()),
                box_views(kept@) == uncovered(self@, other@, i as int),
            decreases self.0@.len() - i,
        {
            assert(self@[i as int] == self.0@[i as int]@);
            if !other.covers(&self.0[i]) {
                let ghost head = box_views(kept@);
                kept.push(self.0[i].clone());
                assert(box_views(kept@) =~= head.push(self@[i as int]));
            }
            i += 1;
        }
        UnionVecSet(kept)
    }

    /// The union with `other`: the boxes of `self`, and those of `other`
    /// that are no subset of any of them.
    pub fn union(self, other: UnionVecSet) -> (r: UnionVecSet)
        requires
            forall|j: int|
                0 <= j < other@.len() ==> uniform(self@, (#[trigger] other@[j]).len()),
        ensures
            r@ == union_of(self@, other@),
    {
        let mut extra = other.minus_covered(&self);
        let ghost head = self@;
        let ghost tail = extra@;
        let mut boxes = self.0;
        boxes.append(&mut extra.0);
        let r = UnionVecSet(boxes);
        assert(r@ =~= head + tail);
        r
    }

    /// The boxes that hold the states after one step of the machine from
    /// the states of this union, or `None` when the machine halts on one of
    /// them.
    pub fn successors(&self, instrs: &[Instr]) -> (r: Option<UnionVecSet>)
        requires
            forall|j: int|
                0 <= j < self@.len() ==> successors_fit(
                    #[trigger] self@[j],
                    instr_views(instrs@),
                    0,
                ),
        ensures
            match r {
                Some(u) => successors_of_all(
                    self@,
                    instr_views(instrs@),
                    0,
                    self@.len() as int,
                ) == Some(u@),
                None => successors_of_all(self@, instr_views(instrs@), 0, self@.len() as int)
                     is None,
            },
    {
        let ghost prog = instr_views(instrs@);
        let mut next: Vec<VecSet> = Vec::new();
        let mut j: usize = 0;
        while j < self.0.len()
            invariant
                0 <= j <= self.0@.len(),
                prog == instr_views(instrs@),
                forall|i: int| 0 <= i < self@.len() ==> successors_fit(#[trigger] self@[i], prog, 0),
                successors_of_all(self@, prog, 0, j as int) == Some(box_views(next@)),
            decreases self.0@.len() - j,
        {
            assert(self@[j as int] == self.0@[j as int]@);
            match self.0[j].successors(instrs) {
                None => {
                    proof {
                        lemma_successors_of_all_none(self@, prog, 0, j + 1, self@.len() as int);
                    }
                    return None;
                },
                Some(list) => {
                    let ghost head = box_views(next@);
                    let ghost tail = box_views(list@);
                    let mut list = list;
                    next.append(&mut list);
                    assert(box_views(next@) =~= head + tail);
                },
            }
            j += 1;
        }
        Some(UnionVecSet(next))
    }
}

/// The set that a text denotes: a number for the set of that number, a
/// number and `+` for the set of the numbers from it on. White space
/// around the text does not count.
pub open spec fn range_of_text(text: Seq<char>) -> Option<Range> {
    let t = trimmed(text);
    if t.len() > 0 && t.last() == '+' {
        match parsed_small(t.drop_last()) {
            Some(n) => Some(Range::Min(n)),
            None => None,
        }
    } else {
        match parsed_small(t) {
            Some(n) => Some(Range::Fixed(n)),
            None => None,
        }
    }
}

impl NatSet {
    /// The set of one number, or of the numbers from one on, as `ray`
    /// says, if the number was read; else the message of the failure.
    pub fn of_parsed(ray: bool, number: Result<SmallInt, core::num::ParseIntError>) -> (r: Result<
        NatSet,
        String,
    >)
        ensures
            match number {
                Ok(n) => r == Ok::<NatSet, String>(
                    if ray {
                        NatSet::Min(n)
                    } else {
                        NatSet::Fixed(n)
                    },
                ),
                Err(_) => r is Err,
            },
    {
        match number {
            Ok(n) => if ray {
                Ok(NatSet::Min(n))
            } else {
                Ok(NatSet::Fixed(n))
            },
            Err(e) => Err(parse_error_text(&e)),
        }
    }

    /// Reads a set: `13` is the set of 13, `8+` the set of the numbers
    /// from 8 on.
    pub fn parse(s: &str) -> (r: Result<NatSet, String>)
        ensures
            match r {
                Ok(set) => range_of_text(s@) == Some(set@),
                Err(_) => range_of_text(s@) is None,
            },
    {
        let t = str_trim(s);
        match strip_plus(t) {
            Some(n_str) => {
                assert(t@.drop_last() =~= n_str@);
                NatSet::of_parsed(true, parse_small(n_str))
            },
            None => NatSet::of_parsed(false, parse_small(t)),
        }
    }
}

/// Reads a set as [`NatSet::parse`] does.
impl core::str::FromStr for NatSet {
    type Err = String;

    fn from_str(s: &str) -> (r: Result<Self, Self::Err>)
        ensures
            match r {
                Ok(set) => range_of_text(s@) == Some(set@),
                Err(_) => range_of_text(s@) is None,
            },
    {
        NatSet::parse(s)
    }
}

/// The text of a set: the number for the set of one number, the number
/// and a plus sign for the set of the numbers from it on.
pub open spec fn range_text(set: Range) -> Seq<char> {
    match set {
        Range::Fixed(n) => signed_text(n),
        Range::Min(n) => signed_text(n) + "+"@,
    }
}

/// The text of a box: the texts of its sets with a blank between each
/// two, in square brackets.
pub open spec fn box_text(b: Seq<Range>) -> Seq<char> {
    "["@ + joined(Seq::new(b.len(), |i: int| range_text(b[i])), " "@, b.len() as int) + "]"@
}

/// The text of a union of boxes: the texts of the boxes, one a line.
pub open spec fn union_text(boxes: Seq<Seq<Range>>) -> Seq<char> {
    joined(Seq::new(boxes.len(), |j: int| box_text(boxes[j])), "\n"@, boxes.len() as int)
}

impl NatSet {
    /// The set as a text, such as `13` or `8+`.
    pub fn to_string(&self) -> (r: String)
        ensures
            r@ == range_text(self@),
    {
        match *self {
            NatSet::Fixed(n) => signed_decimal(n as i64),
            NatSet::Min(n) => {
                let mut out = signed_decimal(n as i64);
                out.append("+");
                out
            },
        }
    }
}

impl VecSet {
    /// The box as a text, such as `[13 8+ 0]`.
    pub fn to_string(&self) -> (r: String)
        ensures
            r@ == box_text(self@),
    {
        let mut parts: Vec<String> = Vec::new();
        let mut i: usize = 0;
        while i < self.0.len()
            invariant
                0 <= i <= self.0@.len(),
                parts@.len() == i,
                forall|e: int| 0 <= e < i ==> (#[trigger] parts@[e])@ == range_text(self@[e]),
            decreases self.0@.len() - i,
        {
            assert(self@[i as int] == self.0@[i as int]@);
            parts.push(self.0[i].to_string());
            i += 1;
        }
        assert(texts(parts@) =~= Seq::new(self@.len(), |i: int| range_text(self@[i])));
        let mut out = String::from_str("[");
        out.append(join_strings(&parts, " ").as_str());
        out.append("]");
        out
    }
}

impl UnionVecSet {
    /// The union as a text, one box a line.
    pub fn to_string(&self) -> (r: String)
        ensures
            r@ == union_text(self@),
    {
        let mut parts: Vec<String> = Vec::new();
        let mut j: usize = 0;
        while j < self.0.len()
            invariant
                0 <= j <= self.0@.len(),
                parts@.len() == j,
                forall|e: int| 0 <= e < j ==> (#[trigger] parts@[e])@ == box_text(self@[e]),
            decreases self.0@.len() - j,
        {
            assert(self@[j as int] == self.0@[j as int]@);
            parts.push(self.0[j].to_string());
            j += 1;
        }
        assert(texts(parts@) =~= Seq::new(self@.len(), |j: int| box_text(self@[j])));
        join_strings(&parts, "\n")
    }
}

} // verus!

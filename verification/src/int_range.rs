//! Ranges of integers, and boxes of them, with an addition that is checked
//! against leaving the natural numbers.
use vstd::prelude::*;
use crate::program::SmallInt;
use crate::vec_set::{box_contains, box_is_subset, law_box_subset, Range};

verus! {

/// A set of integers: one number, or all numbers from one on. It is valid
/// when it holds natural numbers only.
#[derive(Debug, PartialEq, Eq, Clone, Copy, Structural)]
pub enum IntRange {
    /// `Fixed(n)` is the set of `n` alone.
    Fixed(SmallInt),
    /// `Min(n)` is the set of all numbers from `n` on.
    Min(SmallInt),
}

impl View for IntRange {
    type V = Range;

    open spec fn view(&self) -> Range {
        match *self {
            IntRange::Fixed(n) => Range::Fixed(n as int),
            IntRange::Min(n) => Range::Min(n as int),
        }
    }
}

impl IntRange {
    /// Whether the set holds natural numbers only.
    pub fn is_valid(self) -> (r: bool)
        ensures
            r == (self@.least() >= 0),
            r == forall|x: int| self@.contains(x) ==> x >= 0,
    {
        proof {
            assert(self@.contains(self@.least()));
        }
        match self {
            IntRange::Fixed(n) => n >= 0,
            IntRange::Min(n) => n >= 0,
        }
    }

    /// The set itself if it is valid.
    pub fn validate(self) -> (r: Option<IntRange>)
        ensures
            r == if self@.least() >= 0 {
                Some(self)
            } else {
                None
            },
    {
        if self.is_valid() {
            Some(self)
        } else {
            None
        }
    }

    /// Whether `self` is a subset of `other`.
    pub fn is_subset(self, other: IntRange) -> (r: bool)
        ensures
            r == self@.is_subset(other@),
            r == forall|x: int| self@.contains(x) ==> other@.contains(x),
    {
        proof {
            self@.lemma_is_subset(other@);
        }
        match (self, other) {
            (IntRange::Fixed(a), IntRange::Fixed(b)) => a == b,
            (IntRange::Min(_), IntRange::Fixed(_)) => false,
            (IntRange::Fixed(a), IntRange::Min(b)) => a >= b,
            (IntRange::Min(a), IntRange::Min(b)) => a >= b,
        }
    }

    /// Whether `v` can be added to the least member in machine integers.
    pub open spec fn can_add(self, v: SmallInt) -> bool {
        SmallInt::MIN <= self@.least() + v <= SmallInt::MAX
    }

    /// The set of the members of `self`, each moved by `v`.
    pub fn add(self, v: SmallInt) -> (r: IntRange)
        requires
            self.can_add(v),
        ensures
            r@ == self@.plus(v as int),
    {
        match self {
            IntRange::Fixed(n) => IntRange::Fixed(n + v),
            IntRange::Min(n) => IntRange::Min(n + v),
        }
    }

    /// The set of the members of `self`, each moved by `v`, or `None` when
    /// one of them would become negative.
    pub fn checked_add(self, v: SmallInt) -> (r: Option<IntRange>)
        requires
            self.can_add(v),
        ensures
            match r {
                Some(moved) => self@.least() + v >= 0 && moved@ == self@.plus(v as int),
                None => self@.least() + v < 0,
            },
    {
        self.add(v).validate()
    }
}

/// The sets of a list, each as its mathematical content.
pub open spec fn int_range_views(sets: Seq<IntRange>) -> Seq<Range> {
    Seq::new(sets.len(), |i: int| sets[i]@)
}

/// A box: the vectors of which each entry lies in the range of its
/// position.
#[derive(Debug, PartialEq, Clone)]
pub struct VecSet(pub Vec<IntRange>);

impl View for VecSet {
    type V = Seq<Range>;

    open spec fn view(&self) -> Seq<Range> {
        int_range_views(self.0@)
    }
}

impl VecSet {
    /// Whether `self` is a subset of `other`, a box of as many entries.
    pub fn is_subset(&self, other: &VecSet) -> (r: bool)
        requires
            self@.len() == other@.len(),
        ensures
            r == box_is_subset(self@, other@),
            r == forall|regs: Seq<int>| #[trigger]
                box_contains(self@, regs) ==> box_contains(other@, regs),
    {
        let n = self.0.len();
        let mut i: usize = 0;
        while i < n
            invariant
                0 <= i <= n,
                n == self.0@.len(),
                n == other.0@.len(),
                forall|j: int| 0 <= j < i ==> (#[trigger] self@[j]).is_subset(other@[j]),
            decreases n - i,
        {
            if !self.0[i].is_subset(other.0[i]) {
                proof {
                    assert(!self@[i as int].is_subset(other@[i as int]));
                    law_box_subset(self@, other@);
                }
                return false;
            }
            i += 1;
        }
        proof {
            law_box_subset(self@, other@);
        }
        true
    }

    /// The number of positions that the box and `vs` both have.
    pub open spec fn common_len(&self, vs: Seq<SmallInt>) -> int {
        if self.0@.len() <= vs.len() {
            self.0@.len() as int
        } else {
            vs.len() as int
        }
    }

    /// Whether `vs` can be added to the box in machine integers.
    pub open spec fn can_add(&self, vs: Seq<SmallInt>) -> bool {
        forall|i: int| 0 <= i < self.common_len(vs) ==> (#[trigger] self.0@[i]).can_add(vs[i])
    }

    /// Whether adding `vs` to the box leaves every range valid.
    pub open spec fn stays_valid(&self, vs: Seq<SmallInt>) -> bool {
        forall|i: int| 0 <= i < self.common_len(vs) ==> (#[trigger] self@[i]).least() + vs[i] >= 0
    }

    /// The box moved by `vs`, position by position as far as both go, or
    /// `None` when a range would come to hold a negative number.
    pub fn checked_add(&self, vs: Vec<SmallInt>) -> (r: Option<VecSet>)
        requires
            self.can_add(vs@),
        ensures
            r is Some <==> self.stays_valid(vs@),
            r matches Some(moved) ==> moved@.len() == self.common_len(vs@) && forall|i: int|
                0 <= i < moved@.len() ==> #[trigger] moved@[i] == self@[i].plus(vs@[i] as int),
    {
        let n = if self.0.len() <= vs.len() {
            self.0.len()
        } else {
            vs.len()
        };
        let mut vals: Vec<IntRange> = Vec::new();
        let mut i: usize = 0;
        while i < n
            invariant
                0 <= i <= n,
                n == self.common_len(vs@),
                self.can_add(vs@),
                vals@.len() == i,
                forall|j: int| 0 <= j < i ==> (#[trigger] self@[j]).least() + vs@[j] >= 0,
                forall|j: int|
                    0 <= j < i ==> (#[trigger] vals@[j])@ == self@[j].plus(vs@[j] as int),
            decreases n - i,
        {
            assert(self.0@[i as int].can_add(vs@[i as int]));
            assert(self@[i as int] == self.0@[i as int]@);
            match self.0[i].checked_add(vs[i]) {
                Some(moved) => {
                    vals.push(moved);
                },
                None => {
                    assert(!(self@[i as int].least() + vs@[i as int] >= 0));
                    return None;
                },
            }
            i += 1;
        }
        Some(VecSet(vals))
    }
}

} // verus!

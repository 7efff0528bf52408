//! Integer vectors with pointwise arithmetic and a pointwise partial order,
//! over machine integers and over bounds that may be infinite.
use vstd::prelude::*;
use core::cmp::Ordering;

verus! {

/// Machine integer of a vector's entries.
pub type Int = i64;

/// An integer or one of the two infinities.
pub enum Extended {
    Finite(int),
    Infinity,
    NegativeInfinity,
}

impl Extended {
    /// The total order: negative infinity below, infinity above every integer.
    pub open spec fn le(self, other: Extended) -> bool {
        match (self, other) {
            (Extended::NegativeInfinity, _) => true,
            (_, Extended::Infinity) => true,
            (Extended::Finite(a), Extended::Finite(b)) => a <= b,
            _ => false,
        }
    }

    /// The smaller of two values.
    pub open spec fn min(self, other: Extended) -> Extended {
        if self.le(other) {
            self
        } else {
            other
        }
    }

    /// The larger of two values.
    pub open spec fn max(self, other: Extended) -> Extended {
        if self.le(other) {
            other
        } else {
            self
        }
    }

    /// The value moved down by `d`; an infinity stays where it is.
    pub open spec fn minus(self, d: int) -> Extended {
        match self {
            Extended::Finite(a) => Extended::Finite(a - d),
            Extended::Infinity => Extended::Infinity,
            Extended::NegativeInfinity => Extended::NegativeInfinity,
        }
    }
}

/// A machine integer or one of the two infinities.
#[derive(Debug, Clone, Copy, PartialEq, Eq, Structural)]
pub enum Bound {
    Finite(Int),
    Infinity,
    NegativeInfinity,
}

impl View for Bound {
    type V = Extended;

    open spec fn view(&self) -> Extended {
        match *self {
            Bound::Finite(a) => Extended::Finite(a as int),
            Bound::Infinity => Extended::Infinity,
            Bound::NegativeInfinity => Extended::NegativeInfinity,
        }
    }
}

impl Bound {
    /// Whether `self` is at most `other` in the total order.
    pub fn le(&self, other: &Bound) -> (r: bool)
        ensures
            r == self@.le(other@),
    {
        match (*self, *other) {
            (Bound::NegativeInfinity, _) => true,
            (_, Bound::Infinity) => true,
            (Bound::Finite(a), Bound::Finite(b)) => a <= b,
            _ => false,
        }
    }

    /// The smaller of two bounds.
    pub fn min(self, other: Bound) -> (r: Bound)
        ensures
            r@ == self@.min(other@),
    {
        if self.le(&other) {
            self
        } else {
            other
        }
    }

    /// The larger of two bounds.
    pub fn max(self, other: Bound) -> (r: Bound)
        ensures
            r@ == self@.max(other@),
    {
        if self.le(&other) {
            other
        } else {
            self
        }
    }

    /// Whether the difference of two bounds is defined and representable.
    pub open spec fn can_sub(self, rhs: Bound) -> bool {
        match (self, rhs) {
            (Bound::Infinity, Bound::Infinity) => false,
            (Bound::NegativeInfinity, Bound::NegativeInfinity) => false,
            (Bound::Finite(a), Bound::Finite(b)) => Int::MIN <= a - b <= Int::MAX,
            _ => true,
        }
    }

    /// The difference of two bounds, as a mathematical value.
    pub open spec fn sub_spec(self, rhs: Bound) -> Extended {
        match (self, rhs) {
            (Bound::Finite(a), Bound::Finite(b)) => Extended::Finite(a - b),
            (Bound::Infinity, _) => Extended::Infinity,
            (_, Bound::NegativeInfinity) => Extended::Infinity,
            _ => Extended::NegativeInfinity,
        }
    }

    /// The difference of two bounds. An infinity absorbs every finite
    /// value; an infinity minus itself is undefined.
    pub fn sub(self, rhs: Bound) -> (r: Bound)
        requires
            self.can_sub(rhs),
        ensures
            r@ == self.sub_spec(rhs),
    {
        match (self, rhs) {
            (Bound::Finite(a), Bound::Finite(b)) => Bound::Finite(a - b),
            (Bound::Infinity, _) => Bound::Infinity,
            (_, Bound::NegativeInfinity) => Bound::Infinity,
            _ => Bound::NegativeInfinity,
        }
    }
}

/// The larger of two machine integers.
fn larger(a: &Int, b: &Int) -> (m: Int)
    ensures
        m == if *a >= *b {
            *a
        } else {
            *b
        },
{
    if *a >= *b {
        *a
    } else {
        *b
    }
}

/// The smaller of two machine integers.
fn smaller(a: &Int, b: &Int) -> (m: Int)
    ensures
        m == if *a <= *b {
            *a
        } else {
            *b
        },
{
    if *a <= *b {
        *a
    } else {
        *b
    }
}

/// The sum of two machine integers.
fn sum(a: &Int, b: &Int) -> (m: Int)
    requires
        Int::MIN <= *a + *b <= Int::MAX,
    ensures
        m == *a + *b,
{
    *a + *b
}

/// The difference of two machine integers.
fn difference(a: &Int, b: &Int) -> (m: Int)
    requires
        Int::MIN <= *a - *b <= Int::MAX,
    ensures
        m == *a - *b,
{
    *a - *b
}

/// The larger of two bounds.
fn larger_bound(a: &Bound, b: &Bound) -> (m: Bound)
    ensures
        m@ == a@.max(b@),
{
    a.max(*b)
}

/// The smaller of two bounds.
fn smaller_bound(a: &Bound, b: &Bound) -> (m: Bound)
    ensures
        m@ == a@.min(b@),
{
    a.min(*b)
}

/// The difference of two bounds.
fn difference_bound(a: &Bound, b: &Bound) -> (m: Bound)
    requires
        a.can_sub(*b),
    ensures
        m@ == a.sub_spec(*b),
{
    a.sub(*b)
}

/// A vector that is combined with other vectors entry by entry.
#[derive(Debug, PartialEq, Clone)]
pub struct StateDiffBase<T> {
    pub data: Vec<T>,
}

/// A vector of machine integers.
pub type StateDiff = StateDiffBase<Int>;

/// A vector of bounds, for limits of which some are infinite.
pub type StateDiffBound = StateDiffBase<Bound>;

impl View for StateDiffBase<Int> {
    type V = Seq<int>;

    open spec fn view(&self) -> Seq<int> {
        Seq::new(self.data@.len(), |i: int| self.data@[i] as int)
    }
}

impl View for StateDiffBase<Bound> {
    type V = Seq<Extended>;

    open spec fn view(&self) -> Seq<Extended> {
        Seq::new(self.data@.len(), |i: int| self.data@[i]@)
    }
}

impl<T> StateDiffBase<T> {
    /// The vector of the given entries.
    pub fn new(data: Vec<T>) -> (r: Self)
        ensures
            r.data == data,
    {
        Self { data }
    }

    /// Applies `func` to each pair of entries at the same position.
    pub fn map_with<F: Fn(&T, &T) -> T>(&self, other: &Self, func: F) -> (r: Self)
        requires
            self.data@.len() == other.data@.len(),
            forall|i: int|
                0 <= i < self.data@.len() ==> call_requires(
                    func,
                    (&#[trigger] self.data@[i], &other.data@[i]),
                ),
        ensures
            r.data@.len() == self.data@.len(),
            forall|i: int|
                0 <= i < self.data@.len() ==> call_ensures(
                    func,
                    (&self.data@[i], &other.data@[i]),
                    #[trigger] r.data@[i],
                ),
    {
        let n = self.data.len();
        let mut data: Vec<T> = Vec::new();
        let mut i: usize = 0;
        while i < n
            invariant
                0 <= i <= n,
                n == self.data@.len(),
                n == other.data@.len(),
                data@.len() == i,
                forall|j: int|
                    0 <= j < n ==> call_requires(func, (&#[trigger] self.data@[j], &other.data@[j])),
                forall|j: int|
                    0 <= j < i ==> call_ensures(
                        func,
                        (&self.data@[j], &other.data@[j]),
                        #[trigger] data@[j],
                    ),
            decreases n - i,
        {
            let x = func(&self.data[i], &other.data[i]);
            data.push(x);
            i += 1;
        }
        Self { data }
    }
}

impl StateDiffBase<Int> {
    /// The entrywise maximum of two vectors of one length.
    pub fn pointwise_max(&self, other: &Self) -> (r: Self)
        requires
            self@.len() == other@.len(),
        ensures
            r@.len() == self@.len(),
            forall|i: int|
                0 <= i < r@.len() ==> r@[i] == if self@[i] >= other@[i] {
                    self@[i]
                } else {
                    other@[i]
                },
    {
        let r = self.map_with(other, larger);
        proof {
            assert forall|i: int| 0 <= i < r@.len() implies r@[i] == if self@[i] >= other@[i] {
                self@[i]
            } else {
                other@[i]
            } by {
                assert(call_ensures(larger, (&self.data@[i], &other.data@[i]), r.data@[i]));
            }
        }
        r
    }

    /// The entrywise minimum of two vectors of one length.
    pub fn pointwise_min(&self, other: &Self) -> (r: Self)
        requires
            self@.len() == other@.len(),
        ensures
            r@.len() == self@.len(),
            forall|i: int|
                0 <= i < r@.len() ==> r@[i] == if self@[i] <= other@[i] {
                    self@[i]
                } else {
                    other@[i]
                },
    {
        let r = self.map_with(other, smaller);
        proof {
            assert forall|i: int| 0 <= i < r@.len() implies r@[i] == if self@[i] <= other@[i] {
                self@[i]
            } else {
                other@[i]
            } by {
                assert(call_ensures(smaller, (&self.data@[i], &other.data@[i]), r.data@[i]));
            }
        }
        r
    }

    /// Whether every entrywise sum of the two vectors is a machine integer.
    pub open spec fn can_add(&self, other: &Self) -> bool {
        &&& self@.len() == other@.len()
        &&& forall|i: int| 0 <= i < self@.len() ==> Int::MIN <= #[trigger] self@[i] + other@[i] <= Int::MAX
    }

    /// Whether every entrywise difference of the two vectors is a machine
    /// integer.
    pub open spec fn can_sub(&self, other: &Self) -> bool {
        &&& self@.len() == other@.len()
        &&& forall|i: int| 0 <= i < self@.len() ==> Int::MIN <= #[trigger] self@[i] - other@[i] <= Int::MAX
    }

    /// Whether every entry times `k` is a machine integer.
    pub open spec fn can_mul(&self, k: Int) -> bool {
        forall|i: int| 0 <= i < self@.len() ==> Int::MIN <= #[trigger] self@[i] * k <= Int::MAX
    }

    /// Adds `other` to this vector, entry by entry.
    pub fn add_assign(&mut self, other: &Self)
        requires
            old(self).can_add(other),
        ensures
            final(self)@.len() == old(self)@.len(),
            forall|i: int| 0 <= i < old(self)@.len() ==> final(self)@[i] == old(self)@[i] + other@[i],
    {
        let n = self.data.len();
        let mut i: usize = 0;
        while i < n
            invariant
                0 <= i <= n,
                n == self.data@.len(),
                n == other.data@.len(),
                n == old(self).data@.len(),
                old(self).can_add(other),
                forall|j: int| 0 <= j < i ==> self.data@[j] == old(self)@[j] + other@[j],
                forall|j: int| i <= j < n ==> self.data@[j] == old(self).data@[j],
            decreases n - i,
        {
            assert(Int::MIN <= old(self)@[i as int] + other@[i as int] <= Int::MAX);
            let x = self.data[i] + other.data[i];
            self.data.set(i, x);
            i += 1;
        }
    }
}

impl StateDiffBase<Bound> {
    /// The vector of `size` entries that are all infinity: the upper bound
    /// that bounds nothing.
    pub fn new_max(size: usize) -> (r: Self)
        ensures
            r@.len() == size,
            forall|i: int| 0 <= i < size ==> r@[i] == Extended::Infinity,
    {
        Self::filled(size, Bound::Infinity)
    }

    /// The vector of `size` entries that are all negative infinity: the
    /// lower bound that bounds nothing.
    pub fn new_min(size: usize) -> (r: Self)
        ensures
            r@.len() == size,
            forall|i: int| 0 <= i < size ==> r@[i] == Extended::NegativeInfinity,
    {
        Self::filled(size, Bound::NegativeInfinity)
    }

    /// The vector of `size` entries that are all `value`.
    fn filled(size: usize, value: Bound) -> (r: Self)
        ensures
            r.data@.len() == size,
            forall|i: int| 0 <= i < size ==> r.data@[i] == value,
    {
        let mut data: Vec<Bound> = Vec::new();
        let mut i: usize = 0;
        while i < size
            invariant
                0 <= i <= size,
                data@.len() == i,
                forall|j: int| 0 <= j < i ==> data@[j] == value,
            decreases size - i,
        {
            data.push(value);
            i += 1;
        }
        Self { data }
    }

    /// The vector of the same entries, each as a finite bound.
    pub fn from_diff(sd: &StateDiff) -> (r: Self)
        ensures
            r@.len() == sd@.len(),
            forall|i: int| 0 <= i < sd@.len() ==> r@[i] == Extended::Finite(sd@[i]),
    {
        let n = sd.data.len();
        let mut data: Vec<Bound> = Vec::new();
        let mut i: usize = 0;
        while i < n
            invariant
                0 <= i <= n,
                n == sd.data@.len(),
                data@.len() == i,
                forall|j: int| 0 <= j < i ==> data@[j] == Bound::Finite(sd.data@[j]),
            decreases n - i,
        {
            data.push(Bound::Finite(sd.data[i]));
            i += 1;
        }
        Self { data }
    }

    /// The entrywise maximum of two vectors of one length.
    pub fn pointwise_max(&self, other: &Self) -> (r: Self)
        requires
            self@.len() == other@.len(),
        ensures
            r@.len() == self@.len(),
            forall|i: int| 0 <= i < r@.len() ==> r@[i] == self@[i].max(other@[i]),
    {
        let r = self.map_with(other, larger_bound);
        proof {
            assert forall|i: int| 0 <= i < r@.len() implies r@[i] == self@[i].max(other@[i]) by {
                assert(call_ensures(larger_bound, (&self.data@[i], &other.data@[i]), r.data@[i]));
            }
        }
        r
    }

    /// The entrywise minimum of two vectors of one length.
    pub fn pointwise_min(&self, other: &Self) -> (r: Self)
        requires
            self@.len() == other@.len(),
        ensures
            r@.len() == self@.len(),
            forall|i: int| 0 <= i < r@.len() ==> r@[i] == self@[i].min(other@[i]),
    {
        let r = self.map_with(other, smaller_bound);
        proof {
            assert forall|i: int| 0 <= i < r@.len() implies r@[i] == self@[i].min(other@[i]) by {
                assert(call_ensures(smaller_bound, (&self.data@[i], &other.data@[i]), r.data@[i]));
            }
        }
        r
    }

    /// Whether every entrywise difference of the two vectors is defined
    /// and representable.
    pub open spec fn can_sub(&self, other: &Self) -> bool {
        &&& self.data@.len() == other.data@.len()
        &&& forall|i: int|
            0 <= i < self.data@.len() ==> (#[trigger] self.data@[i]).can_sub(other.data@[i])
    }
}

/// The entrywise sum of two vectors of one length, of which every sum is
/// a machine integer.
impl<'a> core::ops::Add for &'a StateDiffBase<Int> {
    type Output = StateDiffBase<Int>;

    fn add(self, other: &'a StateDiffBase<Int>) -> (r: StateDiffBase<Int>)
        ensures
            r@.len() == self@.len(),
            forall|i: int| 0 <= i < self@.len() ==> r@[i] == self@[i] + other@[i],
    {
        proof {
            assert forall|i: int| 0 <= i < self.data@.len() implies call_requires(
                sum,
                (&#[trigger] self.data@[i], &other.data@[i]),
            ) by {
                assert(Int::MIN <= self@[i] + other@[i] <= Int::MAX);
            }
        }
        let r = self.map_with(other, sum);
        proof {
            assert forall|i: int| 0 <= i < self@.len() implies r@[i] == self@[i] + other@[i] by {
                assert(call_ensures(sum, (&self.data@[i], &other.data@[i]), r.data@[i]));
            }
        }
        r
    }
}

/// When the operator may be used. What it returns is said by its own
/// clauses: a vector is no value that a contract could write down, so
/// the operator is not held to a value here.
impl<'a> vstd::std_specs::ops::AddSpecImpl for &'a StateDiffBase<Int> {
    open spec fn obeys_add_spec() -> bool {
        false
    }

    open spec fn add_req(self, other: &'a StateDiffBase<Int>) -> bool {
        self.can_add(other)
    }

    open spec fn add_spec(self, other: &'a StateDiffBase<Int>) -> StateDiffBase<Int> {
        *self
    }
}

/// The entrywise difference of two vectors of one length, of which every
/// difference is a machine integer.
impl<'a> core::ops::Sub for &'a StateDiffBase<Int> {
    type Output = StateDiffBase<Int>;

    fn sub(self, other: &'a StateDiffBase<Int>) -> (r: StateDiffBase<Int>)
        ensures
            r@.len() == self@.len(),
            forall|i: int| 0 <= i < self@.len() ==> r@[i] == self@[i] - other@[i],
    {
        proof {
            assert forall|i: int| 0 <= i < self.data@.len() implies call_requires(
                difference,
                (&#[trigger] self.data@[i], &other.data@[i]),
            ) by {
                assert(Int::MIN <= self@[i] - other@[i] <= Int::MAX);
            }
        }
        let r = self.map_with(other, difference);
        proof {
            assert forall|i: int| 0 <= i < self@.len() implies r@[i] == self@[i] - other@[i] by {
                assert(call_ensures(difference, (&self.data@[i], &other.data@[i]), r.data@[i]));
            }
        }
        r
    }
}

/// When the operator may be used. What it returns is said by its own
/// clauses: a vector is no value that a contract could write down, so
/// the operator is not held to a value here.
impl<'a> vstd::std_specs::ops::SubSpecImpl for &'a StateDiffBase<Int> {
    open spec fn obeys_sub_spec() -> bool {
        false
    }

    open spec fn sub_req(self, other: &'a StateDiffBase<Int>) -> bool {
        self.can_sub(other)
    }

    open spec fn sub_spec(self, other: &'a StateDiffBase<Int>) -> StateDiffBase<Int> {
        *self
    }
}

/// The entrywise difference of two vectors of bounds of one length, of
/// which every difference is defined and representable.
impl<'a> core::ops::Sub for &'a StateDiffBase<Bound> {
    type Output = StateDiffBase<Bound>;

    fn sub(self, other: &'a StateDiffBase<Bound>) -> (r: StateDiffBase<Bound>)
        ensures
            r@.len() == self@.len(),
            forall|i: int|
                0 <= i < self@.len() ==> r@[i] == self.data@[i].sub_spec(other.data@[i]),
    {
        let r = self.map_with(other, difference_bound);
        proof {
            assert forall|i: int| 0 <= i < self@.len() implies r@[i] == self.data@[i].sub_spec(
                other.data@[i],
            ) by {
                assert(call_ensures(
                    difference_bound,
                    (&self.data@[i], &other.data@[i]),
                    r.data@[i],
                ));
            }
        }
        r
    }
}

/// When the operator may be used. What it returns is said by its own
/// clauses: a vector is no value that a contract could write down, so
/// the operator is not held to a value here.
impl<'a> vstd::std_specs::ops::SubSpecImpl for &'a StateDiffBase<Bound> {
    open spec fn obeys_sub_spec() -> bool {
        false
    }

    open spec fn sub_req(self, other: &'a StateDiffBase<Bound>) -> bool {
        self.can_sub(other)
    }

    open spec fn sub_spec(self, other: &'a StateDiffBase<Bound>) -> StateDiffBase<Bound> {
        *self
    }
}

/// The vector with every entry multiplied by `k`, where every product is
/// a machine integer.
impl<'a> core::ops::Mul<Int> for &'a StateDiffBase<Int> {
    type Output = StateDiffBase<Int>;

    fn mul(self, k: Int) -> (r: StateDiffBase<Int>)
        ensures
            r@.len() == self@.len(),
            forall|i: int| 0 <= i < self@.len() ==> r@[i] == self@[i] * k,
    {
        let n = self.data.len();
        let mut data: Vec<Int> = Vec::new();
        let mut i: usize = 0;
        while i < n
            invariant
                0 <= i <= n,
                n == self.data@.len(),
                data@.len() == i,
                self.can_mul(k),
                forall|j: int| 0 <= j < i ==> data@[j] == self@[j] * k,
            decreases n - i,
        {
            assert(Int::MIN <= self@[i as int] * k <= Int::MAX);
            data.push(self.data[i] * k);
            i += 1;
        }
        StateDiffBase { data }
    }
}

/// When the operator may be used. What it returns is said by its own
/// clauses: a vector is no value that a contract could write down, so
/// the operator is not held to a value here.
impl<'a> vstd::std_specs::ops::MulSpecImpl<Int> for &'a StateDiffBase<Int> {
    open spec fn obeys_mul_spec() -> bool {
        false
    }

    open spec fn mul_req(self, k: Int) -> bool {
        self.can_mul(k)
    }

    open spec fn mul_spec(self, k: Int) -> StateDiffBase<Int> {
        *self
    }
}

/// Whether some entry of `a` is below the entry of `b` at its position.
pub open spec fn some_below(a: Seq<int>, b: Seq<int>) -> bool {
    exists|i: int| 0 <= i < a.len() && i < b.len() && a[i] < b[i]
}

/// Whether some entry of `a` is strictly below the entry of `b` at its
/// position, in the order of the extended integers.
pub open spec fn some_bound_below(a: Seq<Extended>, b: Seq<Extended>) -> bool {
    exists|i: int| 0 <= i < a.len() && i < b.len() && !(#[trigger] b[i]).le(a[i])
}

/// The pointwise order on the positions that both vectors have: `Less` or
/// `Greater` when one vector is nowhere above, or nowhere below, the other,
/// and none when there are no positions or the entries disagree.
pub open spec fn pointwise_order(any_pos: bool, below: bool, above: bool) -> Option<Ordering> {
    if !any_pos {
        None
    } else if below && above {
        None
    } else if below {
        Some(Ordering::Less)
    } else if above {
        Some(Ordering::Greater)
    } else {
        Some(Ordering::Equal)
    }
}

impl StateDiffBase<Int> {
    /// Scans the positions that both vectors have. Returns whether there
    /// is any, whether `self` is below `other` at one, and whether it is
    /// above at one.
    fn scan_entries(&self, other: &Self) -> (r: (bool, bool, bool))
        ensures
            r.0 == (self@.len() > 0 && other@.len() > 0),
            r.1 == some_below(self@, other@),
            r.2 == some_below(other@, self@),
    {
        let n = if self.data.len() <= other.data.len() {
            self.data.len()
        } else {
            other.data.len()
        };
        let mut below = false;
        let mut above = false;
        let mut i: usize = 0;
        while i < n
            invariant
                0 <= i <= n,
                n <= self.data@.len(),
                n <= other.data@.len(),
                below == (exists|j: int| 0 <= j < i && self@[j] < other@[j]),
                above == (exists|j: int| 0 <= j < i && other@[j] < self@[j]),
            decreases n - i,
        {
            if self.data[i] < other.data[i] {
                below = true;
                assert(self@[i as int] < other@[i as int]);
            }
            if other.data[i] < self.data[i] {
                above = true;
                assert(other@[i as int] < self@[i as int]);
            }
            i += 1;
        }
        (n > 0, below, above)
    }
}

/// The pointwise partial order: a vector is at most another when each of
/// its entries is at most the entry of the other at its position. See
/// [`pointwise_order`].
impl PartialOrd for StateDiffBase<Int> {
    fn partial_cmp(&self, other: &Self) -> (r: Option<Ordering>) {
        let (any_pos, below, above) = self.scan_entries(other);
        if !any_pos {
            None
        } else if below && above {
            None
        } else if below {
            Some(Ordering::Less)
        } else if above {
            Some(Ordering::Greater)
        } else {
            Some(Ordering::Equal)
        }
    }
}

impl vstd::std_specs::cmp::PartialOrdSpecImpl for StateDiffBase<Int> {
    open spec fn obeys_partial_cmp_spec() -> bool {
        true
    }

    open spec fn partial_cmp_spec(&self, other: &Self) -> Option<Ordering> {
        pointwise_order(
            self@.len() > 0 && other@.len() > 0,
            some_below(self@, other@),
            some_below(other@, self@),
        )
    }
}

impl StateDiffBase<Bound> {
    /// Scans the positions that both vectors have. Returns whether there
    /// is any, whether `self` is below `other` at one, and whether it is
    /// above at one.
    fn scan_entries(&self, other: &Self) -> (r: (bool, bool, bool))
        ensures
            r.0 == (self@.len() > 0 && other@.len() > 0),
            r.1 == some_bound_below(self@, other@),
            r.2 == some_bound_below(other@, self@),
    {
        let n = if self.data.len() <= other.data.len() {
            self.data.len()
        } else {
            other.data.len()
        };
        let mut below = false;
        let mut above = false;
        let mut i: usize = 0;
        while i < n
            invariant
                0 <= i <= n,
                n <= self.data@.len(),
                n <= other.data@.len(),
                below == (exists|j: int| 0 <= j < i && !(#[trigger] other@[j]).le(self@[j])),
                above == (exists|j: int| 0 <= j < i && !(#[trigger] self@[j]).le(other@[j])),
            decreases n - i,
        {
            if !other.data[i].le(&self.data[i]) {
                below = true;
                assert(!other@[i as int].le(self@[i as int]));
            }
            if !self.data[i].le(&other.data[i]) {
                above = true;
                assert(!self@[i as int].le(other@[i as int]));
            }
            i += 1;
        }
        (n > 0, below, above)
    }
}

/// The pointwise partial order of vectors of bounds. See
/// [`pointwise_order`].
impl PartialOrd for StateDiffBase<Bound> {
    fn partial_cmp(&self, other: &Self) -> (r: Option<Ordering>) {
        let (any_pos, below, above) = self.scan_entries(other);
        if !any_pos {
            None
        } else if below && above {
            None
        } else if below {
            Some(Ordering::Less)
        } else if above {
            Some(Ordering::Greater)
        } else {
            Some(Ordering::Equal)
        }
    }
}

impl vstd::std_specs::cmp::PartialOrdSpecImpl for StateDiffBase<Bound> {
    open spec fn obeys_partial_cmp_spec() -> bool {
        true
    }

    open spec fn partial_cmp_spec(&self, other: &Self) -> Option<Ordering> {
        pointwise_order(
            self@.len() > 0 && other@.len() > 0,
            some_bound_below(self@, other@),
            some_bound_below(other@, self@),
        )
    }
}

/// The vector of the same entries, each as a finite bound.
impl<'a> From<&'a StateDiffBase<Int>> for StateDiffBase<Bound> {
    fn from(sd: &'a StateDiffBase<Int>) -> (r: StateDiffBase<Bound>)
        ensures
            r@.len() == sd@.len(),
            forall|i: int| 0 <= i < sd@.len() ==> r@[i] == Extended::Finite(sd@[i]),
    {
        StateDiffBase::<Bound>::from_diff(sd)
    }
}

/// What the conversion returns is said by its own clauses: a vector is no
/// value that a contract could write down.
impl<'a> vstd::std_specs::convert::FromSpecImpl<&'a StateDiffBase<Int>> for StateDiffBase<Bound> {
    open spec fn obeys_from_spec() -> bool {
        false
    }

    open spec fn from_spec(sd: &'a StateDiffBase<Int>) -> StateDiffBase<Bound> {
        arbitrary()
    }
}

} // verus!

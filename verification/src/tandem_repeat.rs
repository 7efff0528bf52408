//! Tandem repeats: stretches of a sequence in which one block stands
//! several times back to back.
//!
//! The search is greedy. It walks the sequence from the left; at each
//! position it takes the repeat that covers most symbols, if there is one,
//! and goes on behind it, else it goes on with the next symbol.
use vstd::prelude::*;
use vstd::slice::slice_subrange;
use vstd::std_specs::cmp::PartialEqSpec;
use vstd::string::StringExecFns;
use crate::text::{decimal, decimal_text, join_strings, joined, push_char, texts};

verus! {

/// The least number of copies that count as a repeat.
pub const MIN_REPEATS: usize = 2;

/// The longest block that is tried.
pub const MAX_WINDOW: usize = 100;

/// Symbols that can be written out, one by one and as a sequence.
pub trait ToStringVec: Sized {
    /// The text of one symbol.
    spec fn one_text(&self) -> Seq<char>;

    /// The text of a sequence of symbols.
    spec fn vec_text(xs: Seq<Self>) -> Seq<char>;

    /// One symbol as a string.
    fn to_string_one(&self) -> (s: String)
        ensures
            s@ == self.one_text(),
    ;

    /// A sequence of symbols as a string.
    fn to_string_vec(xs: &Vec<Self>) -> (s: String)
        ensures
            s@ == Self::vec_text(xs@),
    ;
}

/// A block of symbols and the number of times it stands in a row.
#[derive(Debug, PartialEq, Clone)]
pub struct RepBlock<T: PartialEq + Clone + ToStringVec> {
    pub block: Vec<T>,
    pub rep: usize,
}

/// A repeat: from `start` on, the block of `period` symbols stands `count`
/// times in a row.
#[derive(Debug, PartialEq, Clone)]
pub struct RepeatInfo {
    pub start: usize,
    pub period: usize,
    pub count: usize,
}

/// A stretch of a sequence: `count` blocks of `period` symbols from
/// `start` on.
pub struct Span {
    pub start: int,
    pub period: int,
    pub count: int,
}

impl Span {
    /// The number of symbols in the stretch.
    pub open spec fn size(self) -> int {
        self.period * self.count
    }

    /// The position behind the stretch.
    pub open spec fn end(self) -> int {
        self.start + self.period * self.count
    }
}

impl View for RepeatInfo {
    type V = Span;

    open spec fn view(&self) -> Span {
        Span { start: self.start as int, period: self.period as int, count: self.count as int }
    }
}

/// The repeats of a list, each as a stretch.
pub open spec fn repeat_views(repeats: Seq<RepeatInfo>) -> Seq<Span> {
    Seq::new(repeats.len(), |i: int| repeats[i]@)
}

impl RepeatInfo {
    /// The number of symbols that the repeat covers.
    pub fn size(&self) -> (n: usize)
        requires
            self.period * self.count <= usize::MAX,
        ensures
            n == self@.size(),
    {
        self.period * self.count
    }
}

/// Whether the `period` symbols from `offset` on equal, one by one, the
/// first `period` symbols.
pub open spec fn block_matches<T: PartialEq>(data: Seq<T>, period: int, offset: int) -> bool {
    forall|i: int| 0 <= i < period ==> (#[trigger] data[i]).eq_spec(&data[offset + i])
}

/// The number of blocks in a row, from `offset` on, that equal the first
/// block of `period` symbols.
pub open spec fn copies_from<T: PartialEq>(data: Seq<T>, period: int, offset: int) -> int
    decreases data.len() - offset,
{
    if period >= 1 && 0 <= offset && offset + period <= data.len() && block_matches(
        data,
        period,
        offset,
    ) {
        1 + copies_from(data, period, offset + period)
    } else {
        0
    }
}

/// The number of times that the first block of `period` symbols stands in
/// a row at the start of `data`, itself included.
pub open spec fn repeat_count<T: PartialEq>(data: Seq<T>, period: int) -> int {
    1 + copies_from(data, period, period)
}

/// The longest block that is tried on a sequence of `len` symbols.
pub open spec fn window(len: int) -> int {
    if MAX_WINDOW <= len / (MIN_REPEATS as int) {
        MAX_WINDOW as int
    } else {
        len / (MIN_REPEATS as int)
    }
}

/// The repeat at the start of `data` that covers most symbols, among the
/// blocks of at most `upto` symbols; of two that cover the same, the one
/// with the shorter block. The stretch starts at 0.
pub open spec fn best_repeat<T: PartialEq>(data: Seq<T>, upto: int) -> Option<Span>
    decreases upto,
{
    if upto <= 0 {
        None
    } else {
        let before = best_repeat(data, upto - 1);
        let count = repeat_count(data, upto);
        let covered = match before {
            Some(span) => span.size(),
            None => 0,
        };
        if count >= MIN_REPEATS && count * upto > covered {
            Some(Span { start: 0, period: upto, count: count })
        } else {
            before
        }
    }
}

/// The repeat that the search takes at the start of `data`, if any.
pub open spec fn prefix_repeat<T: PartialEq>(data: Seq<T>) -> Option<Span> {
    best_repeat(data, window(data.len() as int))
}

/// The repeats that the search takes in `data` from `start` on.
pub open spec fn scan_repeats<T: PartialEq>(data: Seq<T>, start: int) -> Seq<Span>
    decreases data.len() - start,
{
    if start < 0 || start >= data.len() {
        Seq::empty()
    } else {
        match prefix_repeat(data.subrange(start, data.len() as int)) {
            Some(span) => if span.size() >= 1 && start + span.size() <= data.len() {
                seq![Span { start: start, period: span.period, count: span.count }] + scan_repeats(
                    data,
                    start + span.size(),
                )
            } else {
                Seq::empty()
            },
            None => scan_repeats(data, start + 1),
        }
    }
}

/// The blocks in a row that equal the first block lie inside the data.
pub proof fn lemma_copies_fit<T: PartialEq>(data: Seq<T>, period: int, offset: int)
    requires
        period >= 1,
        0 <= offset <= data.len(),
    ensures
        copies_from(data, period, offset) >= 0,
        offset + copies_from(data, period, offset) * period <= data.len(),
    decreases data.len() - offset,
{
    if offset + period <= data.len() && block_matches(data, period, offset) {
        lemma_copies_fit(data, period, offset + period);
        assert((1 + copies_from(data, period, offset + period)) * period == period + copies_from(
            data,
            period,
            offset + period,
        ) * period) by (nonlinear_arith);
    }
}

/// The repeat that is taken has a block of at least one and at most `upto`
/// symbols, at least two copies, and lies inside the data.
pub proof fn lemma_best_repeat<T: PartialEq>(data: Seq<T>, upto: int)
    requires
        0 <= upto <= data.len(),
    ensures
        best_repeat(data, upto) matches Some(span) ==> {
            &&& span.start == 0
            &&& 1 <= span.period <= upto
            &&& span.count >= MIN_REPEATS
            &&& span.count == repeat_count(data, span.period)
            &&& span.end() <= data.len()
        },
    decreases upto,
{
    if upto > 0 {
        lemma_best_repeat(data, upto - 1);
        lemma_copies_fit(data, upto, upto);
        assert((1 + copies_from(data, upto, upto)) * upto == upto + copies_from(data, upto, upto)
            * upto) by (nonlinear_arith);
        let span = Span { start: 0, period: upto, count: repeat_count(data, upto) };
        assert(span.period * span.count == span.count * upto) by (nonlinear_arith)
            requires
                span.period == upto,
        ;
    }
}

/// Whether the `period` symbols from `offset` on equal the first `period`
/// symbols of `data`.
fn blocks_equal<T: PartialEq>(data: &[T], period: usize, offset: usize) -> (r: bool)
    requires
        offset + period <= data@.len(),
        period <= offset,
    ensures
        T::obeys_eq_spec() ==> r == block_matches(data@, period as int, offset as int),
{
    let mut i: usize = 0;
    while i < period
        invariant
            0 <= i <= period,
            offset + period <= data@.len(),
            period <= offset,
            T::obeys_eq_spec() ==> forall|j: int|
                0 <= j < i ==> (#[trigger] data@[j]).eq_spec(&data@[offset + j]),
        decreases period - i,
    {
        if !(data[i] == data[offset + i]) {
            return false;
        }
        i += 1;
    }
    true
}

/// The repeat at the start of `data` that covers most symbols, if any.
pub fn find_repeat_info_prefix<T: PartialEq>(data: &[T]) -> (r: Option<RepeatInfo>)
    ensures
        T::obeys_eq_spec() ==> match r {
            Some(info) => prefix_repeat(data@) == Some(info@),
            None => prefix_repeat(data@) is None,
        },
        r matches Some(info) ==> info.start == 0 && 1 <= info.period <= MAX_WINDOW && info.count
            >= MIN_REPEATS && info.period * info.count <= data@.len(),
{
    let len = data.len();
    let mut best: Option<RepeatInfo> = None;
    let mut max_coverage: usize = 0;
    let half = len / MIN_REPEATS;
    let p_max = if MAX_WINDOW <= half {
        MAX_WINDOW
    } else {
        half
    };
    let mut period: usize = 1;
    while period <= p_max
        invariant
            1 <= period <= p_max + 1,
            len == data@.len(),
            p_max == window(len as int),
            p_max <= len,
            max_coverage <= len,
            p_max <= MAX_WINDOW,
            best matches Some(info) ==> info.start == 0 && 1 <= info.period <= MAX_WINDOW
                && info.count >= MIN_REPEATS && info.period * info.count <= len,
            T::obeys_eq_spec() ==> match best {
                Some(info) => best_repeat(data@, period - 1) == Some(info@) && max_coverage
                    == info@.size(),
                None => best_repeat(data@, period - 1) is None && max_coverage == 0,
            },
        decreases p_max + 1 - period,
    {
        let mut count: usize = 1;
        let mut offset: usize = period;
        let mut going = true;
        while going && period <= len - offset
            invariant
                1 <= period <= p_max,
                p_max <= len,
                len == data@.len(),
                period <= offset <= len,
                count >= 1,
                count <= offset,
                offset == count * period,
                T::obeys_eq_spec() ==> copies_from(data@, period as int, period as int) == count - 1
                    + if going {
                    copies_from(data@, period as int, offset as int)
                } else {
                    0
                },
            decreases len - offset + if going { 1int } else { 0int },
        {
            if blocks_equal(data, period, offset) {
                assert((count + 1) * period == count * period + period) by (nonlinear_arith);
                assert(count + 1 <= (count + 1) * period) by (nonlinear_arith)
                    requires
                        period >= 1,
                        count >= 1,
                ;
                count += 1;
                offset += period;
            } else {
                going = false;
            }
        }
        let coverage = offset;
        proof {
            assert(count * period == period * count) by (nonlinear_arith);
            lemma_best_repeat(data@, period - 1);
        }
        if count >= MIN_REPEATS && coverage > max_coverage {
            max_coverage = coverage;
            best = Some(RepeatInfo { start: 0, period, count });
        }
        period += 1;
    }
    best
}

/// Whether `repeats` are true repeats inside a sequence of `len` symbols,
/// from left to right, none reaching into the next.
pub open spec fn is_tiling(repeats: Seq<Span>, len: int) -> bool {
    &&& forall|k: int|
        0 <= k < repeats.len() ==> {
            &&& (#[trigger] repeats[k]).start >= 0
            &&& 1 <= repeats[k].period <= MAX_WINDOW
            &&& repeats[k].count >= MIN_REPEATS
            &&& repeats[k].end() <= len
        }
    &&& forall|k: int|
        0 <= k < repeats.len() - 1 ==> (#[trigger] repeats[k]).end() <= repeats[k + 1].start
}

/// A stretch that stands more than once among the stretches into which
/// repeats cut a sequence is one of the repeats.
pub proof fn lemma_block_spans_repeats(repeats: Seq<Span>, len: int, from: int, reached: int)
    requires
        0 <= from <= repeats.len(),
    ensures
        forall|j: int|
            0 <= j < block_spans(repeats, len, from, reached).len() && (#[trigger] block_spans(
                repeats,
                len,
                from,
                reached,
            )[j]).count != 1 ==> exists|k: int|
                from <= k < repeats.len() && #[trigger] repeats[k] == block_spans(
                    repeats,
                    len,
                    from,
                    reached,
                )[j],
    decreases repeats.len() - from,
{
    if from < repeats.len() {
        let repeat = repeats[from];
        lemma_block_spans_repeats(repeats, len, from + 1, repeat.end());
        let gap = if repeat.start > reached {
            seq![Span { start: reached, period: repeat.start - reached, count: 1 }]
        } else {
            Seq::<Span>::empty()
        };
        let rest = block_spans(repeats, len, from + 1, repeat.end());
        let all = block_spans(repeats, len, from, reached);
        assert(all == gap + seq![repeat] + rest);
        assert forall|j: int| 0 <= j < all.len() && (#[trigger] all[j]).count != 1 implies exists|
            k: int,
        |
            from <= k < repeats.len() && #[trigger] repeats[k] == all[j] by {
            if j < gap.len() {
                assert(all[j] == gap[j]);
            } else if j == gap.len() {
                assert(all[j] == repeat);
                assert(repeats[from] == all[j]);
            } else {
                assert(all[j] == rest[j - gap.len() - 1]);
                let k = choose|k: int|
                    from + 1 <= k < repeats.len() && #[trigger] repeats[k] == rest[j - gap.len()
                        - 1];
                assert(repeats[k] == all[j]);
            }
        }
    }
}

/// The repeats that the greedy search takes in `data`, from the left.
pub fn find_repeat_info<T: PartialEq>(data: &[T]) -> (r: Vec<RepeatInfo>)
    ensures
        T::obeys_eq_spec() ==> repeat_views(r@) == scan_repeats(data@, 0),
        is_tiling(repeat_views(r@), data@.len() as int),
{
    let len = data.len();
    let mut repeats: Vec<RepeatInfo> = Vec::new();
    let mut start: usize = 0;
    while start < len
        invariant
            0 <= start <= len,
            len == data@.len(),
            T::obeys_eq_spec() ==> scan_repeats(data@, 0) == repeat_views(repeats@) + scan_repeats(
                data@,
                start as int,
            ),
            is_tiling(repeat_views(repeats@), len as int),
            repeats@.len() > 0 ==> repeats@[repeats@.len() - 1]@.end() <= start,
        decreases len - start,
    {
        let rest = slice_subrange(data, start, len);
        let ghost done = repeat_views(repeats@);
        proof {
            lemma_best_repeat(rest@, window(rest@.len() as int));
        }
        match find_repeat_info_prefix(rest) {
            Some(repeat) => {
                let ghost tail = scan_repeats(data@, start + repeat@.size());
                assert(repeat.period * repeat.count >= 1) by (nonlinear_arith)
                    requires
                        repeat.period >= 1,
                        repeat.count >= 2,
                ;
                let size = repeat.period * repeat.count;
                let info = RepeatInfo { start, period: repeat.period, count: repeat.count };
                let ghost before = repeat_views(repeats@);
                repeats.push(info);
                proof {
                    let now = repeat_views(repeats@);
                    assert(info@.end() == start + size) by (nonlinear_arith)
                        requires
                            info@.end() == start + repeat.period * repeat.count,
                            size == repeat.period * repeat.count,
                    ;
                    assert forall|k: int| 0 <= k < now.len() implies {
                        &&& (#[trigger] now[k]).start >= 0
                        &&& 1 <= now[k].period <= MAX_WINDOW
                        &&& now[k].count >= MIN_REPEATS
                        &&& now[k].end() <= len
                    } by {
                        if k < before.len() {
                            assert(now[k] == before[k]);
                        }
                    }
                    assert forall|k: int| 0 <= k < now.len() - 1 implies (#[trigger] now[k]).end()
                        <= now[k + 1].start by {
                        if k < before.len() - 1 {
                            assert(now[k] == before[k]);
                            assert(now[k + 1] == before[k + 1]);
                        }
                    }
                }
                proof {
                    if T::obeys_eq_spec() {
                        assert(rest@ == data@.subrange(start as int, data@.len() as int));
                        assert(repeat@.size() == size);
                        assert(scan_repeats(data@, start as int) == seq![info@] + tail);
                        assert(repeat_views(repeats@) =~= done + seq![info@]);
                        assert(done + (seq![info@] + tail) =~= (done + seq![info@]) + tail);
                    }
                }
                start += size;
            },
            None => {
                start += 1;
            },
        }
    }
    proof {
        assert(repeat_views(repeats@) + Seq::<Span>::empty() =~= repeat_views(repeats@));
    }
    repeats
}

/// The stretches into which the repeats from the `from`-th on cut the rest
/// of a sequence of `len` symbols, when everything before `reached` has
/// been dealt with: before each repeat the symbols that no repeat covers,
/// as one block that stands once, then the repeat; at the end what is left.
pub open spec fn block_spans(repeats: Seq<Span>, len: int, from: int, reached: int) -> Seq<Span>
    decreases repeats.len() - from,
{
    if from < 0 || from >= repeats.len() {
        if reached < len {
            seq![Span { start: reached, period: len - reached, count: 1 }]
        } else {
            Seq::empty()
        }
    } else {
        let repeat = repeats[from];
        let gap = if repeat.start > reached {
            seq![Span { start: reached, period: repeat.start - reached, count: 1 }]
        } else {
            Seq::empty()
        };
        gap + seq![repeat] + block_spans(repeats, len, from + 1, repeat.end())
    }
}

/// Whether `block` holds a copy of the first block of the stretch `span` of
/// `data`, with the stretch's number of copies.
pub open spec fn is_block_of<T: PartialEq + Clone + ToStringVec>(
    block: RepBlock<T>,
    data: Seq<T>,
    span: Span,
) -> bool {
    &&& block.rep == span.count
    &&& block.block@.len() == span.period
    &&& forall|j: int|
        0 <= j < span.period ==> cloned(data[span.start + j], #[trigger] block.block@[j])
}

/// Whether `blocks` are, one by one, the blocks of the stretches `spans` of
/// `data`.
pub open spec fn are_blocks_of<T: PartialEq + Clone + ToStringVec>(
    blocks: Seq<RepBlock<T>>,
    data: Seq<T>,
    spans: Seq<Span>,
) -> bool {
    &&& blocks.len() == spans.len()
    &&& forall|k: int| 0 <= k < blocks.len() ==> is_block_of(#[trigger] blocks[k], data, spans[k])
}

/// Whether every repeat has its first block inside a sequence of `len`
/// symbols, and ends at a position that a machine integer holds.
pub open spec fn repeats_fit(repeats: Seq<Span>, len: int) -> bool {
    forall|k: int|
        0 <= k < repeats.len() ==> {
            &&& (#[trigger] repeats[k]).start + repeats[k].period <= len
            &&& repeats[k].end() <= usize::MAX
        }
}

/// A copy of the symbols of `data` from `from` up to `to`.
fn clone_range<T: Clone>(data: &[T], from: usize, to: usize) -> (r: Vec<T>)
    requires
        from <= to <= data@.len(),
    ensures
        r@.len() == to - from,
        forall|j: int| 0 <= j < to - from ==> cloned(data@[from + j], #[trigger] r@[j]),
{
    let mut out: Vec<T> = Vec::new();
    let mut i: usize = from;
    while i < to
        invariant
            from <= i <= to,
            to <= data@.len(),
            out@.len() == i - from,
            forall|j: int| 0 <= j < i - from ==> cloned(data@[from + j], #[trigger] out@[j]),
        decreases to - i,
    {
        out.push(data[i].clone());
        i += 1;
    }
    out
}

/// The blocks into which `repeats` cut `data`: see [`block_spans`].
pub fn as_rep_blocks<T: PartialEq + Clone + ToStringVec>(
    data: &[T],
    repeats: Vec<RepeatInfo>,
) -> (r: Vec<RepBlock<T>>)
    requires
        repeats_fit(repeat_views(repeats@), data@.len() as int),
    ensures
        are_blocks_of(r@, data@, block_spans(repeat_views(repeats@), data@.len() as int, 0, 0)),
{
    let len = data.len();
    let ghost views = repeat_views(repeats@);
    let mut ret: Vec<RepBlock<T>> = Vec::new();
    let mut n: usize = 0;
    let mut k: usize = 0;
    let ghost mut done: Seq<Span> = Seq::empty();
    while k < repeats.len()
        invariant
            0 <= k <= repeats@.len(),
            len == data@.len(),
            views == repeat_views(repeats@),
            repeats_fit(views, len as int),
            are_blocks_of(ret@, data@, done),
            block_spans(views, len as int, 0, 0) == done + block_spans(
                views,
                len as int,
                k as int,
                n as int,
            ),
        decreases repeats@.len() - k,
    {
        let repeat = &repeats[k];
        let ghost span = views[k as int];
        let ghost rest = block_spans(views, len as int, k + 1, span.end());
        assert(span == repeat@);
        assert(span.start + span.period <= len && span.end() <= usize::MAX);
        if repeat.start > n {
            let ghost gap = Span { start: n as int, period: repeat.start - n, count: 1 };
            let block = RepBlock { block: clone_range(data, n, repeat.start), rep: 1 };
            assert(is_block_of(block, data@, gap));
            ret.push(block);
            proof {
                assert((done + seq![gap]) + (seq![span] + rest) =~= done + (seq![gap] + seq![span]
                    + rest));
                done = done + seq![gap];
            }
        } else {
            assert(done + (seq![span] + rest) =~= done + (Seq::<Span>::empty() + seq![span]
                + rest));
        }
        let block = RepBlock {
            block: clone_range(data, repeat.start, repeat.start + repeat.period),
            rep: repeat.count,
        };
        assert(is_block_of(block, data@, span));
        ret.push(block);
        proof {
            assert((done + seq![span]) + rest =~= done + (seq![span] + rest));
            done = done + seq![span];
        }
        n = repeat.start + repeat.period * repeat.count;
        k += 1;
    }
    if n < len {
        let ghost tail = Span { start: n as int, period: len - n, count: 1 };
        let block = RepBlock { block: clone_range(data, n, len), rep: 1 };
        assert(is_block_of(block, data@, tail));
        ret.push(block);
        proof {
            done = done + seq![tail];
        }
    } else {
        assert(done + Seq::<Span>::empty() =~= done);
    }
    ret
}

/// The blocks into which the repeats of `data` cut it.
pub fn find_rep_blocks<T: PartialEq + Clone + ToStringVec>(data: &[T]) -> (r: Vec<RepBlock<T>>)
    ensures
        T::obeys_eq_spec() ==> are_blocks_of(
            r@,
            data@,
            block_spans(scan_repeats(data@, 0), data@.len() as int, 0, 0),
        ),
{
    let repeats = find_repeat_info(data);
    let len = data.len();
    proof {
        let views = repeat_views(repeats@);
        assert forall|k: int| 0 <= k < views.len() implies {
            &&& (#[trigger] views[k]).start + views[k].period <= len
            &&& views[k].end() <= usize::MAX
        } by {
            assert(views[k].end() <= len);
            assert(views[k].period <= views[k].period * views[k].count) by (nonlinear_arith)
                requires
                    views[k].period >= 1,
                    views[k].count >= 2,
            ;
        }
    }
    as_rep_blocks(data, repeats)
}

impl<T: PartialEq + Clone + ToStringVec> ToStringVec for RepBlock<T> {
    /// The text of the block, and behind it `^` and the number of copies
    /// when that is not one.
    open spec fn one_text(&self) -> Seq<char> {
        T::vec_text(self.block@) + if self.rep != 1 {
            seq!['^'] + decimal_text(self.rep as int)
        } else {
            Seq::empty()
        }
    }

    /// The texts of the blocks with a blank between each two.
    open spec fn vec_text(xs: Seq<Self>) -> Seq<char> {
        joined(Seq::new(xs.len(), |i: int| xs[i].one_text()), seq![' '], xs.len() as int)
    }

    fn to_string_one(&self) -> (s: String) {
        let mut ret = T::to_string_vec(&self.block);
        let ghost head = ret@;
        if self.rep != 1 {
            push_char(&mut ret, '^');
            let count = decimal(self.rep);
            ret.append(count.as_str());
            assert(ret@ =~= head + (seq!['^'] + decimal_text(self.rep as int)));
        } else {
            assert(ret@ + Seq::<char>::empty() =~= ret@);
        }
        ret
    }

    fn to_string_vec(xs: &Vec<Self>) -> (s: String) {
        let mut parts: Vec<String> = Vec::new();
        let mut i: usize = 0;
        while i < xs.len()
            invariant
                0 <= i <= xs@.len(),
                parts@.len() == i,
                forall|j: int| 0 <= j < i ==> (#[trigger] parts@[j])@ == xs@[j].one_text(),
            decreases xs@.len() - i,
        {
            parts.push(xs[i].to_string_one());
            i += 1;
        }
        proof {
            reveal_strlit(" ");
            assert(" "@ =~= seq![' ']);
            assert(texts(parts@) =~= Seq::new(xs@.len(), |i: int| xs@[i].one_text()));
        }
        join_strings(&parts, " ")
    }
}

/// Counts over the repeats of a sequence.
#[derive(Debug, PartialEq, Eq, Clone, Copy, Structural)]
pub struct RepTotals {
    /// The number of repeats.
    pub num_blocks: usize,
    /// The greatest number of copies of a repeat, 0 when there is none.
    pub max_rep: usize,
    /// The number of symbols in repeats.
    pub size_in_reps: usize,
    /// The number of symbols in the last of the repeats with the greatest
    /// number of copies.
    pub size_in_max_block: usize,
}

/// The number of symbols in the first `upto` stretches.
pub open spec fn total_size(spans: Seq<Span>, upto: int) -> int
    decreases upto,
{
    if upto <= 0 {
        0
    } else {
        total_size(spans, upto - 1) + spans[upto - 1].size()
    }
}

/// The index of the last of the first `upto` stretches that has the
/// greatest number of copies among them, or -1 when `upto` is 0.
pub open spec fn last_greatest(spans: Seq<Span>, upto: int) -> int
    decreases upto,
{
    if upto <= 0 {
        -1
    } else if upto == 1 || spans[upto - 1].count >= spans[last_greatest(spans, upto - 1)].count {
        upto - 1
    } else {
        last_greatest(spans, upto - 1)
    }
}

/// The counts over a list of repeats, of which the sizes add up to a
/// machine integer.
pub fn rep_totals(rep_info: &Vec<RepeatInfo>) -> (r: RepTotals)
    requires
        forall|k: int|
            0 <= k <= rep_info@.len() ==> 0 <= #[trigger] total_size(repeat_views(rep_info@), k)
                <= usize::MAX,
        forall|k: int|
            0 <= k < rep_info@.len() ==> 0 <= (#[trigger] rep_info@[k]).period * rep_info@[k].count
                <= usize::MAX,
    ensures
        r.num_blocks == rep_info@.len(),
        r.size_in_reps == total_size(repeat_views(rep_info@), rep_info@.len() as int),
        rep_info@.len() == 0 ==> r.max_rep == 0 && r.size_in_max_block == 0,
        rep_info@.len() > 0 ==> {
            let best = repeat_views(rep_info@)[last_greatest(
                repeat_views(rep_info@),
                rep_info@.len() as int,
            )];
            r.max_rep == best.count && r.size_in_max_block == best.size()
        },
{
    let ghost spans = repeat_views(rep_info@);
    let mut size_in_reps: usize = 0;
    let mut max_rep: usize = 0;
    let mut size_in_max_block: usize = 0;
    let mut k: usize = 0;
    while k < rep_info.len()
        invariant
            0 <= k <= rep_info@.len(),
            spans == repeat_views(rep_info@),
            forall|j: int|
                0 <= j <= rep_info@.len() ==> 0 <= #[trigger] total_size(spans, j) <= usize::MAX,
            forall|j: int|
                0 <= j < rep_info@.len() ==> 0 <= (#[trigger] rep_info@[j]).period
                    * rep_info@[j].count <= usize::MAX,
            size_in_reps == total_size(spans, k as int),
            k == 0 ==> max_rep == 0 && size_in_max_block == 0,
            k > 0 ==> 0 <= last_greatest(spans, k as int) < k && max_rep == spans[last_greatest(
                spans,
                k as int,
            )].count && size_in_max_block == spans[last_greatest(spans, k as int)].size(),
        decreases rep_info@.len() - k,
    {
        let info = &rep_info[k];
        assert(spans[k as int] == info@);
        assert(0 <= total_size(spans, k + 1) <= usize::MAX);
        let size = info.size();
        size_in_reps += size;
        if k == 0 || info.count >= max_rep {
            max_rep = info.count;
            size_in_max_block = size;
        }
        k += 1;
    }
    RepTotals { num_blocks: rep_info.len(), max_rep, size_in_reps, size_in_max_block }
}

/// Whether the stretches lie one behind the other from `from` up to `to`,
/// each with at least one symbol.
pub open spec fn partitions(spans: Seq<Span>, from: int, to: int) -> bool
    decreases spans.len(),
{
    if spans.len() == 0 {
        from == to
    } else {
        &&& spans[0].start == from
        &&& spans[0].period >= 1
        &&& spans[0].count >= 1
        &&& partitions(spans.drop_first(), spans[0].end(), to)
    }
}

/// Whether the block of `span` stands `span.count` times in a row in
/// `data`: each copy after the first equals the first.
pub open spec fn is_true_repeat<T: PartialEq>(data: Seq<T>, span: Span) -> bool {
    &&& 0 <= span.start
    &&& 1 <= span.period
    &&& 1 <= span.count
    &&& span.end() <= data.len()
    &&& forall|c: int|
        1 <= c < span.count ==> #[trigger] block_matches(
            data.subrange(span.start, data.len() as int),
            span.period,
            c * span.period,
        )
}

/// The stretches into which repeats that do not overlap cut a sequence lie
/// one behind the other and cover the sequence.
pub proof fn law_block_spans_partition(repeats: Seq<Span>, len: int, from: int, reached: int)
    requires
        is_tiling(repeats, len),
        0 <= from <= repeats.len(),
        0 <= reached <= len,
        from < repeats.len() ==> reached <= repeats[from].start,
    ensures
        partitions(block_spans(repeats, len, from, reached), reached, len),
    decreases repeats.len() - from,
{
    if from >= repeats.len() {
        if reached < len {
            let tail = seq![Span { start: reached, period: len - reached, count: 1 }];
            assert(tail.drop_first() =~= Seq::<Span>::empty());
            assert(tail[0].end() == len) by (nonlinear_arith)
                requires
                    tail[0].start == reached,
                    tail[0].period == len - reached,
                    tail[0].count == 1,
                    tail[0].end() == tail[0].start + tail[0].period * tail[0].count,
            ;
            assert(partitions(tail.drop_first(), len, len));
        }
    } else {
        let repeat = repeats[from];
        let rest = block_spans(repeats, len, from + 1, repeat.end());
        assert(repeat.period * repeat.count >= 1) by (nonlinear_arith)
            requires
                repeat.period >= 1,
                repeat.count >= 2,
        ;
        if from + 1 < repeats.len() {
            assert(repeats[from].end() <= repeats[from + 1].start);
        }
        law_block_spans_partition(repeats, len, from + 1, repeat.end());
        let own = seq![repeat] + rest;
        assert(own.drop_first() =~= rest);
        assert(partitions(own, repeat.start, len));
        if repeat.start > reached {
            let gap = Span { start: reached, period: repeat.start - reached, count: 1 };
            let all = seq![gap] + seq![repeat] + rest;
            assert(all.drop_first() =~= own);
            assert(gap.end() == repeat.start) by (nonlinear_arith)
                requires
                    gap.start == reached,
                    gap.period == repeat.start - reached,
                    gap.count == 1,
                    gap.end() == gap.start + gap.period * gap.count,
            ;
            assert(block_spans(repeats, len, from, reached) == all);
        } else {
            assert(Seq::<Span>::empty() + seq![repeat] + rest =~= own);
        }
    }
}

/// Each of the blocks that are counted from `offset` on equals the first
/// block, and lies inside the data.
pub proof fn lemma_copies_match<T: PartialEq>(data: Seq<T>, period: int, offset: int, j: int)
    requires
        period >= 1,
        0 <= offset,
        0 <= j < copies_from(data, period, offset),
    ensures
        block_matches(data, period, offset + j * period),
        offset + (j + 1) * period <= data.len(),
    decreases j,
{
    if j > 0 {
        lemma_copies_match(data, period, offset + period, j - 1);
        assert(offset + period + (j - 1) * period == offset + j * period) by (nonlinear_arith);
        assert(offset + period + j * period == offset + (j + 1) * period) by (nonlinear_arith);
    } else {
        assert(offset + 0 * period == offset);
        assert(offset + (0 + 1) * period == offset + period) by (nonlinear_arith);
    }
}

/// The repeat that the search takes at the start of a sequence is a true
/// repeat.
pub proof fn lemma_prefix_repeat_true<T: PartialEq>(data: Seq<T>)
    ensures
        prefix_repeat(data) matches Some(span) ==> span.start == 0 && span.count >= MIN_REPEATS
            && span.period <= MAX_WINDOW && is_true_repeat(data, span),
{
    let upto = window(data.len() as int);
    if upto >= 0 {
        lemma_best_repeat(data, upto);
    }
    if let Some(span) = prefix_repeat(data) {
        assert(data.subrange(0, data.len() as int) =~= data);
        assert forall|c: int| 1 <= c < span.count implies #[trigger] block_matches(
            data.subrange(span.start, data.len() as int),
            span.period,
            c * span.period,
        ) by {
            lemma_copies_match(data, span.period, span.period, c - 1);
            assert(span.period + (c - 1) * span.period == c * span.period) by (nonlinear_arith);
        }
    }
}

/// The repeats that the search takes are true repeats that do not
/// overlap, from left to right.
pub proof fn law_scan_finds_true_repeats<T: PartialEq>(data: Seq<T>, start: int)
    requires
        0 <= start,
    ensures
        forall|k: int|
            0 <= k < scan_repeats(data, start).len() ==> is_true_repeat(
                data,
                #[trigger] scan_repeats(data, start)[k],
            ) && scan_repeats(data, start)[k].start >= start && scan_repeats(data, start)[k].count
                >= MIN_REPEATS && scan_repeats(data, start)[k].period <= MAX_WINDOW,
        forall|k: int|
            0 <= k < scan_repeats(data, start).len() - 1 ==> (#[trigger] scan_repeats(
                data,
                start,
            )[k]).end() <= scan_repeats(data, start)[k + 1].start,
    decreases data.len() - start,
{
    if start < data.len() {
        let rest = data.subrange(start, data.len() as int);
        lemma_prefix_repeat_true(rest);
        match prefix_repeat(rest) {
            Some(span) => {
                if !(span.size() >= 1 && start + span.size() <= data.len()) {
                    assert(scan_repeats(data, start).len() == 0);
                }
                if span.size() >= 1 && start + span.size() <= data.len() {
                    let own = Span { start: start, period: span.period, count: span.count };
                    let tail = scan_repeats(data, start + span.size());
                    law_scan_finds_true_repeats(data, start + span.size());
                    let all = scan_repeats(data, start);
                    assert(all == seq![own] + tail);
                    assert(is_true_repeat(data, own)) by {
                        assert(rest.subrange(0, rest.len() as int) =~= rest);
                        assert forall|c: int| 1 <= c < own.count implies #[trigger] block_matches(
                            data.subrange(own.start, data.len() as int),
                            own.period,
                            c * own.period,
                        ) by {
                            assert(block_matches(
                                rest.subrange(span.start, rest.len() as int),
                                span.period,
                                c * span.period,
                            ));
                        }
                    }
                    assert forall|k: int| 0 <= k < all.len() implies is_true_repeat(
                        data,
                        #[trigger] all[k],
                    ) && all[k].start >= start && all[k].count >= MIN_REPEATS && all[k].period
                        <= MAX_WINDOW by {
                        if k > 0 {
                            assert(all[k] == tail[k - 1]);
                        }
                    }
                    assert forall|k: int| 0 <= k < all.len() - 1 implies (#[trigger] all[k]).end()
                        <= all[k + 1].start by {
                        if k > 0 {
                            assert(all[k] == tail[k - 1]);
                            assert(all[k + 1] == tail[k]);
                        } else {
                            assert(all[1] == tail[0]);
                            assert(own.end() == start + span.size());
                        }
                    }
                }
            },
            None => {
                law_scan_finds_true_repeats(data, start + 1);
                let all = scan_repeats(data, start);
                let same = scan_repeats(data, start + 1);
                assert(all == same);
                assert forall|k: int| 0 <= k < all.len() implies is_true_repeat(
                    data,
                    #[trigger] all[k],
                ) && all[k].start >= start && all[k].count >= MIN_REPEATS && all[k].period
                    <= MAX_WINDOW by {
                    assert(is_true_repeat(data, same[k]) && same[k].start >= start + 1);
                }
                assert forall|k: int| 0 <= k < all.len() - 1 implies (#[trigger] all[k]).end()
                    <= all[k + 1].start by {
                    assert(same[k].end() <= same[k + 1].start);
                }
            },
        }
    } else {
        assert(scan_repeats(data, start).len() == 0);
    }
}

/// The blocks of a sequence rebuild it. The stretches of the blocks lie
/// one behind the other and cover the sequence; each block is a copy of
/// the first block of its stretch; and in a stretch of several blocks
/// every further block equals the first.
pub proof fn law_rep_blocks_rebuild<T: PartialEq + Clone + ToStringVec>(
    data: Seq<T>,
    blocks: Seq<RepBlock<T>>,
)
    requires
        are_blocks_of(blocks, data, block_spans(scan_repeats(data, 0), data.len() as int, 0, 0)),
    ensures
        partitions(block_spans(scan_repeats(data, 0), data.len() as int, 0, 0), 0, data.len() as int),
        forall|k: int|
            0 <= k < blocks.len() ==> is_block_of(
                #[trigger] blocks[k],
                data,
                block_spans(scan_repeats(data, 0), data.len() as int, 0, 0)[k],
            ),
        forall|k: int|
            0 <= k < blocks.len() && (#[trigger] blocks[k]).rep != 1 ==> is_true_repeat(
                data,
                block_spans(scan_repeats(data, 0), data.len() as int, 0, 0)[k],
            ),
{
    let repeats = scan_repeats(data, 0);
    let len = data.len() as int;
    let spans = block_spans(repeats, len, 0, 0);
    law_scan_finds_true_repeats(data, 0);
    assert(is_tiling(repeats, len)) by {
        assert forall|k: int| 0 <= k < repeats.len() implies {
            &&& (#[trigger] repeats[k]).start >= 0
            &&& 1 <= repeats[k].period <= MAX_WINDOW
            &&& repeats[k].count >= MIN_REPEATS
            &&& repeats[k].end() <= len
        } by {
            assert(is_true_repeat(data, repeats[k]));
        }
    }
    law_block_spans_partition(repeats, len, 0, 0);
    lemma_block_spans_repeats(repeats, len, 0, 0);
    assert forall|k: int| 0 <= k < blocks.len() && (#[trigger] blocks[k]).rep
        != 1 implies is_true_repeat(data, spans[k]) by {
        assert(is_block_of(blocks[k], data, spans[k]));
        let e = choose|e: int| 0 <= e < repeats.len() && #[trigger] repeats[e] == spans[k];
        assert(is_true_repeat(data, repeats[e]));
    }
}

/// The blocks that are counted from `offset` on are all that stand there
/// in a row: the block behind them is none, or does not equal the first.
pub proof fn lemma_copies_stop<T: PartialEq>(data: Seq<T>, period: int, offset: int)
    requires
        period >= 1,
        0 <= offset,
    ensures
        !(offset + (copies_from(data, period, offset) + 1) * period <= data.len()
            && block_matches(data, period, offset + copies_from(data, period, offset) * period)),
    decreases data.len() - offset,
{
    let m = copies_from(data, period, offset);
    if offset + period <= data.len() && block_matches(data, period, offset) {
        lemma_copies_stop(data, period, offset + period);
        let rest = copies_from(data, period, offset + period);
        assert(m == 1 + rest);
        assert(offset + period + rest * period == offset + m * period) by (nonlinear_arith)
            requires
                m == 1 + rest,
        ;
        assert(offset + period + (rest + 1) * period == offset + (m + 1) * period)
            by (nonlinear_arith)
            requires
                m == 1 + rest,
        ;
    } else {
        assert(m == 0);
        assert(offset + 0 * period == offset);
        assert(offset + (0 + 1) * period == offset + period) by (nonlinear_arith);
    }
}

/// The count of a period is the greatest number of blocks of that length
/// that stand in a row at the start: each block after the first equals the
/// first, all lie inside the data, and the block behind them is none or
/// does not equal the first.
pub proof fn law_repeat_count_is_maximal<T: PartialEq>(data: Seq<T>, period: int)
    requires
        1 <= period <= data.len(),
    ensures
        repeat_count(data, period) >= 1,
        repeat_count(data, period) * period <= data.len(),
        forall|c: int|
            1 <= c < repeat_count(data, period) ==> #[trigger] block_matches(
                data,
                period,
                c * period,
            ),
        !((repeat_count(data, period) + 1) * period <= data.len() && block_matches(
            data,
            period,
            repeat_count(data, period) * period,
        )),
{
    let count = repeat_count(data, period);
    let more = copies_from(data, period, period);
    lemma_copies_fit(data, period, period);
    lemma_copies_stop(data, period, period);
    assert(period + more * period == count * period) by (nonlinear_arith)
        requires
            count == 1 + more,
    ;
    assert(period + (more + 1) * period == (count + 1) * period) by (nonlinear_arith)
        requires
            count == 1 + more,
    ;
    assert forall|c: int| 1 <= c < count implies #[trigger] block_matches(
        data,
        period,
        c * period,
    ) by {
        lemma_copies_match(data, period, period, c - 1);
        assert(period + (c - 1) * period == c * period) by (nonlinear_arith);
    }
}

/// The repeat that is taken among the blocks of at most `upto` symbols
/// covers most: no block of at most `upto` symbols that stands at least
/// twice covers more, and none that covers as much is shorter. Where no
/// repeat is taken, no such block stands twice.
pub proof fn law_best_repeat_is_greatest<T: PartialEq>(data: Seq<T>, upto: int)
    requires
        0 <= upto <= data.len(),
    ensures
        match best_repeat(data, upto) {
            Some(span) => {
                &&& 1 <= span.period <= upto
                &&& span.count == repeat_count(data, span.period)
                &&& span.count >= MIN_REPEATS
                &&& forall|q: int|
                    1 <= q <= upto && #[trigger] repeat_count(data, q) >= MIN_REPEATS ==> {
                        ||| repeat_count(data, q) * q < span.size()
                        ||| repeat_count(data, q) * q == span.size() && span.period <= q
                    }
            },
            None => forall|q: int| 1 <= q <= upto ==> #[trigger] repeat_count(data, q) < MIN_REPEATS,
        },
    decreases upto,
{
    if upto > 0 {
        law_best_repeat_is_greatest(data, upto - 1);
        lemma_best_repeat(data, upto - 1);
        lemma_best_repeat(data, upto);
        let before = best_repeat(data, upto - 1);
        let count = repeat_count(data, upto);
        let covered = match before {
            Some(span) => span.size(),
            None => 0,
        };
        if count >= MIN_REPEATS && count * upto > covered {
            let span = Span { start: 0, period: upto, count: count };
            assert(span.size() == count * upto) by (nonlinear_arith)
                requires
                    span.size() == span.period * span.count,
                    span.period == upto,
                    span.count == count,
            ;
            assert forall|q: int|
                1 <= q <= upto && #[trigger] repeat_count(data, q) >= MIN_REPEATS implies {
                ||| repeat_count(data, q) * q < span.size()
                ||| repeat_count(data, q) * q == span.size() && span.period <= q
            } by {
                if q < upto {
                    match before {
                        Some(old) => {},
                        None => {},
                    }
                }
            }
        } else {
            match before {
                Some(old) => {
                    assert forall|q: int|
                        1 <= q <= upto && #[trigger] repeat_count(data, q)
                            >= MIN_REPEATS implies {
                        ||| repeat_count(data, q) * q < old.size()
                        ||| repeat_count(data, q) * q == old.size() && old.period <= q
                    } by {}
                },
                None => {
                    if count >= MIN_REPEATS {
                        assert(count * upto > 0) by (nonlinear_arith)
                            requires
                                count >= 2,
                                upto >= 1,
                        ;
                    }
                },
            }
        }
    }
}

/// Whether the position `at` lies in one of the stretches.
pub open spec fn is_covered_by(spans: Seq<Span>, at: int) -> bool {
    exists|k: int| 0 <= k < spans.len() && (#[trigger] spans[k]).start <= at < spans[k].end()
}

/// A position that the search passes over starts no repeat: where a
/// position from `start` on lies in none of the repeats that the search
/// takes from `start` on, the search takes no repeat at that position, and
/// so no block of a length that is tried stands twice there.
pub proof fn law_skipped_offset_starts_no_repeat<T: PartialEq>(data: Seq<T>, start: int, at: int)
    requires
        0 <= start <= at < data.len(),
        !is_covered_by(scan_repeats(data, start), at),
    ensures
        prefix_repeat(data.subrange(at, data.len() as int)) is None,
        forall|q: int|
            1 <= q <= window(data.len() - at) ==> #[trigger] repeat_count(
                data.subrange(at, data.len() as int),
                q,
            ) < MIN_REPEATS,
    decreases data.len() - start,
{
    let rest = data.subrange(start, data.len() as int);
    let all = scan_repeats(data, start);
    lemma_prefix_repeat_true(rest);
    match prefix_repeat(rest) {
        Some(span) => {
            assert(span.size() >= 1 && start + span.size() <= data.len()) by {
                assert(span.period * span.count >= 1) by (nonlinear_arith)
                    requires
                        span.period >= 1,
                        span.count >= 2,
                ;
            }
            let own = Span { start: start, period: span.period, count: span.count };
            let tail = scan_repeats(data, start + span.size());
            assert(all == seq![own] + tail);
            assert(all[0] == own);
            assert(own.end() == start + span.size());
            assert(!(own.start <= at < own.end()));
            assert(!is_covered_by(tail, at)) by {
                if is_covered_by(tail, at) {
                    let k = choose|k: int|
                        0 <= k < tail.len() && (#[trigger] tail[k]).start <= at < tail[k].end();
                    assert(all[k + 1] == tail[k]);
                }
            }
            law_skipped_offset_starts_no_repeat(data, start + span.size(), at);
        },
        None => {
            if at > start {
                assert(all == scan_repeats(data, start + 1));
                law_skipped_offset_starts_no_repeat(data, start + 1, at);
            } else {
                let upto = window(rest.len() as int);
                law_best_repeat_is_greatest(rest, upto);
            }
        },
    }
}

} // verus!

//! Programs as text: the notation of a program as a list of fractions,
//! and the name of a program as a file and the number of a record in it.
use vstd::prelude::*;
use vstd::string::{StringExecFns, StringSliceAdditionalSpecFns};
use crate::primes::{
    count_of, factorize, is_prime, law_exponents_agree, lemma_count_of, lemma_few_factors,
    lemma_power_product_bump, lemma_power_product_of_zeros, lemma_prime_at,
    lemma_prime_index_rises, lemma_prime_of_index, lemma_primes_below_monotone,
    lemma_product_grows, numbers, power_product, prime_at, primes_all, primes_below,
    primes_given, primes_next, product,
};
use crate::program::{Instr, Program, SmallInt};
use crate::text::{parse_index, parsed_index, split_once_colon};

verus! {

/// The text before the first colon of `name`, or all of `name` when it
/// holds no colon.
pub open spec fn file_part(name: Seq<char>) -> Seq<char> {
    match name.index_of_first(':') {
        Some(at) => name.subrange(0, at),
        None => name,
    }
}

/// The text behind the first colon of `name`, if it holds a colon.
pub open spec fn record_part(name: Seq<char>) -> Option<Seq<char>> {
    match name.index_of_first(':') {
        Some(at) => Some(name.subrange(at + 1, name.len() as int)),
        None => None,
    }
}

/// Whether the record number of `name`, if it names one, is a number.
pub open spec fn names_record(name: Seq<char>) -> bool {
    match record_part(name) {
        Some(digits) => parsed_index(digits) is Some,
        None => true,
    }
}

/// The record number of `name`: the number behind the first colon, and 0
/// when there is no colon.
pub open spec fn record_of(name: Seq<char>) -> int {
    match record_part(name) {
        Some(digits) => parsed_index(digits).unwrap(),
        None => 0,
    }
}

/// A text that holds no colon before position `at`, and one there, has its
/// first colon there.
pub proof fn lemma_first_colon(text: Seq<char>, at: int)
    requires
        0 <= at < text.len(),
        text[at] == ':',
        forall|i: int| 0 <= i < at ==> text[i] != ':',
    ensures
        text.index_of_first(':') == Some(at),
{
    assert(text.contains(':'));
    text.index_of_first_ensures(':');
}

/// Splits the name of a program into the name of a file and the number of
/// a record: `progs.txt:3` is record 3 of `progs.txt`, and `progs.txt` is
/// record 0 of it. What stands behind the colon must be a number.
pub fn split_filename_record(filename_record: &str) -> (r: (String, usize))
    requires
        names_record(filename_record@),
    ensures
        r.0@ == file_part(filename_record@),
        r.1 == record_of(filename_record@),
{
    match split_once_colon(filename_record) {
        Some(parts) => {
            let left = parts.0;
            let right = parts.1;
            proof {
                lemma_colon_parts(filename_record@, left@, right@);
            }
            match parse_index(right) {
                Ok(record_num) => (String::from_str(left), record_num),
                Err(_) => (String::from_str(left), 0),
            }
        },
        None => {
            proof {
                filename_record@.index_of_first_ensures(':');
            }
            (String::from_str(filename_record), 0)
        },
    }
}

/// A text that is cut at its first colon has the two pieces as the name of
/// its file and the text of its record.
pub proof fn lemma_colon_parts(text: Seq<char>, left: Seq<char>, right: Seq<char>)
    requires
        text == left + seq![':'] + right,
        !left.contains(':'),
    ensures
        file_part(text) == left,
        record_part(text) == Some(right),
{
    let at = left.len() as int;
    assert(text[at] == ':');
    assert forall|i: int| 0 <= i < at implies text[i] != ':' by {
        assert(text[i] == left[i]);
        if left[i] == ':' {
            assert(left.contains(':'));
        }
    }
    lemma_first_colon(text, at);
    assert(text.subrange(0, at) =~= left);
    assert(text.subrange(at + 1, text.len() as int) =~= right);
}

/// Splits the name of a program as [`split_filename_record`] does, and
/// returns `None` when what stands behind the colon is no number.
pub fn try_split_filename_record(filename_record: &str) -> (r: Option<(String, usize)>)
    ensures
        r is Some <==> names_record(filename_record@),
        r matches Some(parts) ==> parts.0@ == file_part(filename_record@) && parts.1 == record_of(
            filename_record@,
        ),
{
    let numbered = match split_once_colon(filename_record) {
        Some(parts) => {
            proof {
                lemma_colon_parts(filename_record@, parts.0@, parts.1@);
            }
            parse_index(parts.1).is_ok()
        },
        None => {
            proof {
                filename_record@.index_of_first_ensures(':');
            }
            true
        },
    };
    if numbered {
        Some(split_filename_record(filename_record))
    } else {
        None
    }
}

/// The bytes of `text` without square brackets and blanks.
pub open spec fn cleaned(text: Seq<u8>) -> Seq<u8>
    decreases text.len(),
{
    if text.len() == 0 {
        Seq::empty()
    } else if text.last() != 91 && text.last() != 93 && text.last() != 32 {
        cleaned(text.drop_last()).push(text.last())
    } else {
        cleaned(text.drop_last())
    }
}

/// The pieces into which the byte `sep` cuts `text`: one more than `sep`
/// occurs in it.
pub open spec fn fields(text: Seq<u8>, sep: u8) -> Seq<Seq<u8>>
    decreases text.len(),
{
    if text.len() == 0 {
        seq![Seq::<u8>::empty()]
    } else {
        let before = fields(text.drop_last(), sep);
        if text.last() == sep {
            before.push(Seq::<u8>::empty())
        } else {
            before.update(before.len() - 1, before.last().push(text.last()))
        }
    }
}

/// The number that the decimal digits `digits` denote, if they are all
/// digits.
pub open spec fn digits_value(digits: Seq<u8>) -> Option<int>
    decreases digits.len(),
{
    if digits.len() == 0 {
        Some(0)
    } else if 48 <= digits.last() <= 57 {
        match digits_value(digits.drop_last()) {
            Some(v) => Some(v * 10 + (digits.last() - 48)),
            None => None,
        }
    } else {
        None
    }
}

/// The number that `text` denotes: decimal digits, at least one, with or
/// without a plus sign before them, for a number that 128 bits hold.
pub open spec fn number_of(text: Seq<u8>) -> Option<int> {
    let digits = if text.len() > 0 && text[0] == 43 {
        text.skip(1)
    } else {
        text
    };
    if digits.len() == 0 {
        None
    } else {
        match digits_value(digits) {
            Some(v) => if v <= u128::MAX {
                Some(v)
            } else {
                None
            },
            None => None,
        }
    }
}

/// The fraction that `text` denotes: a number, a slash, and a number;
/// what stands behind a further slash does not count.
pub open spec fn fraction_of(text: Seq<u8>) -> Option<(int, int)> {
    let parts = fields(text, 47);
    if parts.len() < 2 {
        None
    } else {
        match (number_of(parts[0]), number_of(parts[1])) {
            (Some(num), Some(den)) => Some((num, den)),
            _ => None,
        }
    }
}

/// The fractions that the first `upto` of `parts` denote, if each of them
/// denotes one.
pub open spec fn fractions_upto(parts: Seq<Seq<u8>>, upto: int) -> Option<Seq<(int, int)>>
    decreases upto,
{
    if upto <= 0 {
        Some(Seq::empty())
    } else {
        match (fractions_upto(parts, upto - 1), fraction_of(parts[upto - 1])) {
            (Some(before), Some(fraction)) => Some(before.push(fraction)),
            _ => None,
        }
    }
}

/// The fractions that the text of a program denotes: fractions with
/// commas between them, where square brackets and blanks do not count.
pub open spec fn fractions_of(text: Seq<u8>) -> Option<Seq<(int, int)>> {
    let parts = fields(cleaned(text), 44);
    fractions_upto(parts, parts.len() as int)
}

/// The byte strings of a list, each as its sequence of bytes.
pub open spec fn byte_views(parts: Seq<Vec<u8>>) -> Seq<Seq<u8>> {
    Seq::new(parts.len(), |i: int| parts[i]@)
}

/// The fractions of a list of pairs of machine integers.
pub open spec fn pair_views(pairs: Seq<(u128, u128)>) -> Seq<(int, int)> {
    Seq::new(pairs.len(), |i: int| (pairs[i].0 as int, pairs[i].1 as int))
}

/// The bytes of `text` without square brackets and blanks.
fn clean(text: &[u8]) -> (r: Vec<u8>)
    ensures
        r@ == cleaned(text@),
{
    let mut out: Vec<u8> = Vec::new();
    let mut i: usize = 0;
    while i < text.len()
        invariant
            0 <= i <= text@.len(),
            out@ == cleaned(text@.take(i as int)),
        decreases text@.len() - i,
    {
        let b = text[i];
        proof {
            assert(text@.take(i + 1).drop_last() =~= text@.take(i as int));
            assert(text@.take(i + 1).last() == b);
        }
        if b != 91 && b != 93 && b != 32 {
            out.push(b);
        }
        i += 1;
    }
    assert(text@.take(text@.len() as int) =~= text@);
    out
}

/// The pieces into which the byte `sep` cuts `text`.
fn split_bytes(text: &[u8], sep: u8) -> (r: Vec<Vec<u8>>)
    ensures
        byte_views(r@) == fields(text@, sep),
{
    let mut done: Vec<Vec<u8>> = Vec::new();
    let mut current: Vec<u8> = Vec::new();
    let mut i: usize = 0;
    while i < text.len()
        invariant
            0 <= i <= text@.len(),
            fields(text@.take(i as int), sep) == byte_views(done@).push(current@),
        decreases text@.len() - i,
    {
        let b = text[i];
        let ghost before = byte_views(done@).push(current@);
        proof {
            assert(text@.take(i + 1).drop_last() =~= text@.take(i as int));
            assert(text@.take(i + 1).last() == b);
        }
        if b == sep {
            let ghost views = byte_views(done@);
            done.push(current);
            current = Vec::new();
            proof {
                assert(byte_views(done@) =~= before);
                assert(byte_views(done@).push(current@) =~= before.push(Seq::<u8>::empty()));
            }
        } else {
            current.push(b);
            proof {
                assert(byte_views(done@).push(current@) =~= before.update(
                    before.len() - 1,
                    before.last().push(b),
                ));
            }
        }
        i += 1;
    }
    proof {
        assert(text@.take(text@.len() as int) =~= text@);
    }
    let ghost before = byte_views(done@).push(current@);
    done.push(current);
    assert(byte_views(done@) =~= before);
    done
}

/// The value of digits is a natural number, and at least ten times the
/// value of the digits without the last.
pub proof fn lemma_digits_value(digits: Seq<u8>)
    ensures
        digits_value(digits) matches Some(v) ==> v >= 0,
        digits.len() > 0 && digits_value(digits) is Some ==> digits_value(digits.drop_last())
             is Some,
    decreases digits.len(),
{
    if digits.len() > 0 {
        lemma_digits_value(digits.drop_last());
    }
}

/// Digits of which a beginning is no number, or a number greater than
/// `limit`, are themselves no number, or one greater than `limit`.
pub proof fn lemma_digits_grow(digits: Seq<u8>, upto: int, limit: int)
    requires
        0 <= upto <= digits.len(),
        match digits_value(digits.take(upto)) {
            Some(v) => v > limit,
            None => true,
        },
    ensures
        match digits_value(digits) {
            Some(v) => v > limit,
            None => true,
        },
    decreases digits.len() - upto,
{
    if upto < digits.len() {
        let longer = digits.take(upto + 1);
        assert(longer.drop_last() =~= digits.take(upto));
        lemma_digits_value(digits.take(upto));
        lemma_digits_grow(digits, upto + 1, limit);
    } else {
        assert(digits.take(upto) =~= digits);
    }
}

/// The number that `text` denotes: see [`number_of`].
fn parse_number(text: &Vec<u8>) -> (r: Option<u128>)
    ensures
        match r {
            Some(v) => number_of(text@) == Some(v as int),
            None => number_of(text@) is None,
        },
{
    let n = text.len();
    let start: usize = if n > 0 && text[0] == 43 {
        1
    } else {
        0
    };
    let ghost digits = text@.skip(start as int);
    proof {
        if start == 0 {
            assert(digits =~= text@);
        }
    }
    if start == n {
        return None;
    }
    let mut acc: u128 = 0;
    let mut i: usize = start;
    proof {
        assert(digits.take(0) =~= Seq::<u8>::empty());
    }
    while i < n
        invariant
            start <= i <= n,
            start < n,
            n == text@.len(),
            digits == text@.skip(start as int),
            digits.len() == n - start,
            number_of(text@) == match digits_value(digits) {
                Some(v) => if v <= u128::MAX {
                    Some(v)
                } else {
                    None
                },
                None => None,
            },
            digits_value(digits.take(i - start)) == Some(acc as int),
        decreases n - i,
    {
        let b = text[i];
        proof {
            assert(digits[i - start] == text@[i as int]);
            assert(digits.take(i - start + 1).drop_last() =~= digits.take(i - start));
            assert(digits.take(i - start + 1).last() == b);
        }
        if b < 48 || b > 57 {
            proof {
                assert(digits_value(digits.take(i - start + 1)) is None);
                lemma_digits_grow(digits, i - start + 1, u128::MAX as int);
            }
            return None;
        }
        let d: u128 = (b - 48) as u128;
        if acc > (u128::MAX - d) / 10 {
            proof {
                assert(acc * 10 + d > u128::MAX) by (nonlinear_arith)
                    requires
                        acc > (u128::MAX - d) / 10,
                        0 <= d <= 9,
                ;
                lemma_digits_grow(digits, i - start + 1, u128::MAX as int);
            }
            return None;
        }
        assert(acc * 10 + d <= u128::MAX) by (nonlinear_arith)
            requires
                acc <= (u128::MAX - d) / 10,
                0 <= d <= 9,
        ;
        assert(digits_value(digits.take(i - start + 1)) == Some(acc * 10 + d));
        acc = acc * 10 + d;
        i += 1;
    }
    assert(digits.take(n - start) =~= digits);
    Some(acc)
}

/// The fractions that the text of a program denotes: see
/// [`fractions_of`].
pub fn parse_fractions(text: &[u8]) -> (r: Option<Vec<(u128, u128)>>)
    ensures
        match r {
            Some(pairs) => fractions_of(text@) == Some(pair_views(pairs@)),
            None => fractions_of(text@) is None,
        },
{
    let clean_text = clean(text);
    let parts = split_bytes(clean_text.as_slice(), 44);
    let ghost views = byte_views(parts@);
    let mut pairs: Vec<(u128, u128)> = Vec::new();
    let mut k: usize = 0;
    while k < parts.len()
        invariant
            0 <= k <= parts@.len(),
            views == byte_views(parts@),
            views == fields(cleaned(text@), 44),
            fractions_upto(views, k as int) == Some(pair_views(pairs@)),
        decreases parts@.len() - k,
    {
        let frac = split_bytes(parts[k].as_slice(), 47);
        assert(byte_views(frac@) == fields(views[k as int], 47));
        if frac.len() < 2 {
            proof {
                lemma_fractions_none(views, k + 1, views.len() as int);
            }
            return None;
        }
        assert(byte_views(frac@)[0] == frac@[0]@);
        assert(byte_views(frac@)[1] == frac@[1]@);
        let num = match parse_number(&frac[0]) {
            Some(num) => num,
            None => {
                proof {
                    lemma_fractions_none(views, k + 1, views.len() as int);
                }
                return None;
            },
        };
        let den = match parse_number(&frac[1]) {
            Some(den) => den,
            None => {
                proof {
                    lemma_fractions_none(views, k + 1, views.len() as int);
                }
                return None;
            },
        };
        let ghost before = pair_views(pairs@);
        pairs.push((num, den));
        assert(pair_views(pairs@) =~= before.push((num as int, den as int)));
        k += 1;
    }
    Some(pairs)
}

/// Once a part denotes no fraction, the parts denote no fractions.
pub proof fn lemma_fractions_none(parts: Seq<Seq<u8>>, from: int, upto: int)
    requires
        0 <= from <= upto,
        fractions_upto(parts, from) is None,
    ensures
        fractions_upto(parts, upto) is None,
    decreases upto - from,
{
    if from < upto {
        lemma_fractions_none(parts, from, upto - 1);
    }
}

/// The greatest of the first `upto` numbers of `xs` and `floor`.
pub open spec fn greatest_of(xs: Seq<int>, upto: int, floor: int) -> int
    decreases upto,
{
    if upto <= 0 {
        floor
    } else if xs[upto - 1] > greatest_of(xs, upto - 1, floor) {
        xs[upto - 1]
    } else {
        greatest_of(xs, upto - 1, floor)
    }
}

/// The factors that were found of the numerator and of the denominator of
/// a fraction.
pub struct Factored {
    pub num: Vec<u128>,
    pub den: Vec<u128>,
}

/// The greatest number in the lists of the first `upto` fractions, and 2
/// when there is none above it.
pub open spec fn greatest_factor(factored: Seq<Factored>, upto: int) -> int
    decreases upto,
{
    if upto <= 0 {
        2
    } else {
        let num = numbers(factored[upto - 1].num@);
        let den = numbers(factored[upto - 1].den@);
        greatest_of(
            den,
            den.len() as int,
            greatest_of(num, num.len() as int, greatest_factor(factored, upto - 1)),
        )
    }
}

/// Whether `x` stands in a list of the first `upto` fractions.
pub open spec fn is_factor(factored: Seq<Factored>, upto: int, x: int) -> bool {
    exists|k: int|
        0 <= k < upto && (numbers((#[trigger] factored[k]).num@).contains(x) || numbers(
            factored[k].den@,
        ).contains(x))
}

/// The greatest of some numbers and a floor is the floor or one of the
/// numbers, and none of them is above it.
pub proof fn lemma_greatest_of(xs: Seq<int>, upto: int, floor: int)
    requires
        0 <= upto <= xs.len(),
    ensures
        greatest_of(xs, upto, floor) >= floor,
        greatest_of(xs, upto, floor) == floor || xs.contains(greatest_of(xs, upto, floor)),
        forall|i: int| 0 <= i < upto ==> #[trigger] xs[i] <= greatest_of(xs, upto, floor),
    decreases upto,
{
    if upto > 0 {
        lemma_greatest_of(xs, upto - 1, floor);
        assert(xs.contains(xs[upto - 1]));
    }
}

/// The greatest factor is 2 or stands in a list, and no number of a list
/// is above it.
pub proof fn lemma_greatest_factor(factored: Seq<Factored>, upto: int)
    requires
        0 <= upto <= factored.len(),
    ensures
        greatest_factor(factored, upto) >= 2,
        greatest_factor(factored, upto) == 2 || is_factor(
            factored,
            upto,
            greatest_factor(factored, upto),
        ),
        forall|k: int, i: int|
            0 <= k < upto && 0 <= i < factored[k].num@.len() ==> (#[trigger] numbers(
                factored[k].num@,
            )[i]) <= greatest_factor(factored, upto),
        forall|k: int, i: int|
            0 <= k < upto && 0 <= i < factored[k].den@.len() ==> (#[trigger] numbers(
                factored[k].den@,
            )[i]) <= greatest_factor(factored, upto),
    decreases upto,
{
    if upto > 0 {
        lemma_greatest_factor(factored, upto - 1);
        let before = greatest_factor(factored, upto - 1);
        let num = numbers(factored[upto - 1].num@);
        let den = numbers(factored[upto - 1].den@);
        let mid = greatest_of(num, num.len() as int, before);
        let now = greatest_factor(factored, upto);
        lemma_greatest_of(num, num.len() as int, before);
        lemma_greatest_of(den, den.len() as int, mid);
        if now != 2 {
            if den.contains(now) || num.contains(now) {
                assert(0 <= upto - 1 < upto && (numbers(factored[upto - 1].num@).contains(now)
                    || numbers(factored[upto - 1].den@).contains(now)));
            } else {
                assert(now == before);
                let k = choose|k: int|
                    0 <= k < upto - 1 && (numbers((#[trigger] factored[k]).num@).contains(now)
                        || numbers(factored[k].den@).contains(now));
                assert(0 <= k < upto && (numbers(factored[k].num@).contains(now) || numbers(
                    factored[k].den@,
                ).contains(now)));
            }
        }
    }
}

/// The greatest of the numbers of `xs` and `floor`.
fn greatest_in(xs: &Vec<u128>, floor: u128) -> (r: u128)
    ensures
        r == greatest_of(numbers(xs@), xs@.len() as int, floor as int),
{
    let mut best = floor;
    let mut i: usize = 0;
    while i < xs.len()
        invariant
            0 <= i <= xs@.len(),
            best == greatest_of(numbers(xs@), i as int, floor as int),
        decreases xs@.len() - i,
    {
        assert(numbers(xs@)[i as int] == xs@[i as int]);
        if xs[i] > best {
            best = xs[i];
        }
        i += 1;
    }
    best
}

/// The factors that are found of the numerators and the denominators, and
/// the greatest of them. Whether they are the prime factors is for
/// [`exponents_of`] to say.
fn factor_all(pairs: &Vec<(u128, u128)>) -> (r: (Vec<Factored>, u128))
    ensures
        r.0@.len() == pairs@.len(),
        r.1 == greatest_factor(r.0@, r.0@.len() as int),
        forall|k: int|
            0 <= k < pairs@.len() ==> (pairs@[k].0 <= 1 ==> (#[trigger] r.0@[k]).num@.len() == 0)
                && (pairs@[k].1 <= 1 ==> r.0@[k].den@.len() == 0),
{
    let mut factored: Vec<Factored> = Vec::new();
    let mut greatest: u128 = 2;
    let mut k: usize = 0;
    while k < pairs.len()
        invariant
            0 <= k <= pairs@.len(),
            factored@.len() == k,
            greatest == greatest_factor(factored@, k as int),
            forall|e: int|
                0 <= e < k ==> (pairs@[e].0 <= 1 ==> (#[trigger] factored@[e]).num@.len() == 0)
                    && (pairs@[e].1 <= 1 ==> factored@[e].den@.len() == 0),
        decreases pairs@.len() - k,
    {
        let num = factorize(pairs[k].0);
        let den = factorize(pairs[k].1);
        let ghost before = factored@;
        let with_num = greatest_in(&num, greatest);
        let with_den = greatest_in(&den, with_num);
        factored.push(Factored { num, den });
        proof {
            assert(factored@.take(k as int) =~= before);
            lemma_greatest_same(before, factored@, k as int);
        }
        greatest = with_den;
        k += 1;
    }
    (factored, greatest)
}

/// The greatest factor of the first `upto` fractions hangs on these alone.
pub proof fn lemma_greatest_same(a: Seq<Factored>, b: Seq<Factored>, upto: int)
    requires
        0 <= upto <= a.len(),
        upto <= b.len(),
        forall|k: int| 0 <= k < upto ==> a[k] == b[k],
    ensures
        greatest_factor(a, upto) == greatest_factor(b, upto),
    decreases upto,
{
    if upto > 0 {
        lemma_greatest_same(a, b, upto - 1);
    }
}

/// Whether `primes` holds, in their order, the first primes.
pub open spec fn first_primes(primes: Seq<usize>) -> bool {
    forall|i: int|
        0 <= i < primes.len() ==> is_prime(#[trigger] primes[i] as int) && primes_below(
            primes[i] as int,
        ) == i
}

/// Takes what a stream of primes handed out into the list of the first
/// primes: the next prime is put behind them, and where the stream has
/// come to its end the list stays as it is. Returns whether there was a
/// prime.
pub fn note_prime(primes: &mut Vec<usize>, found: Option<usize>) -> (ok: bool)
    requires
        first_primes(old(primes)@),
        found matches Some(p) ==> is_prime(p as int) && primes_below(p as int) == old(
            primes,
        )@.len(),
    ensures
        ok == (found is Some),
        match found {
            Some(p) => final(primes)@ == old(primes)@.push(p),
            None => final(primes)@ == old(primes)@,
        },
        first_primes(final(primes)@),
{
    match found {
        Some(p) => {
            primes.push(p);
            true
        },
        None => false,
    }
}

/// The first primes, up to the first that is not below `greatest`. The
/// primes come from a stream, which ends only where no machine index
/// holds the prime that follows: then there is no list.
fn primes_up_to(greatest: usize) -> (r: Option<Vec<usize>>)
    ensures
        match r {
            Some(primes) => {
                &&& first_primes(primes@)
                &&& primes@.len() >= 1
                &&& primes@[primes@.len() - 1] >= greatest
                &&& forall|i: int| 0 <= i < primes@.len() - 1 ==> #[trigger] primes@[i] < greatest
            },
            None => forall|p: int| #[trigger] is_prime(p) && p >= greatest ==> p > usize::MAX,
        },
{
    let mut stream = primes_all();
    let mut primes: Vec<usize> = Vec::new();
    let mut last: usize = 0;
    let mut reached = false;
    while !reached
        invariant
            first_primes(primes@),
            primes_given(stream) == primes@.len(),
            primes@.len() == 0 ==> last == 0 && !reached,
            primes@.len() > 0 ==> last == primes@[primes@.len() - 1],
            reached == (primes@.len() > 0 && last >= greatest),
            forall|i: int| 0 <= i < primes@.len() - 1 ==> #[trigger] primes@[i] < greatest,
        decreases
                if reached {
                    0int
                } else if last < greatest {
                    2 + greatest - last
                } else {
                    1int
                },
    {
        let ghost before = primes@;
        let found = primes_next(&mut stream);
        proof {
            match found {
                Some(p) => {
                    if primes@.len() > 0 {
                        lemma_prime_index_rises(last as int, p as int);
                    }
                },
                None => {
                    let n = primes@.len() as int;
                    assert forall|p: int| #[trigger] is_prime(p) && p >= greatest implies p
                        > usize::MAX by {
                        if n > 0 {
                            lemma_primes_below_monotone(last as int + 1, p);
                            assert(primes_below(last as int + 1) == primes_below(last as int) + 1);
                        } else {
                            lemma_primes_below_monotone(p, p);
                        }
                        if primes_below(p) > n {
                            lemma_prime_of_index(p, n);
                            let q = prime_at(n);
                            assert(is_prime(q) && primes_below(q) == n);
                        }
                    }
                },
            }
        }
        if !note_prime(&mut primes, found) {
            return None;
        }
        last = primes[primes.len() - 1];
        reached = last >= greatest;
        proof {
            assert forall|i: int| 0 <= i < primes@.len() - 1 implies #[trigger] primes@[i]
                < greatest by {
                assert(primes@[i] == before[i]);
            }
        }
    }
    Some(primes)
}

/// Whether `x` stands in `primes`.
pub open spec fn among(primes: Seq<usize>, x: int) -> bool {
    exists|j: int| 0 <= j < primes.len() && #[trigger] primes[j] == x
}

/// Whether `list` holds primes of `primes` of which the product is `n`,
/// where 0 counts as 1 does: no prime goes into it.
pub open spec fn factors_into(list: Seq<int>, n: int, primes: Seq<usize>) -> bool {
    &&& forall|i: int| 0 <= i < list.len() ==> among(primes, #[trigger] list[i])
    &&& product(list, list.len() as int) == if n <= 1 {
        1
    } else {
        n
    }
}

/// For each of `primes`, the number of times that it stands among the
/// first `upto` of `list`.
pub open spec fn counts(list: Seq<int>, primes: Seq<usize>, upto: int) -> Seq<int> {
    Seq::new(primes.len(), |j: int| count_of(list, primes[j] as int, upto))
}

/// The numbers of a list of small machine integers.
pub open spec fn ints(xs: Seq<SmallInt>) -> Seq<int> {
    Seq::new(xs.len(), |i: int| xs[i] as int)
}

/// Whether `exps` gives each of the first primes a power, and `n` is the
/// product of the powers, where 0 counts as 1 does.
pub open spec fn is_exponents(exps: Seq<int>, n: int) -> bool {
    &&& forall|i: int| 0 <= i < exps.len() ==> #[trigger] exps[i] >= 0
    &&& power_product(exps, exps.len() as int) == if n <= 1 {
        1
    } else {
        n
    }
}

/// Where `x` stands in `primes`, if it does.
fn position_of(primes: &Vec<usize>, x: u128) -> (r: Option<usize>)
    ensures
        match r {
            Some(j) => j < primes@.len() && primes@[j as int] == x,
            None => !among(primes@, x as int),
        },
{
    let mut j: usize = 0;
    while j < primes.len()
        invariant
            0 <= j <= primes@.len(),
            forall|e: int| 0 <= e < j ==> #[trigger] primes@[e] != x,
        decreases primes@.len() - j,
    {
        if primes[j] as u128 == x {
            return Some(j);
        }
        j += 1;
    }
    None
}

/// The powers to which the first primes go into `n`, read from a list of
/// factors that was found for `n`: the list is multiplied back and each of
/// its numbers is looked up in `primes`. There is a result exactly when
/// the list holds primes of `primes` of which the product is `n`; it gives
/// each prime the number of times that it stands in the list.
pub fn exponents_of(list: &Vec<u128>, n: u128, primes: &Vec<usize>) -> (r: Option<Vec<SmallInt>>)
    requires
        first_primes(primes@),
    ensures
        r is Some <==> factors_into(numbers(list@), n as int, primes@),
        r matches Some(exps) ==> {
            &&& ints(exps@) == counts(numbers(list@), primes@, list@.len() as int)
            &&& is_exponents(ints(exps@), n as int)
            &&& forall|i: int| 0 <= i < exps@.len() ==> 0 <= #[trigger] exps@[i] < 128
        },
{
    let ghost xs = numbers(list@);
    let dims = primes.len();
    let mut exps: Vec<SmallInt> = Vec::new();
    let mut j: usize = 0;
    while j < dims
        invariant
            0 <= j <= dims,
            exps@.len() == j,
            forall|e: int| 0 <= e < j ==> #[trigger] exps@[e] == 0,
        decreases dims - j,
    {
        exps.push(0);
        j += 1;
    }
    proof {
        lemma_power_product_of_zeros(ints(exps@), dims as int);
        assert(ints(exps@) =~= counts(xs, primes@, 0));
    }
    let mut acc: u128 = 1;
    let mut i: usize = 0;
    while i < list.len()
        invariant
            0 <= i <= list@.len(),
            xs == numbers(list@),
            dims == primes@.len(),
            first_primes(primes@),
            exps@.len() == dims,
            forall|t: int| 0 <= t < i ==> among(primes@, #[trigger] xs[t]),
            forall|t: int| 0 <= t < i ==> #[trigger] xs[t] >= 2,
            acc == product(xs, i as int),
            ints(exps@) == counts(xs, primes@, i as int),
            power_product(ints(exps@), dims as int) == acc,
        decreases list@.len() - i,
    {
        let f = list[i];
        assert(xs[i as int] == f);
        let at = match position_of(primes, f) {
            Some(at) => at,
            None => {
                return None;
            },
        };
        let next = match acc.checked_mul(f) {
            Some(next) => next,
            None => {
                proof {
                    if factors_into(xs, n as int, primes@) {
                        assert forall|t: int| 0 <= t < xs.len() implies #[trigger] xs[t] >= 2 by {
                            assert(among(primes@, xs[t]));
                        }
                        lemma_product_grows(xs, xs.len() as int);
                        assert(product(xs, i + 1) <= product(xs, xs.len() as int));
                    }
                }
                return None;
            },
        };
        proof {
            let p = primes@[at as int] as int;
            lemma_prime_at(p);
            lemma_few_factors(xs, i + 1);
            lemma_count_of(xs, p, i as int);
            assert(ints(exps@)[at as int] == count_of(xs, p, i as int));
            lemma_power_product_bump(ints(exps@), at as int, dims as int);
        }
        let ghost before = ints(exps@);
        let more = exps[at] + 1;
        exps.set(at, more);
        acc = next;
        proof {
            assert(ints(exps@) =~= before.update(at as int, before[at as int] + 1));
            assert(ints(exps@) =~= counts(xs, primes@, i + 1)) by {
                assert forall|e: int| 0 <= e < dims implies ints(exps@)[e] == counts(
                    xs,
                    primes@,
                    i + 1,
                )[e] by {
                    assert(before[e] == count_of(xs, primes@[e] as int, i as int));
                    if e != at && primes@[e] == primes@[at as int] {
                        lemma_prime_index_rises(primes@[e] as int, primes@[at as int] as int);
                    }
                }
            }
        }
        i += 1;
    }
    let whole: u128 = if n <= 1 {
        1
    } else {
        n
    };
    if acc != whole {
        return None;
    }
    proof {
        lemma_few_factors(xs, xs.len() as int);
        assert forall|e: int| 0 <= e < exps@.len() implies 0 <= #[trigger] exps@[e] < 128 by {
            lemma_count_of(xs, primes@[e] as int, xs.len() as int);
            assert(ints(exps@)[e] == count_of(xs, primes@[e] as int, xs.len() as int));
        }
        assert forall|e: int| 0 <= e < ints(exps@).len() implies #[trigger] ints(exps@)[e] >= 0 by {
            assert(exps@[e] >= 0);
        }
    }
    Some(exps)
}

/// Whether each list of `factored` holds primes of `primes` of which the
/// product is the number of `pairs` that the list was found for.
pub open spec fn lists_check(
    pairs: Seq<(u128, u128)>,
    factored: Seq<Factored>,
    primes: Seq<usize>,
) -> bool {
    forall|k: int|
        0 <= k < factored.len() ==> factors_into(
            numbers((#[trigger] factored[k]).num@),
            pairs[k].0 as int,
            primes,
        ) && factors_into(numbers(factored[k].den@), pairs[k].1 as int, primes)
}

/// For each fraction, the number of times that each of `primes` stands in
/// the list of its numerator.
pub open spec fn gains_of(factored: Seq<Factored>, primes: Seq<usize>) -> Seq<Seq<int>> {
    Seq::new(
        factored.len(),
        |k: int| counts(numbers(factored[k].num@), primes, factored[k].num@.len() as int),
    )
}

/// For each fraction, the number of times that each of `primes` stands in
/// the list of its denominator.
pub open spec fn losses_of(factored: Seq<Factored>, primes: Seq<usize>) -> Seq<Seq<int>> {
    Seq::new(
        factored.len(),
        |k: int| counts(numbers(factored[k].den@), primes, factored[k].den@.len() as int),
    )
}

/// Whether `row` is the instruction of `fraction`, when `gain` and `loss`
/// are the powers to which the primes go into its numerator and into its
/// denominator: the register of a prime gains the one and loses the other.
pub open spec fn row_reads_as(
    row: Seq<int>,
    fraction: (int, int),
    gain: Seq<int>,
    loss: Seq<int>,
) -> bool {
    &&& gain.len() == row.len()
    &&& loss.len() == row.len()
    &&& is_exponents(gain, fraction.0)
    &&& is_exponents(loss, fraction.1)
    &&& forall|i: int| 0 <= i < row.len() ==> #[trigger] row[i] == gain[i] - loss[i]
}

/// Whether `prog` is the program of `fractions`, when `gains` and `losses`
/// are the powers to which the primes go into the numerators and the
/// denominators: register `i` counts the prime with `i` primes below it,
/// and each fraction is an instruction that multiplies by the fraction.
pub open spec fn reads_as(
    prog: Seq<Seq<int>>,
    fractions: Seq<(int, int)>,
    gains: Seq<Seq<int>>,
    losses: Seq<Seq<int>>,
) -> bool {
    &&& prog.len() == fractions.len()
    &&& gains.len() == fractions.len()
    &&& losses.len() == fractions.len()
    &&& forall|k: int|
        0 <= k < prog.len() ==> row_reads_as(
            #[trigger] prog[k],
            fractions[k],
            gains[k],
            losses[k],
        )
}

/// Whether there are no more than `dims` registers than are needed: the
/// prime of the last goes into a numerator or a denominator, or there is
/// one register only.
pub open spec fn is_tight(gains: Seq<Seq<int>>, losses: Seq<Seq<int>>, dims: int) -> bool {
    dims == 1 || exists|k: int|
        0 <= k < gains.len() && ((#[trigger] gains[k])[dims - 1] > 0 || losses[k][dims - 1] > 0)
}

/// The program of the fractions `pairs`, from the lists of factors that
/// were found for them and from what gathering the primes gave. There is
/// a program exactly when there are primes and every list holds primes of
/// them of which the product is its number. Register `i` counts the prime
/// with `i` primes below it; an instruction gives it as many as the prime
/// goes into the numerator, less as many as it goes into the denominator.
pub fn program_from_lists(
    pairs: &Vec<(u128, u128)>,
    factored: &Vec<Factored>,
    primes: Option<Vec<usize>>,
) -> (r: Option<Program>)
    requires
        factored@.len() == pairs@.len(),
        primes matches Some(list) ==> first_primes(list@),
    ensures
        r is Some <==> primes is Some && lists_check(pairs@, factored@, primes.unwrap()@),
        r matches Some(prog) ==> {
            &&& forall|k: int|
                0 <= k < prog@.len() ==> (#[trigger] prog@[k]).len() == primes.unwrap()@.len()
            &&& reads_as(
                prog@,
                pair_views(pairs@),
                gains_of(factored@, primes.unwrap()@),
                losses_of(factored@, primes.unwrap()@),
            )
        },
{
    let list = match primes {
        Some(list) => list,
        None => {
            return None;
        },
    };
    let ghost gains = gains_of(factored@, list@);
    let ghost losses = losses_of(factored@, list@);
    let dims = list.len();
    let mut instrs: Vec<Instr> = Vec::new();
    let mut k: usize = 0;
    while k < factored.len()
        invariant
            0 <= k <= factored@.len(),
            factored@.len() == pairs@.len(),
            primes == Some(list),
            first_primes(list@),
            dims == list@.len(),
            gains == gains_of(factored@, list@),
            losses == losses_of(factored@, list@),
            instrs@.len() == k,
            forall|e: int|
                0 <= e < k ==> factors_into(
                    numbers((#[trigger] factored@[e]).num@),
                    pairs@[e].0 as int,
                    list@,
                ) && factors_into(numbers(factored@[e].den@), pairs@[e].1 as int, list@),
            forall|e: int|
                0 <= e < k ==> row_reads_as(
                    (#[trigger] instrs@[e])@,
                    pair_views(pairs@)[e],
                    gains[e],
                    losses[e],
                ) && instrs@[e]@.len() == dims,
        decreases factored@.len() - k,
    {
        let parts = &factored[k];
        let gain = match exponents_of(&parts.num, pairs[k].0, &list) {
            Some(gain) => gain,
            None => {
                assert(!factors_into(
                    numbers(factored@[k as int].num@),
                    pairs@[k as int].0 as int,
                    list@,
                ));
                return None;
            },
        };
        let loss = match exponents_of(&parts.den, pairs[k].1, &list) {
            Some(loss) => loss,
            None => {
                assert(!factors_into(
                    numbers(factored@[k as int].den@),
                    pairs@[k as int].1 as int,
                    list@,
                ));
                return None;
            },
        };
        let mut deltas: Vec<SmallInt> = Vec::new();
        let mut i: usize = 0;
        while i < dims
            invariant
                0 <= i <= dims,
                gain@.len() == dims,
                loss@.len() == dims,
                forall|e: int| 0 <= e < dims ==> 0 <= #[trigger] gain@[e] < 128,
                forall|e: int| 0 <= e < dims ==> 0 <= #[trigger] loss@[e] < 128,
                deltas@.len() == i,
                forall|e: int| 0 <= e < i ==> #[trigger] deltas@[e] == gain@[e] - loss@[e],
            decreases dims - i,
        {
            deltas.push(gain[i] - loss[i]);
            i += 1;
        }
        let ghost before = instrs@;
        let instr = Instr::new(deltas);
        proof {
            assert(gains[k as int] == ints(gain@));
            assert(losses[k as int] == ints(loss@));
            assert(pair_views(pairs@)[k as int] == (pairs@[k as int].0 as int, pairs@[k as int].1 as int));
            assert forall|e: int| 0 <= e < instr@.len() implies #[trigger] instr@[e] == ints(
                gain@,
            )[e] - ints(loss@)[e] by {
                assert(instr@[e] == deltas@[e]);
            }
            assert(row_reads_as(instr@, pair_views(pairs@)[k as int], gains[k as int], losses[k as int]));
        }
        instrs.push(instr);
        proof {
            assert forall|e: int| 0 <= e < k + 1 implies row_reads_as(
                (#[trigger] instrs@[e])@,
                pair_views(pairs@)[e],
                gains[e],
                losses[e],
            ) && instrs@[e]@.len() == dims by {
                if e < k {
                    assert(instrs@[e] == before[e]);
                }
            }
        }
        k += 1;
    }
    let prog = Program { instrs };
    proof {
        assert forall|e: int| 0 <= e < prog@.len() implies (#[trigger] prog@[e]).len() == dims
            && row_reads_as(prog@[e], pair_views(pairs@)[e], gains[e], losses[e]) by {
            assert(prog@[e] == prog.instrs@[e]@);
        }
    }
    Some(prog)
}

/// A number that stands in a list is counted.
pub proof fn lemma_counted(xs: Seq<int>, x: int, at: int, upto: int)
    requires
        0 <= at < upto,
        xs[at] == x,
    ensures
        count_of(xs, x, upto) >= 1,
    decreases upto,
{
    if at < upto - 1 {
        lemma_counted(xs, x, at, upto - 1);
    } else {
        lemma_count_of(xs, x, upto - 1);
    }
}

/// Whether every numerator and denominator is 0 or 1.
pub open spec fn all_ones(fractions: Seq<(int, int)>) -> bool {
    forall|k: int| 0 <= k < fractions.len() ==> (#[trigger] fractions[k]).0 <= 1 && fractions[k].1 <= 1
}

/// Lists without a number have 2 as their greatest factor.
pub proof fn lemma_greatest_of_none(factored: Seq<Factored>, upto: int)
    requires
        0 <= upto <= factored.len(),
        forall|k: int|
            0 <= k < upto ==> (#[trigger] factored[k]).num@.len() == 0 && factored[k].den@.len()
                == 0,
    ensures
        greatest_factor(factored, upto) == 2,
    decreases upto,
{
    if upto > 0 {
        lemma_greatest_of_none(factored, upto - 1);
        assert(factored[upto - 1].num@.len() == 0);
    }
}

/// Whether `prog` is the program of `fractions` on `dims` registers:
/// register `i` counts the prime with `i` primes below it, each fraction is
/// an instruction that multiplies by the fraction, and there are no more
/// registers than are needed.
pub open spec fn is_program_of(prog: Seq<Seq<int>>, fractions: Seq<(int, int)>, dims: int) -> bool {
    &&& dims >= 1
    &&& forall|k: int| 0 <= k < prog.len() ==> (#[trigger] prog[k]).len() == dims
    &&& exists|gains: Seq<Seq<int>>, losses: Seq<Seq<int>>| #[trigger]
        reads_as(prog, fractions, gains, losses) && is_tight(gains, losses, dims)
}

/// Two programs of the same fractions, the second on no fewer registers
/// than the first, are on as many registers.
pub proof fn lemma_registers_agree(
    a: Seq<Seq<int>>,
    b: Seq<Seq<int>>,
    fractions: Seq<(int, int)>,
    a_dims: int,
    b_dims: int,
)
    requires
        is_program_of(a, fractions, a_dims),
        is_program_of(b, fractions, b_dims),
        a_dims <= b_dims,
    ensures
        a_dims == b_dims,
{
    if a_dims < b_dims {
        let (a_gains, a_losses) = choose|gains: Seq<Seq<int>>, losses: Seq<Seq<int>>| #[trigger]
            reads_as(a, fractions, gains, losses) && is_tight(gains, losses, a_dims);
        let (b_gains, b_losses) = choose|gains: Seq<Seq<int>>, losses: Seq<Seq<int>>| #[trigger]
            reads_as(b, fractions, gains, losses) && is_tight(gains, losses, b_dims);
        let k = choose|k: int|
            0 <= k < b_gains.len() && ((#[trigger] b_gains[k])[b_dims - 1] > 0
                || b_losses[k][b_dims - 1] > 0);
        assert(row_reads_as(a[k], fractions[k], a_gains[k], a_losses[k]));
        assert(row_reads_as(b[k], fractions[k], b_gains[k], b_losses[k]));
        law_exponents_agree(a_gains[k], b_gains[k]);
        law_exponents_agree(a_losses[k], b_losses[k]);
        assert(b_gains[k][b_dims - 1] == 0);
        assert(b_losses[k][b_dims - 1] == 0);
    }
}

/// A list of fractions has one program only: two programs that are read
/// from the same fractions are the same program.
pub proof fn law_program_is_unique(
    a: Seq<Seq<int>>,
    b: Seq<Seq<int>>,
    fractions: Seq<(int, int)>,
    a_dims: int,
    b_dims: int,
)
    requires
        is_program_of(a, fractions, a_dims),
        is_program_of(b, fractions, b_dims),
    ensures
        a == b,
        fractions.len() > 0 ==> a_dims == b_dims,
{
    let (a_gains, a_losses) = choose|gains: Seq<Seq<int>>, losses: Seq<Seq<int>>| #[trigger]
        reads_as(a, fractions, gains, losses) && is_tight(gains, losses, a_dims);
    let (b_gains, b_losses) = choose|gains: Seq<Seq<int>>, losses: Seq<Seq<int>>| #[trigger]
        reads_as(b, fractions, gains, losses) && is_tight(gains, losses, b_dims);
    if fractions.len() > 0 {
        if a_dims <= b_dims {
            lemma_registers_agree(a, b, fractions, a_dims, b_dims);
        } else {
            lemma_registers_agree(b, a, fractions, b_dims, a_dims);
        }
    }
    assert forall|k: int| 0 <= k < a.len() implies #[trigger] a[k] == b[k] by {
        assert(row_reads_as(a[k], fractions[k], a_gains[k], a_losses[k]));
        assert(row_reads_as(b[k], fractions[k], b_gains[k], b_losses[k]));
        law_exponents_agree(a_gains[k], b_gains[k]);
        law_exponents_agree(a_losses[k], b_losses[k]);
        assert(a[k] =~= b[k]);
    }
    assert(a =~= b);
}

/// Reads a program from its notation as a list of fractions, as in
/// `[3/2, 5/4]`: see [`fractions_of`]. Register `i` of the program counts
/// the prime with `i` primes below it, as many registers as reach to the
/// greatest prime of a numerator or a denominator; the instruction of a
/// fraction gives a register as many as its prime goes into the numerator,
/// less as many as it goes into the denominator.
///
/// Returns `None` for a text that is no list of fractions. The factors of
/// the numbers and the primes of the registers are sought outside; the
/// factors are multiplied back and looked up among the primes, and where
/// that fails, or the primes end before the greatest factor, the result is
/// `None` too. A list of fractions of ones and zeros needs no factor, and
/// has its program. A program that is returned is the one program of the
/// fractions: see [`law_program_is_unique`].
pub fn parse_program(program_str: &str) -> (r: Option<Program>)
    ensures
        r matches Some(prog) ==> fractions_of(program_str.spec_bytes()) is Some && prog.wf()
            && is_program_of(
            prog@,
            fractions_of(program_str.spec_bytes()).unwrap(),
            prog.num_registers_spec() as int,
        ),
        fractions_of(program_str.spec_bytes()) is None ==> r is None,
        fractions_of(program_str.spec_bytes()) matches Some(fractions) ==> (all_ones(fractions)
            ==> r is Some),
{
    let pairs = match parse_fractions(program_str.as_bytes()) {
        Some(pairs) => pairs,
        None => {
            return None;
        },
    };
    let ghost fractions = pair_views(pairs@);
    let (factored, greatest) = factor_all(&pairs);
    if greatest > usize::MAX as u128 {
        proof {
            if all_ones(fractions) {
                assert forall|k: int| 0 <= k < factored@.len() implies (
                #[trigger] factored@[k]).num@.len() == 0 && factored@[k].den@.len() == 0 by {
                    assert(fractions[k].0 <= 1 && fractions[k].1 <= 1);
                }
                lemma_greatest_of_none(factored@, factored@.len() as int);
            }
        }
        return None;
    }
    let found = primes_up_to(greatest as usize);
    let ghost primes = found;
    proof {
        if all_ones(fractions) {
            assert forall|k: int| 0 <= k < factored@.len() implies (#[trigger] factored@[k]).num@.len()
                == 0 && factored@[k].den@.len() == 0 by {
                assert(fractions[k].0 <= 1 && fractions[k].1 <= 1);
            }
            lemma_greatest_of_none(factored@, factored@.len() as int);
            assert(is_prime(2));
            assert(found is Some);
            assert forall|k: int| 0 <= k < factored@.len() implies factors_into(
                numbers((#[trigger] factored@[k]).num@),
                pairs@[k].0 as int,
                found.unwrap()@,
            ) && factors_into(numbers(factored@[k].den@), pairs@[k].1 as int, found.unwrap()@) by {
                assert(fractions[k].0 <= 1 && fractions[k].1 <= 1);
            }
        }
    }
    let prog = match program_from_lists(&pairs, &factored, found) {
        Some(prog) => prog,
        None => {
            return None;
        },
    };
    proof {
        let primes = primes.unwrap();
        let dims = primes@.len() as int;
        let gains = gains_of(factored@, primes@);
        let losses = losses_of(factored@, primes@);
        lemma_fields_nonempty(cleaned(program_str.spec_bytes()), 44);
        assert(prog@.len() > 0);
        assert forall|k: int| 0 <= k < prog.instrs@.len() implies (#[trigger] prog.instrs@[k])@.len()
            == prog.instrs@[0]@.len() by {
            assert(prog@[k] == prog.instrs@[k]@);
            assert(prog@[0] == prog.instrs@[0]@);
        }
        assert(prog.num_registers_spec() == dims) by {
            assert(prog@[0] == prog.instrs@[0]@);
        }
        if dims > 1 {
            // The last prime is the greatest factor, which stands in a list.
            lemma_greatest_factor(factored@, factored@.len() as int);
            assert(primes@[0] < greatest);
            assert(is_prime(primes@[0] as int));
            let g = greatest as int;
            assert(is_factor(factored@, factored@.len() as int, g));
            let k = choose|k: int|
                0 <= k < factored@.len() && (numbers((#[trigger] factored@[k]).num@).contains(g)
                    || numbers(factored@[k].den@).contains(g));
            assert(factors_into(numbers(factored@[k].num@), pairs@[k].0 as int, primes@));
            let in_num = numbers(factored@[k].num@).contains(g);
            let xs = if in_num {
                numbers(factored@[k].num@)
            } else {
                numbers(factored@[k].den@)
            };
            let at = choose|at: int| 0 <= at < xs.len() && xs[at] == g;
            assert(among(primes@, xs[at]));
            let j = choose|j: int| 0 <= j < primes@.len() && #[trigger] primes@[j] == g;
            assert(j == dims - 1);
            lemma_counted(xs, g, at, xs.len() as int);
            assert(gains[k][dims - 1] == count_of(
                numbers(factored@[k].num@),
                primes@[dims - 1] as int,
                factored@[k].num@.len() as int,
            ));
            assert(losses[k][dims - 1] == count_of(
                numbers(factored@[k].den@),
                primes@[dims - 1] as int,
                factored@[k].den@.len() as int,
            ));
            assert(gains[k][dims - 1] > 0 || losses[k][dims - 1] > 0);
        }
        assert(is_tight(gains, losses, dims));
        assert(reads_as(prog@, fractions, gains, losses));
        assert(prog.wf());
        assert(fractions_of(program_str.spec_bytes()) == Some(fractions));
        assert(reads_as(prog@, fractions_of(program_str.spec_bytes()).unwrap(), gains, losses)
            && is_tight(gains, losses, prog.num_registers_spec() as int));
        assert forall|k: int| 0 <= k < prog@.len() implies (#[trigger] prog@[k]).len()
            == dims by {}
    }
    Some(prog)
}

/// A text is cut into at least one piece.
pub proof fn lemma_fields_nonempty(text: Seq<u8>, sep: u8)
    ensures
        fields(text, sep).len() >= 1,
    decreases text.len(),
{
    if text.len() > 0 {
        lemma_fields_nonempty(text.drop_last(), sep);
    }
}

} // verus!

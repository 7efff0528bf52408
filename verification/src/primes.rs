//! Prime numbers: a list of factors of a number, from
//! `prime_factorization`, and the primes in their order, from `primal`.
//!
//! The outside functions are stated here, not proved. Of the factors
//! nothing is taken on trust that the library draws on: it multiplies them
//! back and looks each of them up among the primes. The facts about
//! primes that the library needs are proved.
use vstd::prelude::*;
use vstd::arithmetic::div_mod::{
    lemma_fundamental_div_mod, lemma_mod_bound, lemma_mod_multiples_basic, lemma_mod_self_0,
    lemma_small_mod,
};
use vstd::arithmetic::power2::{
    lemma2_to64, lemma_pow2_adds, lemma_pow2_strictly_increases, lemma_pow2_unfold, pow2,
};

verus! {

/// `primal::Primes`, a stream of the primes in their order. Nothing is
/// known of such a value but how many primes it has handed out,
/// [`primes_given`].
#[verifier::external_type_specification]
#[verifier::external_body]
pub struct ExPrimes(primal::Primes);

/// Whether `p` is a prime number.
pub open spec fn is_prime(p: int) -> bool {
    p >= 2 && forall|d: int| 2 <= d < p ==> #[trigger] (p % d) != 0
}

/// The number of primes below `n`. A prime `p` is the prime of this index
/// in the sequence 2, 3, 5, 7, ...
pub open spec fn primes_below(n: int) -> int
    decreases n,
{
    if n <= 2 {
        0
    } else {
        primes_below(n - 1) + if is_prime(n - 1) {
            1int
        } else {
            0int
        }
    }
}

/// The prime with `i` primes below it.
pub open spec fn prime_at(i: int) -> int {
    choose|p: int| is_prime(p) && primes_below(p) == i
}

/// `base` to the power `e`.
pub open spec fn power(base: int, e: int) -> int
    decreases e,
{
    if e <= 0 {
        1
    } else {
        base * power(base, e - 1)
    }
}

/// The product of the first `upto` primes, each to the power that `exps`
/// gives it.
pub open spec fn power_product(exps: Seq<int>, upto: int) -> int
    decreases upto,
{
    if upto <= 0 {
        1
    } else {
        power_product(exps, upto - 1) * power(prime_at(upto - 1), exps[upto - 1])
    }
}

/// The product of the first `upto` numbers of `xs`.
pub open spec fn product(xs: Seq<int>, upto: int) -> int
    decreases upto,
{
    if upto <= 0 {
        1
    } else {
        product(xs, upto - 1) * xs[upto - 1]
    }
}

/// The number of times that `x` stands among the first `upto` of `xs`.
pub open spec fn count_of(xs: Seq<int>, x: int, upto: int) -> int
    decreases upto,
{
    if upto <= 0 {
        0
    } else {
        count_of(xs, x, upto - 1) + if xs[upto - 1] == x {
            1int
        } else {
            0int
        }
    }
}

/// The number of primes that a stream of primes has handed out.
pub uninterp spec fn primes_given(stream: primal::Primes) -> int;

/// The numbers of a list of machine integers.
pub open spec fn numbers(xs: Seq<u128>) -> Seq<int> {
    Seq::new(xs.len(), |i: int| xs[i] as int)
}

/// `Factorization::run` and its field `factors`: a list of numbers that is
/// meant to hold the prime factors of `n`. The search behind it draws
/// random numbers and does not find every factor of every number, so no
/// more is said of the list than holds of every outcome: there is none
/// for 0 and 1, and the numbers stand in rising order.
#[verifier::external_body]
pub(crate) fn factorize(n: u128) -> (r: Vec<u128>)
    ensures
        n <= 1 ==> r@.len() == 0,
        forall|i: int, j: int| 0 <= i <= j < r@.len() ==> r@[i] <= r@[j],
{
    prime_factorization::Factorization::run(n).factors
}

/// `Primes::all`: a stream of the primes from the first on.
#[verifier::external_body]
pub(crate) fn primes_all() -> (r: primal::Primes)
    ensures
        primes_given(r) == 0,
{
    primal::Primes::all()
}

/// `Iterator::next` of a stream of primes: the prime that follows the
/// ones handed out, that is the prime below which as many primes lie as
/// were handed out. The stream yields primes as long as a machine index
/// holds them: it ends only where the prime that follows is greater than
/// every machine index.
#[verifier::external_body]
pub(crate) fn primes_next(stream: &mut primal::Primes) -> (r: Option<usize>)
    ensures
        r matches Some(p) ==> is_prime(p as int) && primes_below(p as int) == primes_given(
            *old(stream),
        ),
        r is Some ==> primes_given(*final(stream)) == primes_given(*old(stream)) + 1,
        r is None ==> forall|p: int|
            is_prime(p) && #[trigger] primes_below(p) == primes_given(*old(stream)) ==> p
                > usize::MAX,
{
    stream.next()
}

/// There are no more primes below a smaller number.
pub proof fn lemma_primes_below_monotone(a: int, b: int)
    requires
        a <= b,
    ensures
        0 <= primes_below(a) <= primes_below(b),
    decreases b - a, b,
{
    if a < b {
        lemma_primes_below_monotone(a, b - 1);
    } else if a > 2 {
        lemma_primes_below_monotone(a - 1, a - 1);
    }
}

/// A greater prime has more primes below it.
pub proof fn lemma_prime_index_rises(p: int, q: int)
    requires
        is_prime(p),
        is_prime(q),
    ensures
        p < q <==> primes_below(p) < primes_below(q),
{
    if p < q {
        lemma_primes_below_monotone(p + 1, q);
        assert(primes_below(p + 1) == primes_below(p) + 1);
    } else {
        lemma_primes_below_monotone(q, p);
    }
}

/// A prime is the prime of its index.
pub proof fn lemma_prime_at(p: int)
    requires
        is_prime(p),
    ensures
        prime_at(primes_below(p)) == p,
{
    let q = prime_at(primes_below(p));
    assert(is_prime(q) && primes_below(q) == primes_below(p));
    lemma_prime_index_rises(p, q);
    lemma_prime_index_rises(q, p);
}

/// Below a number with more than `i` primes below it lies the prime with
/// `i` primes below it.
pub proof fn lemma_prime_of_index(n: int, i: int)
    requires
        0 <= i < primes_below(n),
    ensures
        is_prime(prime_at(i)),
        primes_below(prime_at(i)) == i,
        prime_at(i) < n,
    decreases n,
{
    if n > 2 {
        if is_prime(n - 1) && primes_below(n - 1) == i {
            lemma_prime_at(n - 1);
        } else {
            lemma_prime_of_index(n - 1, i);
        }
    }
}

/// A power of a number from 1 on is at least 1.
pub proof fn lemma_power_positive(base: int, e: int)
    requires
        base >= 1,
    ensures
        power(base, e) >= 1,
    decreases e,
{
    if e > 0 {
        lemma_power_positive(base, e - 1);
        assert(base * power(base, e - 1) >= 1) by (nonlinear_arith)
            requires
                base >= 1,
                power(base, e - 1) >= 1,
        ;
    }
}

/// One more of the prime of index `j` multiplies the product of the
/// powers of the primes by that prime.
pub proof fn lemma_power_product_bump(exps: Seq<int>, j: int, upto: int)
    requires
        0 <= j < exps.len(),
        0 <= upto <= exps.len(),
        exps[j] >= 0,
    ensures
        power_product(exps.update(j, exps[j] + 1), upto) == if j < upto {
            power_product(exps, upto) * prime_at(j)
        } else {
            power_product(exps, upto)
        },
    decreases upto,
{
    if upto > 0 {
        let more = exps.update(j, exps[j] + 1);
        lemma_power_product_bump(exps, j, upto - 1);
        let head = power_product(exps, upto - 1);
        let last = upto - 1;
        if j == last {
            let p = prime_at(j);
            let was = power(p, exps[j]);
            assert(power(p, exps[j] + 1) == p * was);
            assert(head * (p * was) == (head * was) * p) by (nonlinear_arith);
        } else if j < last {
            let own = power(prime_at(last), exps[last]);
            let p = prime_at(j);
            assert(more[last] == exps[last]);
            assert((head * p) * own == (head * own) * p) by (nonlinear_arith);
        } else {
            assert(more[last] == exps[last]);
        }
    }
}

/// The product of powers of primes to the power 0 is 1.
pub proof fn lemma_power_product_of_zeros(exps: Seq<int>, upto: int)
    requires
        0 <= upto <= exps.len(),
        forall|i: int| 0 <= i < exps.len() ==> #[trigger] exps[i] == 0,
    ensures
        power_product(exps, upto) == 1,
    decreases upto,
{
    if upto > 0 {
        lemma_power_product_of_zeros(exps, upto - 1);
    }
}

/// The product of numbers from 2 on is at least 2 to the power of their
/// count, and does not fall with more of them.
pub proof fn lemma_product_grows(xs: Seq<int>, upto: int)
    requires
        0 <= upto <= xs.len(),
        forall|i: int| 0 <= i < upto ==> #[trigger] xs[i] >= 2,
    ensures
        product(xs, upto) >= pow2(upto as nat),
        forall|k: int| 0 <= k <= upto ==> #[trigger] product(xs, k) <= product(xs, upto),
    decreases upto,
{
    if upto > 0 {
        lemma_product_grows(xs, upto - 1);
        lemma_pow2_unfold(upto as nat);
        let before = product(xs, upto - 1);
        let half = pow2((upto - 1) as nat);
        let last = xs[upto - 1];
        assert(before * last >= 2 * half && before * last >= before) by (nonlinear_arith)
            requires
                before >= half,
                half >= 0,
                last >= 2,
        ;
    } else {
        lemma2_to64();
    }
}

/// A number that 128 bits hold is the product of fewer than 128 numbers
/// from 2 on.
pub proof fn lemma_few_factors(xs: Seq<int>, upto: int)
    requires
        0 <= upto <= xs.len(),
        forall|i: int| 0 <= i < upto ==> #[trigger] xs[i] >= 2,
        product(xs, upto) <= u128::MAX,
    ensures
        upto < 128,
{
    if upto >= 128 {
        lemma_product_grows(xs, upto);
        lemma2_to64();
        lemma_pow2_adds(64, 64);
        assert(pow2(64) * pow2(64) == 0x1_0000_0000_0000_0000_0000_0000_0000_0000)
            by (nonlinear_arith)
            requires
                pow2(64) == 0x1_0000_0000_0000_0000,
        ;
        if upto > 128 {
            lemma_pow2_strictly_increases(128, upto as nat);
        }
    }
}

/// The number of times that a number stands in a list does not fall with
/// more of the list, and is at most the length.
pub proof fn lemma_count_of(xs: Seq<int>, x: int, upto: int)
    requires
        0 <= upto,
    ensures
        0 <= count_of(xs, x, upto) <= upto,
    decreases upto,
{
    if upto > 0 {
        lemma_count_of(xs, x, upto - 1);
    }
}

/// A number from 2 on has a prime that goes into it; the lemma returns one.
pub proof fn lemma_prime_factor(n: int) -> (p: int)
    requires
        n >= 2,
    ensures
        is_prime(p),
        p <= n,
        n % p == 0,
    decreases n,
{
    if is_prime(n) {
        lemma_mod_self_0(n);
        n
    } else {
        let d = choose|d: int| 2 <= d < n && #[trigger] (n % d) == 0;
        let p = lemma_prime_factor(d);
        lemma_fundamental_div_mod(n, d);
        lemma_fundamental_div_mod(d, p);
        let a = n / d;
        let b = d / p;
        assert(n == (a * b) * p) by (nonlinear_arith)
            requires
                n == d * a + 0,
                d == p * b + 0,
        ;
        lemma_mod_multiples_basic(a * b, p);
        p
    }
}

/// The product of the numbers from 1 to `n`.
pub open spec fn factorial(n: int) -> int
    decreases n,
{
    if n <= 1 {
        1
    } else {
        n * factorial(n - 1)
    }
}

/// Each number from 1 to `n` goes into the product of these numbers, which
/// is at least 1.
pub proof fn lemma_factorial(n: int, d: int)
    requires
        1 <= d <= n,
    ensures
        factorial(n) % d == 0,
        factorial(n) >= 1,
    decreases n,
{
    if n <= 1 {
        lemma_mod_self_0(1);
    } else {
        lemma_factorial(n - 1, 1);
        let rest = factorial(n - 1);
        assert(n * rest >= 1) by (nonlinear_arith)
            requires
                n >= 1,
                rest >= 1,
        ;
        if d == n {
            assert(n * rest == rest * d) by (nonlinear_arith)
                requires
                    d == n,
            ;
            lemma_mod_multiples_basic(rest, d);
        } else {
            lemma_factorial(n - 1, d);
            lemma_fundamental_div_mod(rest, d);
            let k = rest / d;
            assert(n * rest == (n * k) * d) by (nonlinear_arith)
                requires
                    rest == d * k + 0,
            ;
            lemma_mod_multiples_basic(n * k, d);
        }
    }
}

/// Above every number there is a prime; the lemma returns one.
pub proof fn lemma_prime_above(n: int) -> (p: int)
    ensures
        is_prime(p),
        p > n,
{
    if n < 2 {
        assert(is_prime(2));
        2
    } else {
        lemma_factorial(n, 1);
        let f = factorial(n);
        let p = lemma_prime_factor(f + 1);
        if p <= n {
            lemma_factorial(n, p);
            lemma_fundamental_div_mod(f, p);
            lemma_fundamental_div_mod(f + 1, p);
            let a = f / p;
            let b = (f + 1) / p;
            assert(false) by (nonlinear_arith)
                requires
                    f == p * a + 0,
                    f + 1 == p * b + 0,
                    p >= 2,
            ;
        }
        p
    }
}

/// There is a number with more than `i` primes below it; the lemma returns
/// one.
pub proof fn lemma_primes_go_on(i: int) -> (n: int)
    requires
        i >= 0,
    ensures
        primes_below(n) > i,
    decreases i,
{
    if i == 0 {
        assert(is_prime(2));
        assert(primes_below(3) == primes_below(2) + 1);
        3
    } else {
        let m = lemma_primes_go_on(i - 1);
        let p = lemma_prime_above(m);
        lemma_primes_below_monotone(m, p);
        assert(primes_below(p + 1) == primes_below(p) + 1);
        p + 1
    }
}

/// There is no end to the primes: every index has its prime.
pub proof fn law_every_index_has_its_prime(i: int)
    requires
        i >= 0,
    ensures
        is_prime(prime_at(i)),
        primes_below(prime_at(i)) == i,
{
    let n = lemma_primes_go_on(i);
    lemma_prime_of_index(n, i);
}

/// Each index below `dims` has its prime.
pub proof fn lemma_primes_exist(dims: int)
    ensures
        forall|i: int|
            0 <= i < dims ==> is_prime(#[trigger] prime_at(i)) && primes_below(prime_at(i)) == i,
{
    assert forall|i: int| 0 <= i < dims implies is_prime(#[trigger] prime_at(i)) && primes_below(
        prime_at(i),
    ) == i by {
        law_every_index_has_its_prime(i);
    }
}

/// A prime that goes into the product of a number below it and another
/// number goes into the other number.
pub proof fn lemma_euclid_below(p: int, r: int, b: int)
    requires
        is_prime(p),
        0 < r < p,
        (r * b) % p == 0,
    ensures
        b % p == 0,
    decreases r,
{
    if r == 1 {
        assert(r * b == b) by (nonlinear_arith)
            requires
                r == 1,
        ;
    } else {
        let t = p % r;
        let s = p / r;
        lemma_fundamental_div_mod(p, r);
        lemma_mod_bound(p, r);
        assert(t != 0);
        let k = (r * b) / p;
        lemma_fundamental_div_mod(r * b, p);
        assert(t * b == (b - s * k) * p) by (nonlinear_arith)
            requires
                p == r * s + t,
                r * b == p * k + 0,
        ;
        lemma_mod_multiples_basic(b - s * k, p);
        lemma_euclid_below(p, t, b);
    }
}

/// A prime that goes into a product goes into one of the two numbers.
pub proof fn lemma_euclid(p: int, a: int, b: int)
    requires
        is_prime(p),
        (a * b) % p == 0,
    ensures
        a % p == 0 || b % p == 0,
{
    let r = a % p;
    lemma_mod_bound(a, p);
    if r != 0 {
        let q = a / p;
        let k = (a * b) / p;
        lemma_fundamental_div_mod(a, p);
        lemma_fundamental_div_mod(a * b, p);
        assert(r * b == (k - q * b) * p) by (nonlinear_arith)
            requires
                a == p * q + r,
                a * b == p * k + 0,
        ;
        lemma_mod_multiples_basic(k - q * b, p);
        lemma_euclid_below(p, r, b);
    }
}

/// A prime that goes into a prime is that prime.
pub proof fn lemma_prime_divides_prime(p: int, q: int)
    requires
        is_prime(p),
        is_prime(q),
        q % p == 0,
    ensures
        p == q,
{
    if p > q {
        lemma_small_mod(q as nat, p as nat);
    }
}

/// A prime that goes into a power of a prime is that prime, and the power
/// is not the power 0.
pub proof fn lemma_prime_divides_power(p: int, q: int, e: int)
    requires
        is_prime(p),
        is_prime(q),
        power(q, e) % p == 0,
    ensures
        p == q,
        e > 0,
    decreases e,
{
    if e <= 0 {
        lemma_small_mod(1, p as nat);
    } else {
        lemma_euclid(p, q, power(q, e - 1));
        if q % p == 0 {
            lemma_prime_divides_prime(p, q);
        } else {
            lemma_prime_divides_power(p, q, e - 1);
        }
    }
}

/// A prime that goes into a product of powers of primes is one of these
/// primes, with a power that is not 0; the lemma returns its index.
pub proof fn lemma_prime_divides_product(exps: Seq<int>, upto: int, p: int) -> (at: int)
    requires
        0 <= upto <= exps.len(),
        is_prime(p),
        power_product(exps, upto) % p == 0,
    ensures
        0 <= at < upto,
        exps[at] > 0,
        prime_at(at) == p,
    decreases upto,
{
    lemma_primes_exist(upto);
    if upto <= 0 {
        lemma_small_mod(1, p as nat);
        0
    } else {
        let head = power_product(exps, upto - 1);
        let q = prime_at(upto - 1);
        lemma_euclid(p, head, power(q, exps[upto - 1]));
        if head % p == 0 {
            lemma_prime_divides_product(exps, upto - 1, p)
        } else {
            lemma_prime_divides_power(p, q, exps[upto - 1]);
            upto - 1
        }
    }
}

/// A product of powers of primes is at least 1.
pub proof fn lemma_power_product_positive(exps: Seq<int>, upto: int)
    requires
        0 <= upto <= exps.len(),
    ensures
        power_product(exps, upto) >= 1,
    decreases upto,
{
    lemma_primes_exist(upto);
    if upto > 0 {
        lemma_power_product_positive(exps, upto - 1);
        lemma_power_positive(prime_at(upto - 1), exps[upto - 1]);
        let head = power_product(exps, upto - 1);
        let own = power(prime_at(upto - 1), exps[upto - 1]);
        assert(head * own >= 1) by (nonlinear_arith)
            requires
                head >= 1,
                own >= 1,
        ;
    }
}

/// A number is the product of powers of the primes in one way only: two
/// lists of powers for the first `dims` primes that give the same product
/// are the same list.
pub proof fn law_exponents_are_unique(a: Seq<int>, b: Seq<int>, dims: int)
    requires
        a.len() == dims,
        b.len() == dims,
        forall|i: int| 0 <= i < dims ==> #[trigger] a[i] >= 0,
        forall|i: int| 0 <= i < dims ==> #[trigger] b[i] >= 0,
        power_product(a, dims) == power_product(b, dims),
    ensures
        a == b,
    decreases power_product(a, dims),
{
    lemma_primes_exist(dims);
    lemma_power_product_positive(a, dims);
    if exists|j: int| 0 <= j < dims && #[trigger] a[j] > 0 {
        let j = choose|j: int| 0 <= j < dims && #[trigger] a[j] > 0;
        let p = prime_at(j);
        let less_a = a.update(j, a[j] - 1);
        lemma_power_product_bump(less_a, j, dims);
        assert(less_a.update(j, less_a[j] + 1) =~= a);
        let rest_a = power_product(less_a, dims);
        lemma_mod_multiples_basic(rest_a, p);
        let i = lemma_prime_divides_product(b, dims, p);
        assert(i == j) by {
            assert(primes_below(prime_at(i)) == i && primes_below(prime_at(j)) == j);
        }
        let less_b = b.update(j, b[j] - 1);
        lemma_power_product_bump(less_b, j, dims);
        assert(less_b.update(j, less_b[j] + 1) =~= b);
        let rest_b = power_product(less_b, dims);
        lemma_power_product_positive(less_a, dims);
        assert(rest_a == rest_b && rest_a < rest_a * p) by (nonlinear_arith)
            requires
                rest_a * p == rest_b * p,
                p >= 2,
                rest_a >= 1,
        ;
        law_exponents_are_unique(less_a, less_b, dims);
        assert(a =~= b) by {
            assert(less_a.update(j, less_a[j] + 1) =~= less_b.update(j, less_b[j] + 1));
        }
    } else {
        lemma_power_product_of_zeros(a, dims);
        if exists|j: int| 0 <= j < dims && #[trigger] b[j] > 0 {
            let j = choose|j: int| 0 <= j < dims && #[trigger] b[j] > 0;
            let p = prime_at(j);
            let less_b = b.update(j, b[j] - 1);
            lemma_power_product_bump(less_b, j, dims);
            assert(less_b.update(j, less_b[j] + 1) =~= b);
            lemma_mod_multiples_basic(power_product(less_b, dims), p);
            lemma_small_mod(1, p as nat);
        }
        assert(a =~= b);
    }
}

/// The product of powers of the first `upto` primes looks at the first
/// `upto` powers only.
pub proof fn lemma_power_product_agrees(a: Seq<int>, b: Seq<int>, upto: int)
    requires
        0 <= upto <= a.len(),
        upto <= b.len(),
        forall|i: int| 0 <= i < upto ==> #[trigger] a[i] == b[i],
    ensures
        power_product(a, upto) == power_product(b, upto),
    decreases upto,
{
    if upto > 0 {
        lemma_power_product_agrees(a, b, upto - 1);
        assert(a[upto - 1] == b[upto - 1]);
    }
}

/// Powers 0 behind a list of powers leave its product as it is.
pub proof fn lemma_power_product_padded(a: Seq<int>, padded: Seq<int>, upto: int)
    requires
        a.len() <= upto <= padded.len(),
        forall|i: int| 0 <= i < a.len() ==> #[trigger] padded[i] == a[i],
        forall|i: int| a.len() <= i < padded.len() ==> #[trigger] padded[i] == 0,
    ensures
        power_product(padded, upto) == power_product(a, a.len() as int),
    decreases upto,
{
    if upto == a.len() {
        lemma_power_product_agrees(padded, a, upto);
    } else {
        lemma_power_product_padded(a, padded, upto - 1);
        assert(padded[upto - 1] == 0);
        assert(power(prime_at(upto - 1), 0) == 1);
    }
}

/// Two lists of powers of the first primes that give the same product
/// differ in nothing but powers 0 at the end of the longer one.
pub proof fn law_exponents_agree(a: Seq<int>, b: Seq<int>)
    requires
        a.len() <= b.len(),
        forall|i: int| 0 <= i < a.len() ==> #[trigger] a[i] >= 0,
        forall|i: int| 0 <= i < b.len() ==> #[trigger] b[i] >= 0,
        power_product(a, a.len() as int) == power_product(b, b.len() as int),
    ensures
        forall|i: int| 0 <= i < a.len() ==> #[trigger] b[i] == a[i],
        forall|i: int| a.len() <= i < b.len() ==> #[trigger] b[i] == 0,
{
    let padded = Seq::new(
        b.len(),
        |i: int|
            if i < a.len() {
                a[i]
            } else {
                0
            },
    );
    lemma_power_product_padded(a, padded, b.len() as int);
    law_exponents_are_unique(padded, b, b.len() as int);
}

} // verus!

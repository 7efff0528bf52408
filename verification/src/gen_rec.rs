//! The number of general recursive functions of a given size.
//!
//! The functions are built from the atoms -- zero, successor and the
//! projections -- by minimisation `M(f)`, primitive recursion `R(g, h)` and
//! composition `C(h, g_1, ..., g_m)`. The size of a function is the number
//! of atoms and combinators in it.
use vstd::prelude::*;
use crate::bignum::{big_add, big_clone, big_from_i64, big_mul, integer_value};
use crate::program::BigInt;

verus! {

/// The number of functions of `size` and `arity`.
pub open spec fn count_spec(size: nat, arity: nat) -> nat
    decreases size, 3nat, 0nat,
{
    if size == 0 {
        0
    } else if size == 1 {
        // The zero function and the projections, and for one argument the
        // successor.
        if arity == 1 {
            arity + 2
        } else {
            arity + 1
        }
    } else {
        let n = (size - 1) as nat;
        count_spec(n, arity + 1) + (if arity >= 1 {
            recursions(n, arity, (n - 1) as nat)
        } else {
            0
        }) + compositions(n, arity, n)
    }
}

/// The number of primitive recursions `R(g, h)` of `arity` whose parts
/// have the size `n` together, `g` of size at most `upto`.
pub open spec fn recursions(n: nat, arity: nat, upto: nat) -> nat
    decreases n + 1, 2nat, upto,
{
    if upto == 0 || upto >= n || arity == 0 {
        0
    } else {
        recursions(n, arity, (upto - 1) as nat) + count_spec(upto, (arity - 1) as nat) * count_spec(
            (n - upto) as nat,
            arity + 1,
        )
    }
}

/// The number of compositions `C(h, g_1, ..., g_m)` of `arity` whose parts
/// have the size `n` together, `h` of size at most `upto`.
pub open spec fn compositions(n: nat, arity: nat, upto: nat) -> nat
    decreases n + 1, 2nat, upto,
{
    if upto == 0 || upto > n {
        0
    } else {
        compositions(n, arity, (upto - 1) as nat) + compositions_with(
            n,
            arity,
            upto,
            (n - upto) as nat,
        )
    }
}

/// The number of compositions `C(h, g_1, ..., g_m)` of `arity` whose parts
/// have the size `n` together, `h` of size `x`, with at most `upto` inner
/// functions and at least one.
pub open spec fn compositions_with(n: nat, arity: nat, x: nat, upto: nat) -> nat
    decreases n + 1, 1nat, upto,
{
    if upto == 0 || x > n || x == 0 {
        0
    } else {
        compositions_with(n, arity, x, (upto - 1) as nat) + count_spec(x, upto) * count_many_spec(
            (n - x) as nat,
            arity,
            upto,
        )
    }
}

/// The number of lists of `num_funcs` functions of `arity` that have the
/// size `size` together.
pub open spec fn count_many_spec(size: nat, arity: nat, num_funcs: nat) -> nat
    decreases size, 5nat, 0nat,
{
    if num_funcs > size {
        0
    } else if num_funcs == 0 {
        if size == 0 {
            1
        } else {
            0
        }
    } else {
        lists(size, arity, num_funcs, size)
    }
}

/// The number of lists of `num_funcs` functions of `arity` that have the
/// size `size` together, the first of size at most `upto`.
pub open spec fn lists(size: nat, arity: nat, num_funcs: nat, upto: nat) -> nat
    decreases size, 4nat, upto,
{
    if upto == 0 || upto > size || num_funcs == 0 {
        0
    } else {
        lists(size, arity, num_funcs, (upto - 1) as nat) + count_spec(upto, arity) * count_many_spec(
            (size - upto) as nat,
            arity,
            (num_funcs - 1) as nat,
        )
    }
}

/// The counts for all sizes up to a greatest and all arities that the
/// counts of the greatest size and a given arity draw on.
pub struct CountTable {
    /// The greatest size.
    pub sizes: usize,
    /// The greatest arity.
    pub arities: usize,
    /// `one[s][a]` is the number of functions of size `s` and arity `a`.
    pub one: Vec<Vec<BigInt>>,
    /// `many[s][a][k]` is the number of lists of `k` functions of arity
    /// `a` that have the size `s` together.
    pub many: Vec<Vec<Vec<BigInt>>>,
}

impl CountTable {
    /// Whether the table has an entry for the size `s` and the arity `a`
    /// that its later entries may draw on.
    pub open spec fn covers(&self, s: int, a: int) -> bool {
        0 <= s <= self.sizes && 0 <= a && a + s <= self.arities
    }

    /// The table has its rows for the sizes up to `done`, and they hold
    /// the counts.
    pub open spec fn filled(&self, done: int) -> bool {
        &&& self.one@.len() == done
        &&& self.many@.len() == done
        &&& done <= self.sizes + 1
        &&& self.sizes <= self.arities
        &&& forall|s: int|
            0 <= s < done ==> (#[trigger] self.one@[s])@.len() == self.arities + 1 - s
        &&& forall|s: int, a: int|
            0 <= s < done && 0 <= a && a + s <= self.arities ==> integer_value(
                #[trigger] self.one@[s]@[a],
            ) == count_spec(s as nat, a as nat)
        &&& forall|s: int|
            0 <= s < done ==> (#[trigger] self.many@[s])@.len() == self.arities + 1 - s
        &&& forall|s: int, a: int|
            0 <= s < done && 0 <= a && a + s <= self.arities ==> (#[trigger] self.many@[s]@[a])@.len()
                == self.sizes + 1
        &&& forall|s: int, a: int, k: int|
            0 <= s < done && 0 <= a && a + s <= self.arities && 0 <= k <= self.sizes
                ==> integer_value(#[trigger] self.many@[s]@[a]@[k]) == count_many_spec(
                s as nat,
                a as nat,
                k as nat,
            )
    }
}

/// Whether `row` holds the numbers of functions of size `s` for the
/// arities that a table with the greatest arity `arities` covers.
pub open spec fn is_one_row(row: Seq<BigInt>, s: int, arities: int) -> bool {
    &&& row.len() == arities + 1 - s
    &&& forall|a: int|
        0 <= a && a + s <= arities ==> integer_value(#[trigger] row[a]) == count_spec(
            s as nat,
            a as nat,
        )
}

/// The number of functions of size `s` and arity `a`, from the counts for
/// smaller sizes.
fn compute_one(table: &CountTable, s: usize, a: usize) -> (r: BigInt)
    requires
        table.filled(s as int),
        s <= table.sizes,
        a + s <= table.arities,
        table.arities < usize::MAX,
    ensures
        integer_value(r) == count_spec(s as nat, a as nat),
{
    if s == 0 {
        return big_from_i64(0);
    }
    if s == 1 {
        let atoms = big_from_i64(1);
        let mut total = big_from_i64(if a == 1 { 2 } else { 1 });
        // One projection for each argument.
        let mut i: usize = 0;
        while i < a
            invariant
                0 <= i <= a,
                integer_value(atoms) == 1,
                integer_value(total) == i + if a == 1 { 2int } else { 1int },
            decreases a - i,
        {
            total = big_add(&total, &atoms);
            i += 1;
        }
        return total;
    }
    let n = s - 1;
    // M(f)
    let mut total = big_clone(&table.one[n][a + 1]);
    // R(g, h)
    if a >= 1 {
        let mut x: usize = 1;
        while x < n
            invariant
                1 <= x <= n,
                n == s - 1,
                a >= 1,
                table.filled(s as int),
                s <= table.sizes,
                a + s <= table.arities,
                integer_value(total) == count_spec(n as nat, (a + 1) as nat) + recursions(
                    n as nat,
                    a as nat,
                    (x - 1) as nat,
                ),
            decreases n - x,
        {
            let y = n - x;
            let g = &table.one[x][a - 1];
            let h = &table.one[y][a + 1];
            let both = big_mul(g, h);
            total = big_add(&total, &both);
            x += 1;
        }
    } else {
        assert(recursions(n as nat, a as nat, (n - 1) as nat) == 0);
    }
    // C(h, g_1, ..., g_m)
    let ghost first = integer_value(total);
    let mut x: usize = 1;
    while x <= n
        invariant
            1 <= x <= n + 1,
            n == s - 1,
            n >= 1,
            table.filled(s as int),
            s <= table.sizes,
            a + s <= table.arities,
            first == count_spec(n as nat, (a + 1) as nat) + if a >= 1 {
                recursions(n as nat, a as nat, (n - 1) as nat)
            } else {
                0
            },
            integer_value(total) == first + compositions(n as nat, a as nat, (x - 1) as nat),
        decreases n + 1 - x,
    {
        let y = n - x;
        let ghost so_far = integer_value(total);
        let mut m: usize = 1;
        while m <= y
            invariant
                1 <= m <= y + 1,
                1 <= x <= n,
                y == n - x,
                n == s - 1,
                table.filled(s as int),
                s <= table.sizes,
                a + s <= table.arities,
                integer_value(total) == so_far + compositions_with(
                    n as nat,
                    a as nat,
                    x as nat,
                    (m - 1) as nat,
                ),
            decreases y + 1 - m,
        {
            let h = &table.one[x][m];
            let gs = &table.many[y][a][m];
            let both = big_mul(h, gs);
            total = big_add(&total, &both);
            m += 1;
        }
        x += 1;
    }
    total
}

/// The number of lists of `k` functions of arity `a` that have the size
/// `s` together, from the counts for smaller sizes and the numbers of
/// functions of size `s`.
fn compute_many(table: &CountTable, row: &Vec<BigInt>, s: usize, a: usize, k: usize) -> (r: BigInt)
    requires
        table.filled(s as int),
        is_one_row(row@, s as int, table.arities as int),
        s <= table.sizes,
        a + s <= table.arities,
        k <= table.sizes,
        table.arities < usize::MAX,
    ensures
        integer_value(r) == count_many_spec(s as nat, a as nat, k as nat),
{
    if k > s {
        return big_from_i64(0);
    }
    if k == 0 {
        return big_from_i64(if s == 0 { 1 } else { 0 });
    }
    let mut total = big_from_i64(0);
    let mut x: usize = 1;
    while x <= s
        invariant
            1 <= x <= s + 1,
            1 <= k <= s,
            table.filled(s as int),
            is_one_row(row@, s as int, table.arities as int),
            s <= table.sizes,
            a + s <= table.arities,
            table.arities < usize::MAX,
            integer_value(total) == lists(s as nat, a as nat, k as nat, (x - 1) as nat),
        decreases s + 1 - x,
    {
        let y = s - x;
        let first = if x == s {
            &row[a]
        } else {
            &table.one[x][a]
        };
        let rest = &table.many[y][a][k - 1];
        let both = big_mul(first, rest);
        total = big_add(&total, &both);
        x += 1;
    }
    total
}

impl CountTable {
    /// The table of the counts for the sizes up to `sizes` and the arities
    /// up to `arities`, less the size.
    pub fn new(sizes: usize, arities: usize) -> (r: CountTable)
        requires
            sizes <= arities < usize::MAX,
        ensures
            r.sizes == sizes,
            r.arities == arities,
            r.filled(sizes + 1),
    {
        let mut table = CountTable { sizes, arities, one: Vec::new(), many: Vec::new() };
        let mut s: usize = 0;
        while s <= sizes
            invariant
                0 <= s <= sizes + 1,
                sizes <= arities < usize::MAX,
                table.sizes == sizes,
                table.arities == arities,
                table.filled(s as int),
            decreases sizes + 1 - s,
        {
            let mut row: Vec<BigInt> = Vec::new();
            let mut a: usize = 0;
            while a + s <= arities
                invariant
                    0 <= a <= arities + 1 - s,
                    s <= sizes,
                    sizes <= arities < usize::MAX,
                    table.sizes == sizes,
                    table.arities == arities,
                    table.filled(s as int),
                    row@.len() == a,
                    forall|e: int|
                        0 <= e < a ==> integer_value(#[trigger] row@[e]) == count_spec(
                            s as nat,
                            e as nat,
                        ),
                decreases arities + 1 - s - a,
            {
                row.push(compute_one(&table, s, a));
                a += 1;
            }
            let mut lists_row: Vec<Vec<BigInt>> = Vec::new();
            let mut a: usize = 0;
            while a + s <= arities
                invariant
                    0 <= a <= arities + 1 - s,
                    s <= sizes,
                    sizes <= arities < usize::MAX,
                    table.sizes == sizes,
                    table.arities == arities,
                    table.filled(s as int),
                    is_one_row(row@, s as int, arities as int),
                    lists_row@.len() == a,
                    forall|e: int| 0 <= e < a ==> (#[trigger] lists_row@[e])@.len() == sizes + 1,
                    forall|e: int, k: int|
                        0 <= e < a && 0 <= k <= sizes ==> integer_value(
                            #[trigger] lists_row@[e]@[k],
                        ) == count_many_spec(s as nat, e as nat, k as nat),
                decreases arities + 1 - s - a,
            {
                let mut by_number: Vec<BigInt> = Vec::new();
                let mut k: usize = 0;
                while k <= sizes
                    invariant
                        0 <= k <= sizes + 1,
                        s <= sizes,
                        a + s <= arities,
                        sizes <= arities < usize::MAX,
                        table.sizes == sizes,
                        table.arities == arities,
                        table.filled(s as int),
                        is_one_row(row@, s as int, arities as int),
                        by_number@.len() == k,
                        forall|e: int|
                            0 <= e < k ==> integer_value(#[trigger] by_number@[e])
                                == count_many_spec(s as nat, a as nat, e as nat),
                    decreases sizes + 1 - k,
                {
                    by_number.push(compute_many(&table, &row, s, a, k));
                    k += 1;
                }
                lists_row.push(by_number);
                a += 1;
            }
            let ghost before = table;
            table.one.push(row);
            table.many.push(lists_row);
            proof {
                assert forall|e: int| 0 <= e < s + 1 implies (#[trigger] table.one@[e])@.len()
                    == arities + 1 - e by {
                    if e < s {
                        assert(table.one@[e] == before.one@[e]);
                    }
                }
                assert forall|e: int, a: int|
                    0 <= e < s + 1 && 0 <= a && a + e <= arities implies integer_value(
                    #[trigger] table.one@[e]@[a],
                ) == count_spec(e as nat, a as nat) by {
                    if e < s {
                        assert(table.one@[e] == before.one@[e]);
                    }
                }
                assert forall|e: int| 0 <= e < s + 1 implies (#[trigger] table.many@[e])@.len()
                    == arities + 1 - e by {
                    if e < s {
                        assert(table.many@[e] == before.many@[e]);
                    }
                }
                assert forall|e: int, a: int|
                    0 <= e < s + 1 && 0 <= a && a + e <= arities implies (
                #[trigger] table.many@[e]@[a])@.len() == sizes + 1 by {
                    if e < s {
                        assert(table.many@[e] == before.many@[e]);
                    }
                }
                assert forall|e: int, a: int, k: int|
                    0 <= e < s + 1 && 0 <= a && a + e <= arities && 0 <= k
                        <= sizes implies integer_value(#[trigger] table.many@[e]@[a]@[k])
                    == count_many_spec(e as nat, a as nat, k as nat) by {
                    if e < s {
                        assert(table.many@[e] == before.many@[e]);
                    }
                }
            }
            s += 1;
        }
        table
    }
}

/// The number of general recursive functions of `size` and `arity`.
pub fn count(size: usize, arity: usize) -> (r: BigInt)
    requires
        arity + size < usize::MAX,
    ensures
        integer_value(r) == count_spec(size as nat, arity as nat),
{
    let table = CountTable::new(size, arity + size);
    big_clone(&table.one[size][arity])
}

/// The number of lists of `num_funcs` general recursive functions of
/// `arity` that have the size `size` together.
pub fn count_many(size: usize, arity: usize, num_funcs: usize) -> (r: BigInt)
    requires
        arity + size < usize::MAX,
    ensures
        integer_value(r) == count_many_spec(size as nat, arity as nat, num_funcs as nat),
{
    if num_funcs > size {
        return big_from_i64(0);
    }
    let table = CountTable::new(size, arity + size);
    big_clone(&table.many[size][arity][num_funcs])
}

} // verus!

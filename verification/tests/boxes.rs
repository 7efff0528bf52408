use std::str::FromStr;

use fractran::closed_vec_set::{closure, ClosureResult};
use fractran::program::{Instr, Program, State};
use fractran::vec_set::{NatSet, SplitAddResult, SplitApplyResult, UnionVecSet, VecSet};
use rug::Integer;
use fractran::closed_vec_set::{closure_is_safe, try_closure};

fn rows(rs: &[&[i32]]) -> Program {
    Program { instrs: rs.iter().map(|r| Instr::new(r.to_vec())).collect() }
}

fn rule(xs: &[i32]) -> Instr {
    Instr::new(xs.to_vec())
}

fn vec_set(vals: &[&str]) -> VecSet {
    VecSet(vals.iter().map(|v| NatSet::from_str(v).expect("Invalid NatSet format")).collect())
}

fn collatz_like() -> Program {
    // A complex Collatz-like non-halting program.
    // [2/45, 25/6, 343/2, 9/7, 2/3]
    rows(&[&[1, -2, -1, 0], &[-1, -1, 2, 0], &[-1, 0, 0, 3], &[0, 2, 0, -1], &[1, -1, 0, 0]])
}

fn holds(b: &VecSet, s: &[i64]) -> bool {
    b.0.len() == s.len()
        && b.0.iter().zip(s.iter()).all(|(set, x)| match set {
            NatSet::Fixed(n) => *x == *n as i64,
            NatSet::Min(n) => *x >= *n as i64,
        })
}

#[test]
fn vec_set_test_is_subset() {
    let f1 = NatSet::Fixed(1);
    let f13 = NatSet::Fixed(13);
    let m8 = NatSet::Min(8);
    let m276 = NatSet::Min(276);
    assert!(f1.is_subset(f1));
    assert!(!f1.is_subset(f13));
    assert!(!f1.is_subset(m8));
    assert!(!f1.is_subset(m276));

    assert!(!f13.is_subset(f1));
    assert!(f13.is_subset(f13));
    assert!(f13.is_subset(m8));
    assert!(!f13.is_subset(m276));

    assert!(!m8.is_subset(f1));
    assert!(!m8.is_subset(f13));
    assert!(m8.is_subset(m8));
    assert!(!m8.is_subset(m276));

    assert!(!m276.is_subset(f1));
    assert!(!m276.is_subset(f13));
    assert!(m276.is_subset(m8));
    assert!(m276.is_subset(m276));

    let v1 = VecSet(vec![f13, m276]);
    let v2 = VecSet(vec![m8, m8]);
    assert!(v1.is_subset(&v2));
    assert!(!v2.is_subset(&v1));
}

#[test]
fn test_split_add() {
    let f13 = NatSet::Fixed(13);
    assert_eq!(
        f13.split_add(8),
        SplitAddResult { success: Some(NatSet::Fixed(21)), failure: vec![] }
    );
    assert_eq!(
        f13.split_add(-8),
        SplitAddResult { success: Some(NatSet::Fixed(5)), failure: vec![] }
    );
    assert_eq!(
        f13.split_add(-13),
        SplitAddResult { success: Some(NatSet::Fixed(0)), failure: vec![] }
    );
    assert_eq!(f13.split_add(-14), SplitAddResult { success: None, failure: vec![f13] });

    let m8 = NatSet::Min(8);
    assert_eq!(
        m8.split_add(100),
        SplitAddResult { success: Some(NatSet::Min(108)), failure: vec![] }
    );
    assert_eq!(
        m8.split_add(-8),
        SplitAddResult { success: Some(NatSet::Min(0)), failure: vec![] }
    );
    assert_eq!(
        m8.split_add(-13),
        SplitAddResult {
            // [13, inf) - 13 -> [0, inf)
            success: Some(NatSet::Min(0)),
            // [8, 13) cannot subtract 13
            failure: vec![
                NatSet::Fixed(8),
                NatSet::Fixed(9),
                NatSet::Fixed(10),
                NatSet::Fixed(11),
                NatSet::Fixed(12),
            ],
        }
    );
}

#[test]
fn test_split_apply() {
    let v = vec_set(&["13", "8+", "31+"]);
    assert_eq!(
        v.clone().split_apply(&rule(&[100, 200, 300])),
        SplitApplyResult { success: Some(vec_set(&["113", "208+", "331+"])), failure: vec![] }
    );
    assert_eq!(
        v.clone().split_apply(&rule(&[-1, -1, -1])),
        SplitApplyResult { success: Some(vec_set(&["12", "7+", "30+"])), failure: vec![] }
    );
    assert_eq!(
        v.clone().split_apply(&rule(&[-20, 0, 0])),
        SplitApplyResult { success: None, failure: vec![v.clone()] }
    );
    assert_eq!(
        v.clone().split_apply(&rule(&[0, -10, 0])),
        SplitApplyResult {
            success: Some(vec_set(&["13", "0+", "31+"])),
            failure: vec![vec_set(&["13", "8", "31+"]), vec_set(&["13", "9", "31+"])],
        }
    );
    assert_eq!(
        v.clone().split_apply(&rule(&[1, -10, -34])),
        SplitApplyResult {
            success: Some(vec_set(&["14", "0+", "0+"])),
            failure: vec![
                vec_set(&["13", "8", "31+"]),
                vec_set(&["13", "9", "31+"]),
                vec_set(&["13", "8+", "31"]),
                vec_set(&["13", "8+", "32"]),
                vec_set(&["13", "8+", "33"]),
            ],
        }
    );
}

#[test]
fn test_successors() {
    let p = collatz_like();
    let instrs = &p.instrs;

    // [0 46+ 0 0] -> [1 45+ 0 0] -> [0 44+ 2 0]
    let a = vec_set(&["0", "46+", "0", "0"]);
    let b = vec_set(&["1", "45+", "0", "0"]);
    let c = vec_set(&["0", "44+", "2", "0"]);
    assert_eq!(a.successors(&instrs), Some(vec![b.clone()]));
    assert_eq!(b.successors(&instrs), Some(vec![c]));

    // [10+ 0+ 0 0]:
    //      [10+ 0 0 0] -> [9+ 0 0 3]
    //      [10+ 1+ 0 0] -> [9+ 0+ 2 0]
    let a = vec_set(&["10+", "0+", "0", "0"]);
    let b = vec_set(&["9+", "0", "0", "3"]);
    let c = vec_set(&["9+", "0+", "2", "0"]);
    assert_eq!(a.successors(&instrs), Some(vec![b, c]));

    // [9+ 0+ 2 0]:
    //      [9+ 0 2 0] -> [8+ 0 2 3]
    //      [9+ 1 2 0] -> [8+ 0 4 0]
    //      [9+ 2+ 2 0] -> [10+ 0+ 1 0]
    let a = vec_set(&["9+", "0+", "2", "0"]);
    let b = vec_set(&["8+", "0", "2", "3"]);
    let c = vec_set(&["8+", "0", "4", "0"]);
    let d = vec_set(&["10+", "0+", "1", "0"]);
    assert_eq!(a.successors(&instrs), Some(vec![b, c, d]));
}

#[test]
fn test_complex() {
    let p = collatz_like();

    let seed = UnionVecSet::new(vec![
        vec_set(&["10+", "0+", "0", "0"]),
        vec_set(&["0+", "0", "0+", "24+"]),
        vec_set(&["0", "46+", "0", "0+"]),
    ]);
    let result = closure(&p, &seed, 100);
    assert!(matches!(result, ClosureResult::Closed(_)));
}

fn collatz_seed() -> UnionVecSet {
    UnionVecSet::new(vec![
        vec_set(&["10+", "0+", "0", "0"]),
        vec_set(&["0+", "0", "0+", "24+"]),
        vec_set(&["0", "46+", "0", "0+"]),
    ])
}

#[test]
fn collatz_like_seed_closes_within_budget() {
    let p = collatz_like();
    match closure(&p, &collatz_seed(), 100) {
        ClosureResult::Closed(u) => {
            // The union holds the box {0} x [46, inf) x {0} x {0}.
            let start = vec_set(&["0", "46+", "0", "0"]);
            assert!(u.covers(&start));
            assert_eq!(u.len(), 92);
        }
        other => panic!("not closed: {:?}", other),
    }
}

#[test]
fn box_with_fixed_counters_alone_does_not_close() {
    // Started from {0} x [46, inf) x {0} x {0} alone, register 3 takes ever
    // new single values, which no box of the search covers.
    let p = collatz_like();
    let seed = UnionVecSet::new(vec![vec_set(&["0", "46+", "0", "0"])]);
    assert!(matches!(closure(&p, &seed, 30), ClosureResult::GaveUp(_)));
}

#[test]
fn closed_union_holds_every_run_from_the_seed() {
    let p = collatz_like();
    let seed = collatz_seed();
    let result = closure(&p, &seed, 100);
    let closed = match result {
        ClosureResult::Closed(u) => u,
        other => panic!("not closed: {:?}", other),
    };
    assert!(!closed.is_empty());
    assert!(closed.len() >= 1);
    // The closed union holds the seed, and the literal machine stays inside
    // it and does not halt.
    for start in [46i64, 47, 60, 101] {
        let mut state = State::new(vec![0, start, 0, 0].into_iter().map(Integer::from).collect());
        for _ in 0..2000 {
            let now: Vec<i64> = state.data.iter().map(|x| x.to_i64().unwrap()).collect();
            assert!(closed.0.iter().any(|b| holds(b, &now)), "left the union at {:?}", now);
            assert!(p.step(&mut state), "halted at {:?}", now);
        }
    }
}

#[test]
fn closure_is_closed_under_successors() {
    let p = collatz_like();
    let seed = collatz_seed();
    if let ClosureResult::Closed(u) = closure(&p, &seed, 100) {
        let next = u.successors(&p.instrs).expect("no halt inside a closed union");
        assert!(next.minus_covered(&u).is_empty());
    } else {
        panic!("not closed");
    }
}

#[test]
fn closure_finds_halt() {
    // One instruction that counts register 0 down: every state halts in
    // the end.
    let p = rows(&[&[-1, 1]]);
    let seed = UnionVecSet::new(vec![vec_set(&["3", "0"])]);
    assert_eq!(closure(&p, &seed, 100), ClosureResult::ContainsHalt);
}

#[test]
fn closure_gives_up_after_budget() {
    // Register 1 grows for ever: no finite union of these boxes is closed.
    let p = rows(&[&[0, 1]]);
    let seed = UnionVecSet::new(vec![vec_set(&["0", "0"])]);
    match closure(&p, &seed, 5) {
        ClosureResult::GaveUp(u) => assert_eq!(u.len(), 5),
        other => panic!("expected GaveUp, got {:?}", other),
    }
    assert_eq!(closure(&p, &seed, 0), ClosureResult::GaveUp(seed.clone()));
}

#[test]
fn closure_of_ray_closes_at_once() {
    let p = rows(&[&[0, 1]]);
    let seed = UnionVecSet::new(vec![vec_set(&["0", "0+"])]);
    assert_eq!(closure(&p, &seed, 5), ClosureResult::Closed(seed.clone()));
}

#[test]
fn successors_of_halting_box_is_none() {
    let p = rows(&[&[-1, 1]]);
    assert_eq!(vec_set(&["0", "0+"]).successors(&p.instrs), None);
    assert_eq!(vec_set(&["0+", "0"]).successors(&p.instrs), None);
    assert_eq!(vec_set(&["1+", "0"]).successors(&p.instrs), Some(vec![vec_set(&["0+", "1"])]));
    let none: Vec<Instr> = vec![];
    assert_eq!(vec_set(&["1", "1"]).successors(&none), None);
}

#[test]
fn split_add_partitions_exactly() {
    for set in [NatSet::Fixed(0), NatSet::Fixed(5), NatSet::Min(0), NatSet::Min(3)] {
        for v in -7i32..=7 {
            let res = set.split_add(v);
            for x in 0i32..20 {
                let member = match set {
                    NatSet::Fixed(n) => x == n,
                    NatSet::Min(n) => x >= n,
                };
                let in_success = match res.success {
                    Some(NatSet::Fixed(n)) => x + v == n,
                    Some(NatSet::Min(n)) => x + v >= n,
                    None => false,
                };
                let in_failure = res.failure.iter().filter(|f| **f == NatSet::Fixed(x)).count();
                if member && x + v >= 0 {
                    assert!(in_success);
                    assert_eq!(in_failure, 0);
                } else if member {
                    assert!(!in_success || x + v < 0);
                    assert_eq!(in_failure, 1);
                } else {
                    assert_eq!(in_failure, 0);
                }
            }
            assert!(res.failure.iter().all(|f| matches!(f, NatSet::Fixed(_))));
        }
    }
}

#[test]
fn split_apply_partitions_exactly() {
    let b = vec_set(&["2", "1+", "0+"]);
    let i = rule(&[-1, -3, 2]);
    let res = b.split_apply(&i);
    let success = res.success.clone().expect("some state passes");
    for y in 0i64..8 {
        for z in 0i64..8 {
            let s = [2, y, z];
            if !holds(&b, &s) {
                continue;
            }
            let guard = s.iter().zip(i.data.iter()).all(|(x, d)| x + *d as i64 >= 0);
            let after: Vec<i64> = s.iter().zip(i.data.iter()).map(|(x, d)| x + *d as i64).collect();
            let in_failure = res.failure.iter().any(|f| holds(f, &s));
            assert_eq!(guard, holds(&success, &after) && guard);
            assert_eq!(!guard, in_failure);
        }
    }
}

#[test]
fn nat_set_from_str() {
    assert_eq!(NatSet::from_str("13"), Ok(NatSet::Fixed(13)));
    assert_eq!(NatSet::from_str("8+"), Ok(NatSet::Min(8)));
    assert_eq!(NatSet::from_str("  46+ "), Ok(NatSet::Min(46)));
    assert_eq!(NatSet::from_str(" 0"), Ok(NatSet::Fixed(0)));
    assert!(NatSet::from_str("").is_err());
    assert!(NatSet::from_str("+").is_err());
    assert!(NatSet::from_str("x7").is_err());
    assert!(NatSet::from_str("7 +").is_err());
    assert!(NatSet::from_str("99999999999").is_err());
    assert_eq!(NatSet::parse("5+"), Ok(NatSet::Min(5)));
}

#[test]
fn nat_set_add_and_partition() {
    assert_eq!(NatSet::Fixed(3).add(-5), NatSet::Fixed(-2));
    assert_eq!(NatSet::Min(3).add(4), NatSet::Min(7));
    assert_eq!(NatSet::Fixed(3).partition(3), (Some(NatSet::Fixed(3)), vec![]));
    assert_eq!(NatSet::Fixed(3).partition(4), (None, vec![NatSet::Fixed(3)]));
    assert_eq!(NatSet::Min(3).partition(2), (Some(NatSet::Min(3)), vec![]));
    assert_eq!(
        NatSet::Min(3).partition(5),
        (Some(NatSet::Min(5)), vec![NatSet::Fixed(3), NatSet::Fixed(4)])
    );
}

#[test]
fn vec_set_update_replaces_one_register() {
    let v = vec_set(&["13", "8+", "31+"]);
    assert_eq!(v.update(1, NatSet::Fixed(9)), vec_set(&["13", "9", "31+"]));
    assert_eq!(v, vec_set(&["13", "8+", "31+"]));
}

#[test]
fn union_keeps_only_uncovered_boxes() {
    let a = UnionVecSet::new(vec![vec_set(&["0+", "3"])]);
    let b = UnionVecSet::new(vec![vec_set(&["5", "3"]), vec_set(&["5", "4"])]);
    assert!(a.covers(&vec_set(&["5", "3"])));
    assert!(!a.covers(&vec_set(&["5", "4"])));
    assert_eq!(b.minus_covered(&a), UnionVecSet::new(vec![vec_set(&["5", "4"])]));
    assert_eq!(
        a.union(b),
        UnionVecSet::new(vec![vec_set(&["0+", "3"]), vec_set(&["5", "4"])])
    );
}

#[test]
fn safe_search_is_allowed_and_unsafe_refused() {
    let p = collatz_like();
    let seed = collatz_seed();
    assert!(closure_is_safe(&p, &seed, 100));
    assert!(matches!(try_closure(&p, &seed, 100), Some(ClosureResult::Closed(_))));
    // Too many rounds for the numbers to stay small.
    assert!(!closure_is_safe(&p, &seed, usize::MAX));
    assert_eq!(try_closure(&p, &seed, usize::MAX), None);
    // Boxes of another number of registers.
    let short = UnionVecSet::new(vec![vec_set(&["0", "1"])]);
    assert!(!closure_is_safe(&p, &short, 10));
    // A set that holds a negative number.
    let negative = UnionVecSet::new(vec![VecSet(vec![
        NatSet::Fixed(-1),
        NatSet::Min(0),
        NatSet::Min(0),
        NatSet::Min(0),
    ])]);
    assert!(!closure_is_safe(&p, &negative, 10));
    // A program without instructions, and one with rows of two lengths.
    assert!(!closure_is_safe(&rows(&[]), &UnionVecSet::new(vec![]), 10));
    assert!(!closure_is_safe(&rows(&[&[1, 2], &[1]]), &UnionVecSet::new(vec![]), 10));
    // Entries near the limit leave no room for a round.
    let wide = rows(&[&[i32::MAX, 0]]);
    let zero = UnionVecSet::new(vec![vec_set(&["0", "0"])]);
    assert!(closure_is_safe(&wide, &zero, 0));
    assert!(!closure_is_safe(&wide, &zero, 1));
}

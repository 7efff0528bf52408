use fractran::diff_rule::DiffRule;
use fractran::program::{Instr, Program, State};
use fractran::rule::{ApplyResult, Rule};
use fractran::state_diff::{Bound, StateDiff, StateDiffBound};
use fractran::transcript::{eval_trans, transcript, Trans};
use rug::ops::Pow;
use rug::Integer;

use fractran::state_diff::Bound::{Finite, Infinity};

fn regs(xs: &[i64]) -> State {
    State::new(xs.iter().map(|x| Integer::from(*x)).collect())
}

fn rows(rs: &[&[i32]]) -> Program {
    Program { instrs: rs.iter().map(|r| Instr::new(r.to_vec())).collect() }
}

fn fails(xs: &[usize]) -> Trans {
    Trans { reg_fail: xs.to_vec() }
}

fn sd(xs: &[i64]) -> StateDiff {
    StateDiff::new(xs.to_vec())
}

fn sdb(xs: &[Bound]) -> StateDiffBound {
    StateDiffBound::new(xs.to_vec())
}

fn applied(result: &[i64], num_apps: i64, base_steps: i64) -> ApplyResult {
    ApplyResult::Applied {
        result: regs(result),
        num_apps: Integer::from(num_apps),
        base_steps: Integer::from(base_steps),
    }
}

#[test]
fn test_trans() {
    let prog = rows(&[&[1, -1, -1], &[-1, 2, 0], &[0, 1, -2]]);

    let sa = regs(&[1, 2, 3]);
    let ta = fails(&[]);
    let ra = DiffRule {
        max: sdb(&[Infinity, Infinity, Infinity]),
        min: sd(&[0, 1, 1]),
        delta: sd(&[1, -1, -1]),
        num_steps: 1,
    };
    assert_eq!(eval_trans(&prog, &sa), ta);
    assert_eq!(DiffRule::from_trans(&prog, &ta), Some(ra));

    let sb = regs(&[1, 2, 0]);
    let tb = fails(&[2]);
    let rb = DiffRule {
        max: sdb(&[Infinity, Infinity, Finite(0)]),
        min: sd(&[1, 0, 0]),
        delta: sd(&[-1, 2, 0]),
        num_steps: 1,
    };
    assert_eq!(eval_trans(&prog, &sb), tb);
    assert_eq!(DiffRule::from_trans(&prog, &tb), Some(rb));

    let sc = regs(&[1, 0, 3]);
    let tc = fails(&[1]);
    let rc = DiffRule {
        max: sdb(&[Infinity, Finite(0), Infinity]),
        min: sd(&[1, 0, 0]),
        delta: sd(&[-1, 2, 0]),
        num_steps: 1,
    };
    assert_eq!(eval_trans(&prog, &sc), tc);
    assert_eq!(DiffRule::from_trans(&prog, &tc), Some(rc));

    let sd_ = regs(&[0, 0, 3]);
    let td = fails(&[1, 0]);
    let rd = DiffRule {
        max: sdb(&[Finite(0), Finite(0), Infinity]),
        min: sd(&[0, 0, 2]),
        delta: sd(&[0, 1, -2]),
        num_steps: 1,
    };
    assert_eq!(eval_trans(&prog, &sd_), td);
    assert_eq!(DiffRule::from_trans(&prog, &td), Some(rd));

    let se = regs(&[0, 0, 1]);
    let te = fails(&[1, 0, 2]);
    assert_eq!(eval_trans(&prog, &se), te);
    assert_eq!(DiffRule::from_trans(&prog, &te), None);
}

#[test]
fn test_apply() {
    // Simple rule with only one decrementing index.
    let rule = DiffRule {
        max: sdb(&[Infinity, Infinity]),
        min: sd(&[0, 1]),
        delta: sd(&[1, -1]),
        num_steps: 1,
    };
    assert_eq!(rule.apply(&regs(&[8, 13])), applied(&[21, 0], 13, 13));

    // Multiple decrementing
    let rule = DiffRule {
        max: sdb(&[Infinity, Infinity, Infinity]),
        min: sd(&[0, 1, 2]),
        delta: sd(&[2, -1, -1]),
        num_steps: 1,
    };
    assert_eq!(rule.apply(&regs(&[8, 13, 7])), applied(&[20, 7, 1], 6, 6));

    // Larger decrease
    let rule = DiffRule {
        max: sdb(&[Infinity, Infinity, Infinity]),
        min: sd(&[0, 6, 2]),
        delta: sd(&[1, -3, -2]),
        num_steps: 1,
    };
    assert_eq!(rule.apply(&regs(&[8, 13, 5])), applied(&[10, 7, 1], 2, 2));
    assert_eq!(rule.apply(&regs(&[8, 13, 10])), applied(&[11, 4, 4], 3, 3));

    // Infinite rule
    let rule = DiffRule {
        max: sdb(&[Infinity, Infinity]),
        min: sd(&[0, 1]),
        delta: sd(&[1, 1]),
        num_steps: 1,
    };
    assert_eq!(rule.apply(&regs(&[8, 13])), ApplyResult::Infinite);

    // Rule doesn't apply at all
    let rule = DiffRule {
        max: sdb(&[Infinity, Infinity]),
        min: sd(&[0, 2]),
        delta: sd(&[1, -1]),
        num_steps: 1,
    };
    assert_eq!(rule.apply(&regs(&[8, 1])), ApplyResult::NotApplicable);

    let rule = DiffRule {
        max: sdb(&[Infinity, Finite(138)]),
        min: sd(&[0, 1]),
        delta: sd(&[0, 1]),
        num_steps: 1,
    };
    assert_eq!(rule.apply(&regs(&[8, 13])), applied(&[8, 139], 126, 126));

    let rule = DiffRule {
        max: sdb(&[Finite(17), Infinity]),
        min: sd(&[0, 1]),
        delta: sd(&[1, -1]),
        num_steps: 1,
    };
    assert_eq!(rule.apply(&regs(&[8, 13])), applied(&[18, 3], 10, 10));
}

#[test]
fn test_hydra() {
    // Hydra simulator: [507/22, 26/33, 245/2, 5/21, 1/3, 11/13, 22/5]
    // S(h, w) = [1, 0, 0, w, h-3, 0]
    let hydra = rows(&[
        &[-1, 1, 0, 0, -1, 2],
        &[1, -1, 0, 0, -1, 1],
        &[-1, 0, 1, 2, 0, 0],
        &[0, -1, 1, -1, 0, 0],
        &[0, -1, 0, 0, 0, 0],
        &[0, 0, 0, 0, 1, -1],
        &[1, 0, -1, 0, 1, 0],
    ]);

    // [1, 0, 0, w, h+2, H] -> [1, 0, 0, w, h, H+3]
    {
        let st = regs(&[1, 0, 0, 10, 10, 0]);
        let trans_vec = transcript(&hydra, st, 2);
        let rule = DiffRule::from_trans_vec(&hydra, &trans_vec).unwrap();
        assert!(rule.min <= sd(&[1, 0, 0, 0, 2, 0]));
        assert!(
            rule.max >= sdb(&[Finite(1), Finite(0), Finite(0), Infinity, Infinity, Infinity])
        );
        assert_eq!(rule.delta, sd(&[0, 0, 0, 0, -2, 3]));
    }

    // [1, 0, 0, w, 0, H] -> [0, 0, 1, w+2, 0, H]
    {
        let st = regs(&[1, 0, 0, 10, 0, 10]);
        let trans_vec = transcript(&hydra, st, 1);
        let rule = DiffRule::from_trans_vec(&hydra, &trans_vec).unwrap();
        assert!(rule.min <= sd(&[1, 0, 0, 0, 0, 0]));
        assert!(
            rule.max >= sdb(&[Finite(1), Finite(0), Finite(0), Infinity, Finite(0), Infinity])
        );
        assert_eq!(rule.delta, sd(&[-1, 0, 1, 2, 0, 0]));
    }

    // [1, 0, 0, w+1, 1, H] -> [0, 0, 1, w, 0, H+2]
    {
        let st = regs(&[1, 0, 0, 10, 1, 10]);
        let trans_vec = transcript(&hydra, st, 2);
        let rule = DiffRule::from_trans_vec(&hydra, &trans_vec).unwrap();
        assert!(rule.min <= sd(&[1, 0, 0, 1, 1, 0]));
        assert!(
            rule.max >= sdb(&[Finite(1), Finite(0), Finite(0), Infinity, Finite(1), Infinity])
        );
        assert_eq!(rule.delta, sd(&[-1, 0, 1, -1, -1, 2]));
    }

    // [0, 0, 1, w, h, H+1] -> [0, 0, 1, w, h+1, H]
    {
        let st = regs(&[0, 0, 1, 10, 0, 10]);
        let trans_vec = transcript(&hydra, st, 1);
        let rule = DiffRule::from_trans_vec(&hydra, &trans_vec).unwrap();
        assert!(rule.min <= sd(&[0, 0, 1, 0, 0, 1]));
        assert!(
            rule.max >= sdb(&[Finite(0), Finite(0), Finite(1), Infinity, Infinity, Infinity])
        );
        assert_eq!(rule.delta, sd(&[0, 0, 0, 0, 1, -1]));
    }
}

#[test]
fn first_step_scenario() {
    let prog = rows(&[&[1, -1, -1], &[-1, 2, 0], &[0, 1, -2]]);
    let mut s = regs(&[1, 2, 3]);
    let ts = transcript(&prog, s.clone(), 1);
    assert_eq!(ts[0], fails(&[]));
    assert!(prog.step(&mut s));
    assert_eq!(s, regs(&[2, 1, 2]));
    let rule = DiffRule::from_trans(&prog, &ts[0]).unwrap();
    assert_eq!(rule.delta, sd(&[1, -1, -1]));
    assert_eq!(rule.min, sd(&[0, 1, 1]));
    assert_eq!(rule.max, sdb(&[Infinity, Infinity, Infinity]));
    assert_eq!(rule.num_steps, 1);
}

#[test]
fn noop_rule_changes_nothing() {
    let noop = DiffRule::noop(3);
    assert_eq!(noop.min, sd(&[0, 0, 0]));
    assert_eq!(noop.delta, sd(&[0, 0, 0]));
    assert_eq!(noop.max, sdb(&[Infinity, Infinity, Infinity]));
    assert_eq!(noop.num_steps, 0);
    assert!(noop.is_applicable(&regs(&[0, 5, 9])));
    // A rule that changes nothing applies for ever.
    assert_eq!(noop.apply(&regs(&[0, 5, 9])), ApplyResult::Infinite);
}

#[test]
fn combine_sums_and_tightens() {
    let a = DiffRule {
        min: sd(&[0, 1, 2]),
        max: sdb(&[Infinity, Finite(9), Infinity]),
        delta: sd(&[1, -1, 0]),
        num_steps: 2,
    };
    let b = DiffRule {
        min: sd(&[3, 0, 0]),
        max: sdb(&[Finite(5), Finite(4), Infinity]),
        delta: sd(&[-1, 2, 5]),
        num_steps: 3,
    };
    let c = a.combine(&b).unwrap();
    assert_eq!(c.min, sd(&[2, 1, 2]));
    assert_eq!(c.max, sdb(&[Finite(4), Finite(5), Infinity]));
    assert_eq!(c.delta, sd(&[0, 1, 5]));
    assert_eq!(c.num_steps, 5);
}

#[test]
fn combine_fails_when_no_state_fits() {
    let a = DiffRule {
        min: sd(&[0]),
        max: sdb(&[Finite(3)]),
        delta: sd(&[1]),
        num_steps: 1,
    };
    let b = DiffRule {
        min: sd(&[6]),
        max: sdb(&[Infinity]),
        delta: sd(&[0]),
        num_steps: 1,
    };
    // After `a` the register holds at most 4, and `b` needs 6.
    assert_eq!(a.combine(&b), None);
    assert!(b.combine(&a).is_none());
}

#[test]
fn combine_is_associative_on_examples() {
    let rules = [
        DiffRule { min: sd(&[0, 1]), max: sdb(&[Infinity, Finite(7)]), delta: sd(&[2, -1]), num_steps: 1 },
        DiffRule { min: sd(&[3, 0]), max: sdb(&[Finite(9), Infinity]), delta: sd(&[-3, 1]), num_steps: 2 },
        DiffRule { min: sd(&[0, 6]), max: sdb(&[Finite(2), Finite(6)]), delta: sd(&[0, 0]), num_steps: 1 },
        DiffRule { min: sd(&[1, 1]), max: sdb(&[Infinity, Infinity]), delta: sd(&[-1, -1]), num_steps: 4 },
    ];
    for a in rules.iter() {
        for b in rules.iter() {
            for c in rules.iter() {
                let left = a.combine(b).and_then(|ab| ab.combine(c));
                let right = b.combine(c).and_then(|bc| a.combine(&bc));
                assert_eq!(left, right);
            }
        }
    }
}

#[test]
fn apply_is_tight() {
    let rule = DiffRule {
        max: sdb(&[Finite(40), Infinity, Infinity]),
        min: sd(&[0, 6, 2]),
        delta: sd(&[1, -3, -2]),
        num_steps: 7,
    };
    for x in 0i64..6 {
        for y in 6i64..30 {
            for z in 2i64..20 {
                let s = [x, y, z];
                let out = rule.apply(&regs(&s));
                let (n, result, base) = match out {
                    ApplyResult::Applied { num_apps, result, base_steps } => {
                        (num_apps.to_i64().unwrap(), result, base_steps)
                    }
                    other => panic!("expected a finite number, got {:?}", other),
                };
                assert!(n >= 1);
                assert_eq!(base, 7 * n);
                assert_eq!(result, regs(&[x + n, y - 3 * n, z - 2 * n]));
                for k in 0..n {
                    assert!(rule.is_applicable(&regs(&[x + k, y - 3 * k, z - 2 * k])));
                }
                assert!(!rule.is_applicable(&result));
            }
        }
    }
}

#[test]
fn apply_on_huge_state() {
    let rule = DiffRule {
        max: sdb(&[Infinity, Infinity]),
        min: sd(&[0, 3]),
        delta: sd(&[2, -3]),
        num_steps: 5,
    };
    let huge: Integer = Integer::from(10).pow(40);
    let state = State::new(vec![Integer::from(1), huge.clone()]);
    // (10^40 - 3) / 3 + 1 applications
    let n: Integer = (huge.clone() - Integer::from(3)) / Integer::from(3) + Integer::from(1);
    match rule.apply(&state) {
        ApplyResult::Applied { num_apps, result, base_steps } => {
            assert_eq!(num_apps, n);
            assert_eq!(base_steps, n.clone() * Integer::from(5));
            assert_eq!(result.data[0], Integer::from(1) + n.clone() * Integer::from(2));
            assert_eq!(result.data[1], huge - n * Integer::from(3));
            assert!(result.data[1] < 3);
        }
        other => panic!("expected a finite number, got {:?}", other),
    }
}

#[test]
fn is_applicable_checks_both_limits() {
    let rule = DiffRule {
        max: sdb(&[Finite(5), Infinity]),
        min: sd(&[2, 0]),
        delta: sd(&[0, 1]),
        num_steps: 1,
    };
    assert!(rule.is_applicable(&regs(&[2, 0])));
    assert!(rule.is_applicable(&regs(&[5, 100])));
    assert!(!rule.is_applicable(&regs(&[1, 0])));
    assert!(!rule.is_applicable(&regs(&[6, 0])));
}

#[test]
fn from_trans_vec_fails_on_halting_or_impossible_sequences() {
    let prog = rows(&[&[1, -1, -1], &[-1, 2, 0], &[0, 1, -2]]);
    assert_eq!(DiffRule::from_trans_vec(&prog, &[fails(&[1, 0, 2])]), None);
    assert_eq!(DiffRule::from_trans_vec(&prog, &[fails(&[]), fails(&[1, 0, 2])]), None);
    // Instruction 2 fired with register 0 at 0, then instruction 1 needs
    // register 0 to hold one: no state takes both.
    assert_eq!(DiffRule::from_trans_vec(&prog, &[fails(&[1, 0]), fails(&[1])]), None);
    assert_eq!(DiffRule::from_trans_vec(&prog, &[]), Some(DiffRule::noop(3)));
}

#[test]
fn rule_of_block_matches_literal_run() {
    let prog = rows(&[&[-1, 5, 0], &[0, -1, 3], &[0, 0, -1]]);
    let start = regs(&[1, 0, 0]);
    let ts = transcript(&prog, start.clone(), 4);
    let rule = DiffRule::from_trans_vec(&prog, &ts).unwrap();
    assert!(rule.is_applicable(&start));
    assert_eq!(rule.num_steps, 4);
    let mut s = start.clone();
    assert_eq!(prog.run(&mut s, 4).total_steps, 4);
    let moved: Vec<Integer> =
        start.data.iter().zip(rule.delta.data.iter()).map(|(x, d)| x.clone() + *d).collect();
    assert_eq!(s, State::new(moved));
}

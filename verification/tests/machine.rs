use fractran::program::{Instr, Program, State};
use fractran::transcript::{eval_trans, step, transcript, Trans};
use rug::Integer;

fn regs(xs: &[i64]) -> State {
    State::new(xs.iter().map(|x| Integer::from(*x)).collect())
}

fn rows(rs: &[&[i32]]) -> Program {
    Program { instrs: rs.iter().map(|r| Instr::new(r.to_vec())).collect() }
}

fn fails(xs: &[usize]) -> Trans {
    Trans { reg_fail: xs.to_vec() }
}

#[test]
fn test_small() {
    // Size 8 champion
    let prog = rows(&[&[-1, 4], &[0, -1]]);
    let start_state = regs(&[1, 0]);
    let trans_vec = transcript(&prog, start_state, 10);
    // Halts in 5 steps
    assert_eq!(trans_vec.len(), 5);
    // List of rules used
    let rules: Vec<usize> = trans_vec.iter().map(|x| x.reg_fail.len()).collect();
    assert_eq!(rules, vec![0, 1, 1, 1, 1]);
    // Exact vector of Trans
    assert_eq!(
        trans_vec,
        vec![fails(&[]), fails(&[0]), fails(&[0]), fails(&[0]), fails(&[0])]
    );
}

#[test]
fn test_medium() {
    // Size 14 champion
    let prog = rows(&[&[-1, 5, 0], &[0, -1, 3], &[0, 0, -1]]);
    let start_state = regs(&[1, 0, 0]);
    let trans_vec = transcript(&prog, start_state, 100);
    assert_eq!(trans_vec.len(), 21);
    // List of rules used
    let rules: Vec<usize> = trans_vec.iter().map(|x| x.reg_fail.len()).collect();
    let expected_rules = [&vec![0][..], &vec![1; 5][..], &vec![2; 15][..]].concat();
    assert_eq!(rules, expected_rules);
}

#[test]
fn start_state_has_one_in_first_register() {
    let prog = rows(&[&[-1, 5, 0], &[0, -1, 3]]);
    assert_eq!(State::start(&prog), regs(&[1, 0, 0]));
    assert_eq!(prog.num_instrs(), 2);
    assert_eq!(prog.num_registers(), 3);
    assert_eq!(prog.instrs[0].num_registers(), 3);
}

#[test]
fn can_apply_reports_first_blocked_register() {
    let instr = Instr::new(vec![1, -2, -3]);
    assert_eq!(instr.can_apply(&regs(&[0, 2, 3])), Ok(()));
    assert_eq!(instr.can_apply(&regs(&[0, 1, 3])), Err(1));
    assert_eq!(instr.can_apply(&regs(&[0, 1, 2])), Err(1));
    assert_eq!(instr.can_apply(&regs(&[0, 2, 2])), Err(2));
}

#[test]
fn apply_adds_each_delta() {
    let instr = Instr::new(vec![1, -2, -3]);
    let mut s = regs(&[0, 2, 3]);
    instr.apply(&mut s);
    assert_eq!(s, regs(&[1, 0, 0]));
}

#[test]
fn apply_goes_beyond_machine_words() {
    let instr = Instr::new(vec![i32::MAX, -1]);
    let big = Integer::from(i64::MAX);
    let mut s = State::new(vec![big.clone(), Integer::from(1)]);
    instr.apply(&mut s);
    assert_eq!(s.data[0], big + Integer::from(i32::MAX));
    assert_eq!(s.data[1], 0);
}

#[test]
fn step_fires_first_applicable_instruction() {
    let prog = rows(&[&[1, -1, -1], &[-1, 2, 0], &[0, 1, -2]]);
    let mut s = regs(&[1, 2, 3]);
    assert!(prog.step(&mut s));
    assert_eq!(s, regs(&[2, 1, 2]));
    let mut t = regs(&[1, 0, 3]);
    assert!(prog.step(&mut t));
    assert_eq!(t, regs(&[0, 2, 3]));
}

#[test]
fn step_on_halting_state_leaves_it() {
    let prog = rows(&[&[1, -1, -1], &[-1, 2, 0], &[0, 1, -2]]);
    let mut s = regs(&[0, 0, 1]);
    assert!(!prog.step(&mut s));
    assert_eq!(s, regs(&[0, 0, 1]));
}

#[test]
fn run_counts_steps_until_halt() {
    let prog = rows(&[&[-1, 4], &[0, -1]]);
    let mut s = regs(&[1, 0]);
    let r = prog.run(&mut s, 10);
    assert!(r.halted);
    assert_eq!(r.total_steps, 5);
    assert_eq!(s, regs(&[0, 0]));
}

#[test]
fn run_stops_at_budget() {
    let prog = rows(&[&[-1, 4], &[0, -1]]);
    let mut s = regs(&[1, 0]);
    let r = prog.run(&mut s, 3);
    assert!(!r.halted);
    assert_eq!(r.total_steps, 3);
    assert_eq!(s, regs(&[0, 2]));
    let mut t = regs(&[1, 0]);
    let r0 = prog.run(&mut t, 0);
    assert!(!r0.halted);
    assert_eq!(r0.total_steps, 0);
    assert_eq!(t, regs(&[1, 0]));
}

#[test]
fn state_clone_is_equal() {
    let s = regs(&[5, 0, 7]);
    let t = s.clone();
    assert_eq!(s, t);
    assert_eq!(t.data[2], 7);
}

#[test]
fn eval_trans_leaves_state_and_records_failures() {
    let prog = rows(&[&[1, -1, -1], &[-1, 2, 0], &[0, 1, -2]]);
    let s = regs(&[0, 0, 3]);
    assert_eq!(eval_trans(&prog, &s), fails(&[1, 0]));
    assert_eq!(s, regs(&[0, 0, 3]));
    // A halting state has one failure per instruction.
    assert_eq!(eval_trans(&prog, &regs(&[0, 0, 1])), fails(&[1, 0, 2]));
}

#[test]
fn step_and_record_returns_none_on_halt() {
    let prog = rows(&[&[1, -1, -1], &[-1, 2, 0], &[0, 1, -2]]);
    let mut s = regs(&[0, 0, 3]);
    assert_eq!(step(&prog, &mut s), Some(fails(&[1, 0])));
    assert_eq!(s, regs(&[0, 1, 1]));
    let mut h = regs(&[0, 0, 1]);
    assert_eq!(step(&prog, &mut h), None);
    assert_eq!(h, regs(&[0, 0, 1]));
}

#[test]
fn transcript_matches_literal_run() {
    let prog = rows(&[&[-1, 5, 0], &[0, -1, 3], &[0, 0, -1]]);
    let ts = transcript(&prog, regs(&[1, 0, 0]), 7);
    assert_eq!(ts.len(), 7);
    let mut s = regs(&[1, 0, 0]);
    for t in ts.iter() {
        assert_eq!(&eval_trans(&prog, &s), t);
        assert!(prog.step(&mut s));
    }
}

#[test]
fn trans_equality_and_clone() {
    let a = fails(&[1, 0]);
    let b = a.clone();
    assert_eq!(a, b);
    assert_ne!(a, fails(&[1]));
    assert_ne!(a, fails(&[1, 1]));
}

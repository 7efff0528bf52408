use fractran::diff_rule::DiffRule;
use fractran::program::{Instr, Program, State};
use fractran::rule::Rule;
use fractran::shift_sim::{find_shift_rules, shift_sim, ShiftSim, ShiftSimResult, SimStatus};
use fractran::state_diff::Bound::{Finite, Infinity};
use fractran::state_diff::{StateDiff, StateDiffBound};
use rug::Integer;

fn regs(xs: &[i64]) -> State {
    State::new(xs.iter().map(|x| Integer::from(*x)).collect())
}

fn rows(rs: &[&[i32]]) -> Program {
    Program { instrs: rs.iter().map(|r| Instr::new(r.to_vec())).collect() }
}

fn champion() -> Program {
    // Size 14 champion: halts after 21 steps.
    rows(&[&[-1, 5, 0], &[0, -1, 3], &[0, 0, -1]])
}

#[test]
fn shift_rules_of_champion() {
    let prog = champion();
    let rules = find_shift_rules(&prog, State::start(&prog), 100);
    assert_eq!(
        rules,
        vec![
            DiffRule {
                min: StateDiff::new(vec![0, 1, 0]),
                max: StateDiffBound::new(vec![Finite(0), Infinity, Infinity]),
                delta: StateDiff::new(vec![0, -1, 3]),
                num_steps: 1,
            },
            DiffRule {
                min: StateDiff::new(vec![0, 0, 1]),
                max: StateDiffBound::new(vec![Finite(0), Finite(0), Infinity]),
                delta: StateDiff::new(vec![0, 0, -1]),
                num_steps: 1,
            },
        ]
    );
}

#[test]
fn accelerated_run_halts_with_literal_step_count() {
    let prog = champion();
    let start = State::start(&prog);
    let rules = find_shift_rules(&prog, start.clone(), 100);
    let mut sim = ShiftSim::new(champion(), rules);
    let end = sim.run(start.clone(), 1000);
    assert_eq!(sim.status, SimStatus::Halted);
    assert_eq!(sim.sim_steps, 4);
    assert_eq!(sim.num_shift_steps, 2);
    assert_eq!(sim.base_steps, 21);
    assert_eq!(end, regs(&[0, 0, 0]));
    // The literal machine agrees.
    let mut literal = start;
    let r = prog.run(&mut literal, 1000);
    assert!(r.halted);
    assert_eq!(r.total_steps, 21);
    assert_eq!(literal, end);
}

#[test]
fn simulator_steps_one_at_a_time() {
    let prog = champion();
    let start = State::start(&prog);
    let rules = find_shift_rules(&prog, start.clone(), 100);
    let mut sim = ShiftSim::new(champion(), rules);
    let s1 = sim.step(start);
    assert_eq!(s1, regs(&[0, 5, 0]));
    assert_eq!((sim.sim_steps, sim.num_shift_steps), (1, 0));
    assert_eq!(sim.base_steps, 1);
    let s2 = sim.step(s1);
    assert_eq!(s2, regs(&[0, 0, 15]));
    assert_eq!((sim.sim_steps, sim.num_shift_steps), (2, 1));
    assert_eq!(sim.base_steps, 6);
    let s3 = sim.step(s2);
    assert_eq!(s3, regs(&[0, 0, 0]));
    assert_eq!(sim.base_steps, 21);
    assert_eq!(sim.status, SimStatus::Running);
    let s4 = sim.step(s3);
    assert_eq!(s4, regs(&[0, 0, 0]));
    assert_eq!(sim.status, SimStatus::Halted);
    assert_eq!((sim.sim_steps, sim.num_shift_steps), (4, 2));
    // A final simulator stays as it is.
    let s5 = sim.step(s4);
    assert_eq!(s5, regs(&[0, 0, 0]));
    assert_eq!((sim.sim_steps, sim.num_shift_steps), (4, 2));
    assert_eq!(sim.base_steps, 21);
}

#[test]
fn run_stops_at_sim_step_budget() {
    let prog = champion();
    let start = State::start(&prog);
    let rules = find_shift_rules(&prog, start.clone(), 100);
    let mut sim = ShiftSim::new(champion(), rules);
    let mid = sim.run(start, 2);
    assert_eq!(sim.status, SimStatus::Running);
    assert_eq!(sim.sim_steps, 2);
    assert_eq!(mid, regs(&[0, 0, 15]));
}

#[test]
fn shift_sim_reports_counts() {
    let prog = champion();
    let start = State::start(&prog);
    assert_eq!(
        shift_sim(prog, start, 100, 1000),
        ShiftSimResult {
            sim_status: SimStatus::Halted,
            base_steps: Integer::from(21),
            sim_steps: 4,
            num_shift_rules: 2,
            num_shift_steps: 2,
        }
    );
}

#[test]
fn shift_sim_without_rules_is_literal() {
    // With no transcript no rule is found.
    let prog = champion();
    let start = State::start(&prog);
    assert_eq!(
        shift_sim(prog, start, 0, 10),
        ShiftSimResult {
            sim_status: SimStatus::Running,
            base_steps: Integer::from(10),
            sim_steps: 10,
            num_shift_rules: 0,
            num_shift_steps: 0,
        }
    );
}

#[test]
fn shift_sim_proves_infinite_run() {
    // Register 1 grows for ever.
    let prog = rows(&[&[-1, -1], &[0, 1]]);
    let start = regs(&[0, 0]);
    let r = shift_sim(prog, start, 10, 10);
    assert_eq!(r.sim_status, SimStatus::Infinite);
    assert_eq!(r.num_shift_rules, 1);
    assert_eq!(r.sim_steps, 1);
    assert_eq!(r.num_shift_steps, 1);
}

#[test]
fn accelerated_run_skips_huge_numbers_of_steps() {
    // Moves register 0 to register 1 two at a time, then back one at a
    // time: a bouncer whose literal run is long.
    let prog = rows(&[&[-1, 2, 0], &[0, 0, -1]]);
    let start = regs(&[1_000_000, 0, 7]);
    let rules = find_shift_rules(&prog, start.clone(), 50);
    assert_eq!(rules.len(), 1);
    assert!(rules[0].is_applicable(&start));
    let mut sim = ShiftSim::new(rows(&[&[-1, 2, 0], &[0, 0, -1]]), rules);
    let end = sim.run(start, 100);
    assert_eq!(sim.status, SimStatus::Halted);
    assert_eq!(end, regs(&[0, 2_000_000, 0]));
    assert_eq!(sim.base_steps, 1_000_007);
    assert!(sim.sim_steps < 20);
}

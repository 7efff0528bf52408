use fractran::constraints::{ConstraintResult, MagnitudeCon};
use fractran::int_range::{IntRange, VecSet};
use fractran::pvas::PVAS;
use fractran::parse::{split_filename_record, try_split_filename_record};
use fractran::decider::{analyze_output, DeciderResult};

#[test]
fn int_range_test_is_subset() {
    let f1 = IntRange::Fixed(1);
    let f13 = IntRange::Fixed(13);
    let m8 = IntRange::Min(8);
    let m276 = IntRange::Min(276);
    assert!(f1.is_subset(f1));
    assert!(!f1.is_subset(f13));
    assert!(!f1.is_subset(m8));
    assert!(!f1.is_subset(m276));

    assert!(!f13.is_subset(f1));
    assert!(f13.is_subset(f13));
    assert!(f13.is_subset(m8));
    assert!(!f13.is_subset(m276));

    assert!(!m8.is_subset(f1));
    assert!(!m8.is_subset(f13));
    assert!(m8.is_subset(m8));
    assert!(!m8.is_subset(m276));

    assert!(!m276.is_subset(f1));
    assert!(!m276.is_subset(f13));
    assert!(m276.is_subset(m8));
    assert!(m276.is_subset(m276));

    let v1 = VecSet(vec![f13, m276]);
    let v2 = VecSet(vec![m8, m8]);
    assert!(v1.is_subset(&v2));
    assert!(!v2.is_subset(&v1));
}

#[test]
fn test_checked_add() {
    let f13 = IntRange::Fixed(13);
    assert_eq!(f13.checked_add(8), Some(IntRange::Fixed(21)));
    assert_eq!(f13.checked_add(-8), Some(IntRange::Fixed(5)));
    assert_eq!(f13.checked_add(-13), Some(IntRange::Fixed(0)));
    assert_eq!(f13.checked_add(-14), None);

    let m8 = IntRange::Min(8);
    assert_eq!(m8.checked_add(100), Some(IntRange::Min(108)));
    assert_eq!(m8.checked_add(-2), Some(IntRange::Min(6)));
    assert_eq!(m8.checked_add(-8), Some(IntRange::Min(0)));
    assert_eq!(m8.checked_add(-13), None);

    let v = VecSet(vec![f13, m8]);
    assert_eq!(
        v.checked_add(vec![100, 200]),
        Some(VecSet(vec![IntRange::Fixed(113), IntRange::Min(208)]))
    );
    assert_eq!(
        v.checked_add(vec![-1, -1]),
        Some(VecSet(vec![IntRange::Fixed(12), IntRange::Min(7)]))
    );
    assert_eq!(v.checked_add(vec![-1, -10]), None);
    assert_eq!(v.checked_add(vec![-20, 0]), None);
}

#[test]
fn int_range_validity() {
    assert!(IntRange::Fixed(0).is_valid());
    assert!(!IntRange::Fixed(-1).is_valid());
    assert!(IntRange::Min(0).is_valid());
    assert!(!IntRange::Min(-3).is_valid());
    assert_eq!(IntRange::Min(2).validate(), Some(IntRange::Min(2)));
    assert_eq!(IntRange::Min(-2).validate(), None);
    assert_eq!(IntRange::Fixed(2).add(-5), IntRange::Fixed(-3));
}

#[test]
fn checked_add_goes_as_far_as_both_go() {
    let v = VecSet(vec![IntRange::Fixed(1), IntRange::Min(2), IntRange::Min(3)]);
    assert_eq!(
        v.checked_add(vec![1, 1]),
        Some(VecSet(vec![IntRange::Fixed(2), IntRange::Min(3)]))
    );
    assert_eq!(v.checked_add(vec![]), Some(VecSet(vec![])));
}

#[test]
fn magnitude_constraints() {
    assert!(matches!(MagnitudeCon::Unconstrained.eval(-5), ConstraintResult::Success));
    assert!(matches!(MagnitudeCon::Equals(4).eval(4), ConstraintResult::Success));
    assert!(matches!(MagnitudeCon::Min(4).eval(4), ConstraintResult::Success));
    assert!(matches!(MagnitudeCon::Min(4).eval(9), ConstraintResult::Success));
    match MagnitudeCon::Equals(4).eval(5) {
        ConstraintResult::Failure(c) => assert!(matches!(c.mag, MagnitudeCon::Equals(5))),
        ConstraintResult::Success => panic!("5 is not 4"),
    }
    match MagnitudeCon::Min(4).eval(3) {
        ConstraintResult::Failure(c) => assert!(matches!(c.mag, MagnitudeCon::Equals(3))),
        ConstraintResult::Success => panic!("3 is below 4"),
    }
}

#[test]
fn matrix_machine_runs_like_the_vector_machine() {
    // Size 8 champion
    let m = PVAS::new(vec![-1, 4, 0, -1], 2, 2);
    let mut state = [1i64, 0];
    assert!(m.step(&mut state));
    assert_eq!(state, [0, 4]);
    let r = m.run(&mut state, 10);
    assert!(r.halted);
    assert_eq!(r.total_steps, 4);
    assert_eq!(state, [0, 0]);
    assert!(!m.step(&mut state));
    assert_eq!(state, [0, 0]);
}

#[test]
fn matrix_machine_stops_at_budget() {
    let m = PVAS::new(vec![-1, 5, 0, 0, -1, 3, 0, 0, -1], 3, 3);
    let mut state = [1i64, 0, 0];
    let r = m.run(&mut state, 4);
    assert!(!r.halted);
    assert_eq!(r.total_steps, 4);
    assert_eq!(state, [0, 2, 9]);
    let mut again = [1i64, 0, 0];
    let all = m.run(&mut again, 100);
    assert!(all.halted);
    assert_eq!(all.total_steps, 21);
    let mut none = [1i64, 0, 0];
    let zero = m.run(&mut none, 0);
    assert!(!zero.halted);
    assert_eq!(zero.total_steps, 0);
}

#[test]
fn names_of_programs_split_at_first_colon() {
    assert_eq!(split_filename_record("progs.txt:3"), ("progs.txt".to_string(), 3));
    assert_eq!(split_filename_record("progs.txt"), ("progs.txt".to_string(), 0));
    assert_eq!(split_filename_record(":12"), ("".to_string(), 12));
    assert_eq!(try_split_filename_record("a/b.txt:007"), Some(("a/b.txt".to_string(), 7)));
    assert_eq!(try_split_filename_record("progs.txt:"), None);
    assert_eq!(try_split_filename_record("progs.txt:x"), None);
    assert_eq!(try_split_filename_record("a:1:2"), None);
    assert_eq!(try_split_filename_record("progs.txt:-1"), None);
}

#[test]
fn answers_of_the_solver() {
    let no = Ok("Region overlap ...\nDEADLOCK: FALSE\n".to_string());
    let yes = Ok("DEADLOCK: TRUE".to_string());
    assert_eq!(analyze_output(no.clone(), false), DeciderResult::Infinite);
    assert_eq!(analyze_output(no, true), DeciderResult::Infinite);
    assert_eq!(analyze_output(yes.clone(), false), DeciderResult::Halt);
    assert_eq!(analyze_output(yes, true), DeciderResult::Unknown);
    assert_eq!(analyze_output(Ok("".to_string()), false), DeciderResult::Unknown);
    assert_eq!(analyze_output(Ok("DEADLOCK: MAYBE".to_string()), false), DeciderResult::Unknown);
    assert_eq!(
        analyze_output(Err("DEADLOCK: FALSE".to_string()), false),
        DeciderResult::Unknown
    );
    // An answer that holds both is read as no deadlock.
    assert_eq!(
        analyze_output(Ok("DEADLOCK: TRUE DEADLOCK: FALSE".to_string()), false),
        DeciderResult::Infinite
    );
}

#[test]
fn checked_run_of_the_matrix_machine() {
    let m = PVAS::new(vec![-1, 4, 0, -1], 2, 2);
    let mut state = [1i64, 0];
    let r = m.try_run(&mut state, 10).expect("small numbers");
    assert!(r.halted);
    assert_eq!(r.total_steps, 5);
    assert_eq!(state, [0, 0]);
    // A state of another length, a negative register, and a matrix of
    // another size are refused, and the state is left as it is.
    let mut long = [1i64, 0, 0];
    assert!(m.try_run(&mut long, 10).is_none());
    let mut negative = [1i64, -1];
    assert!(m.try_run(&mut negative, 10).is_none());
    assert_eq!(negative, [1, -1]);
    let odd = PVAS::new(vec![-1, 4, 0], 2, 2);
    let mut two = [1i64, 0];
    assert!(odd.try_run(&mut two, 10).is_none());
    // Numbers that may outgrow a machine integer are refused.
    let mut high = [i64::MAX - 7, 0];
    assert!(m.try_run(&mut high, 3).is_none());
    assert!(m.try_run(&mut high, 1).is_some());
    let mut zero = [1i64, 0];
    let none = m.try_run(&mut zero, -5).expect("no steps");
    assert!(!none.halted);
    assert_eq!(none.total_steps, -5);
    assert_eq!(zero, [1, 0]);
}

use fractran::parse::{
    exponents_of, note_prime, parse_fractions, parse_program, program_from_lists, Factored,
};
use fractran::diff_rule::DiffRule;
use fractran::fast_source::generate_fast_source;
use fractran::gen_rec::{count, count_many};
use fractran::pnml::pnml_text;
use fractran::program::{Instr, Program, State};
use fractran::state_diff::{Bound, StateDiff, StateDiffBound};
use fractran::vec_set::{NatSet, UnionVecSet, VecSet};
use rug::Integer;

fn rows(rs: &[&[i32]]) -> Vec<Instr> {
    rs.iter().map(|r| Instr::new(r.to_vec())).collect()
}

fn instrs(text: &str) -> Option<Vec<Instr>> {
    parse_program(text).map(|p: Program| p.instrs)
}

#[test]
fn collatz_like_program_from_fractions() {
    assert_eq!(
        instrs("[2/45, 25/6, 343/2, 9/7, 2/3]"),
        Some(rows(&[
            &[1, -2, -1, 0],
            &[-1, -1, 2, 0],
            &[-1, 0, 0, 3],
            &[0, 2, 0, -1],
            &[1, -1, 0, 0],
        ]))
    );
}

#[test]
fn hydra_program_from_fractions() {
    assert_eq!(
        instrs("[507/22, 26/33, 245/2, 5/21, 1/3, 11/13, 22/5]"),
        Some(rows(&[
            &[-1, 1, 0, 0, -1, 2],
            &[1, -1, 0, 0, -1, 1],
            &[-1, 0, 1, 2, 0, 0],
            &[0, -1, 1, -1, 0, 0],
            &[0, -1, 0, 0, 0, 0],
            &[0, 0, 0, 0, 1, -1],
            &[1, 0, -1, 0, 1, 0],
        ]))
    );
}

#[test]
fn small_programs_from_fractions() {
    // Size 8 champion
    assert_eq!(instrs("[81/2, 1/3]"), Some(rows(&[&[-1, 4], &[0, -1]])));
    // Without brackets and blanks, and with them in odd places.
    assert_eq!(instrs("81/2,1/3"), Some(rows(&[&[-1, 4], &[0, -1]])));
    assert_eq!(instrs(" [ 8 1 / 2 ] , [1/3] "), Some(rows(&[&[-1, 4], &[0, -1]])));
    // A fraction of ones has one register, for the prime 2.
    assert_eq!(instrs("1/1"), Some(rows(&[&[0]])));
    // What a numerator and a denominator share, cancels.
    assert_eq!(instrs("6/4"), Some(rows(&[&[-1, 1]])));
    // A plus sign before a number does not count.
    assert_eq!(instrs("+3/+2"), Some(rows(&[&[-1, 1]])));
    // What stands behind a second slash does not count.
    assert_eq!(instrs("3/2/x"), Some(rows(&[&[-1, 1]])));
    // Zero has no prime factors.
    assert_eq!(instrs("0/3"), Some(rows(&[&[0, -1]])));
}

#[test]
fn registers_reach_to_the_greatest_prime() {
    let prog = parse_program("[1/2, 29/1]").unwrap();
    // 2, 3, 5, 7, 11, 13, 17, 19, 23, 29
    assert_eq!(prog.num_registers(), 10);
    assert_eq!(prog.instrs[1].data, vec![0, 0, 0, 0, 0, 0, 0, 0, 0, 1]);
    assert_eq!(prog.instrs[0].data, vec![-1, 0, 0, 0, 0, 0, 0, 0, 0, 0]);
}

#[test]
fn high_powers_are_counted() {
    // 2^100 / 3^40
    let text = "1267650600228229401496703205376/12157665459056928801";
    assert_eq!(instrs(text), Some(rows(&[&[100, -40]])));
}

#[test]
fn texts_that_are_no_programs() {
    for text in ["", "[]", "3", "3/", "/2", "3/2,", ",3/2", "a/2", "3/b", "3/2;5/4", "-3/2",
        "3/-2", "3 /\t2", "3.0/2", "++3/2", "+/2"]
    {
        assert!(parse_program(text).is_none(), "{:?}", text);
    }
    // A number that 128 bits do not hold.
    assert!(parse_program("340282366920938463463374607431768211456/2").is_none());
}

#[test]
fn fractions_of_a_text() {
    assert_eq!(parse_fractions(b"[507/22, 26/33]"), Some(vec![(507, 22), (26, 33)]));
    assert_eq!(parse_fractions(b"007/0"), Some(vec![(7, 0)]));
    assert_eq!(parse_fractions(b"1/2/3,4/5"), Some(vec![(1, 2), (4, 5)]));
    assert_eq!(parse_fractions(b"1/2,,4/5"), None);
    assert_eq!(parse_fractions("1/2\u{e9}".as_bytes()), None);
    assert_eq!(
        parse_fractions(b"340282366920938463463374607431768211455/1"),
        Some(vec![(u128::MAX, 1)])
    );
}

#[test]
fn numbers_of_recursive_functions() {
    // T(1,0) = 1: Z^0
    assert_eq!(count(1, 0), 1);
    // T(1,1) = 3: Z^1, S, P^1_1
    assert_eq!(count(1, 1), 3);
    // T(1,2) = 3: Z^2, P^2_1, P^2_2
    assert_eq!(count(1, 2), 3);
    assert_eq!(count(1, 7), 8);
    // T(2,0) = 3: M(T(1,1))
    assert_eq!(count(2, 0), 3);
    assert_eq!(count(2, 1), 3);
    assert_eq!(count(2, 5), 7);
    // T(3,0) = 6: 3 M(T(2,1)) and 3 C(T(1,1), T(1,0))
    assert_eq!(count(3, 0), 6);
    // T(3,1) = 16: 4 M(T(2,2)), 3 R(T(1,0), T(1,2)) and 9 C(T(1,1), T(1,1))
    assert_eq!(count(3, 1), 16);
    assert_eq!(count(4, 0), 31);
    assert_eq!(count(0, 0), 0);
    assert_eq!(count(0, 3), 0);
}

#[test]
fn numbers_of_lists_of_recursive_functions() {
    assert_eq!(count_many(0, 0, 0), 1);
    assert_eq!(count_many(1, 0, 0), 0);
    assert_eq!(count_many(1, 0, 2), 0);
    assert_eq!(count_many(1, 1, 1), 3);
    assert_eq!(count_many(2, 1, 2), 9);
    assert_eq!(count_many(2, 1, 1), 3);
    // Lists of one function are counted as the functions are.
    for size in 1..8 {
        for arity in 0..4 {
            assert_eq!(count_many(size, arity, 1), count(size, arity));
        }
    }
}

#[test]
fn counts_outgrow_machine_words() {
    let big = count(40, 1);
    assert!(big > Integer::from(u128::MAX));
    // The counts satisfy their recurrence: T(s, 0) for s > 1 is T(s-1, 1)
    // and the compositions, which begin with T(1, 1) * T(s-2, 0, 1 list).
    assert!(count(12, 0) > count(11, 1));
}

#[test]
fn model_of_a_program_for_the_solver() {
    let prog = parse_program("[81/2, 1/3]").unwrap();
    let text = generate_fast_source(&prog, "forward", 0, 2, 200, false);
    let lines = vec![
        "model m0 {",
        "  var x0, x1;",
        "  states q;",
        "",
        "  transition t0 := {",
        "    from := q; to := q;",
        "    guard := (x0 >= 1) && true;",
        "    action := x0' = x0 - 1, x1' = x1 + 4;",
        "  };",
        "",
        "  transition t1 := {",
        "    from := q; to := q;",
        "    guard := (x1 >= 1) && true && !(x0 >= 1);",
        "    action := x1' = x1 - 1;",
        "  };",
        "",
        "}",
        "",
        "strategy s1 {",
        "  setMaxState(200);",
        "  setMaxAcc(200);",
        "  Transitions all := { t0, t1 };",
        "  Region init := { state = q && x0=1 && x1=0 };",
        "  Region halted := { state = q && true && !(x0 >= 1) && !(x1 >= 1) };",
        "  Region reachable := post*(init, all, 2);",
        "  Region overlap := reachable && halted;",
        "  if (isEmpty(overlap)) then",
        "    print(\"DEADLOCK: FALSE\");",
        "  else",
        "    print(\"DEADLOCK: TRUE\");",
        "  endif",
        "}",
        "",
    ];
    let want = lines.join("\n");
    assert_eq!(text, want);
}

#[test]
fn model_without_priority_and_backward_search() {
    let prog = Program { instrs: rows(&[&[0, 0, 0], &[-2, 0, -13]]) };
    let text = generate_fast_source(&prog, "backward", 7, 3, 50, true);
    assert!(text.starts_with("model m7 {\n  var x0, x1, x2;\n"));
    // An instruction that takes nothing and changes nothing.
    assert!(text.contains("  transition t0 := {\n    from := q; to := q;\n    guard := (true);\n  };\n"));
    assert!(text.contains("    guard := (x0 >= 2 && x2 >= 13);\n    action := x0' = x0 - 2, x2' = x2 - 13;\n"));
    assert!(text.contains("  Region halted := { state = q && true && !(true) && !(x0 >= 2 && x2 >= 13) };\n"));
    assert!(text.contains("  Region bad_pre := pre*(halted, all, 3);\n  Region overlap := bad_pre && init;\n"));
    assert!(text.contains("  setMaxState(50);\n  setMaxAcc(50);\n"));
    // Any other strategy searches forwards.
    let other = generate_fast_source(&prog, "sideways", 7, 3, 50, true);
    assert!(other.contains("  Region reachable := post*(init, all, 3);\n"));
}

#[test]
fn rules_as_text() {
    let rule = DiffRule {
        min: StateDiff::new(vec![0, 1, 12]),
        max: StateDiffBound::new(vec![Bound::Infinity, Bound::Finite(5), Bound::NegativeInfinity]),
        delta: StateDiff::new(vec![1, -1, 0]),
        num_steps: 3,
    };
    assert_eq!(rule.to_string(), "DiffRule: [0-∞, 1-5, 12-∞, ]  [1, -1, 0]");
    assert_eq!(DiffRule::noop(0).to_string(), "DiffRule: []  []");
    let low = DiffRule {
        min: StateDiff::new(vec![i64::MIN]),
        max: StateDiffBound::new(vec![Bound::Finite(-7)]),
        delta: StateDiff::new(vec![i64::MAX]),
        num_steps: 1,
    };
    assert_eq!(
        low.to_string(),
        "DiffRule: [-9223372036854775808--7, ]  [9223372036854775807]"
    );
}

#[test]
fn boxes_as_text() {
    assert_eq!(NatSet::Fixed(13).to_string(), "13");
    assert_eq!(NatSet::Min(8).to_string(), "8+");
    assert_eq!(NatSet::Fixed(-2).to_string(), "-2");
    let b = VecSet(vec![NatSet::Fixed(0), NatSet::Min(46), NatSet::Fixed(0)]);
    assert_eq!(b.to_string(), "[0 46+ 0]");
    assert_eq!(VecSet(vec![]).to_string(), "[]");
    let u = UnionVecSet::new(vec![b, VecSet(vec![NatSet::Min(1), NatSet::Min(2), NatSet::Min(3)])]);
    assert_eq!(u.to_string(), "[0 46+ 0]\n[1+ 2+ 3+]");
    assert_eq!(UnionVecSet::new(vec![]).to_string(), "");
    // The text of a set reads back as the set.
    for set in [NatSet::Fixed(0), NatSet::Fixed(77), NatSet::Min(0), NatSet::Min(2147483647)] {
        assert_eq!(NatSet::parse(&set.to_string()), Ok(set));
    }
}

#[test]
fn program_as_petri_net() {
    let prog = parse_program("[81/2, 1/3]").unwrap();
    let state = State::new(vec![Integer::from(1), Integer::from(0)]);
    let lines = vec![
        "<?xml version=\"1.0\" encoding=\"UTF-8\"?>",
        "<pnml xmlns=\"http://www.pnml.org/version-2009/grammar/pnml\">",
        " <net id=\"pvas_net\" type=\"http://www.pnml.org/version-2009/grammar/ptnet\">",
        "  <page id=\"page0\">",
        "   <place id=\"p0\">",
        "    <name><text>p0</text></name>",
        "    <initialMarking><text>1</text></initialMarking>",
        "    <graphics><position x=\"100\" y=\"100\"/></graphics>",
        "   </place>",
        "   <place id=\"p1\">",
        "    <name><text>p1</text></name>",
        "    <initialMarking><text>0</text></initialMarking>",
        "    <graphics><position x=\"180\" y=\"100\"/></graphics>",
        "   </place>",
        "   <transition id=\"t0\">",
        "    <name><text>t0</text></name>",
        "    <graphics><position x=\"100\" y=\"200\"/></graphics>",
        "   </transition>",
        "   <transition id=\"t1\">",
        "    <name><text>t1</text></name>",
        "    <graphics><position x=\"180\" y=\"200\"/></graphics>",
        "   </transition>",
        "   <arc id=\"a0\" source=\"p0\" target=\"t0\">",
        "    <inscription><text>1</text></inscription>",
        "   </arc>",
        "   <arc id=\"a1\" source=\"t0\" target=\"p1\">",
        "    <inscription><text>4</text></inscription>",
        "   </arc>",
        "   <arc id=\"a2\" source=\"p1\" target=\"t1\">",
        "    <inscription><text>1</text></inscription>",
        "   </arc>",
        "  </page>",
        " </net>",
        "</pnml>",
        "",
    ];
    assert_eq!(pnml_text(&prog, &state), lines.join("\n"));
}

#[test]
fn primes_are_noted_in_their_order() {
    let mut primes: Vec<usize> = vec![];
    assert!(note_prime(&mut primes, Some(2)));
    assert!(note_prime(&mut primes, Some(3)));
    assert_eq!(primes, vec![2, 3]);
    // Where the stream has come to its end the list stays as it is.
    assert!(!note_prime(&mut primes, None));
    assert_eq!(primes, vec![2, 3]);
}

#[test]
fn program_from_lists_of_factors() {
    // 12/5 and 1/9 with their prime factors.
    let pairs = vec![(12u128, 5u128), (1, 9)];
    let factored = vec![
        Factored { num: vec![2, 2, 3], den: vec![5] },
        Factored { num: vec![], den: vec![3, 3] },
    ];
    let prog = program_from_lists(&pairs, &factored, Some(vec![2, 3, 5])).unwrap();
    assert_eq!(prog.instrs, rows(&[&[2, 1, -1], &[0, -2, 0]]));
    // Without primes there is no program.
    assert!(program_from_lists(&pairs, &factored, None).is_none());
    // Nor with primes that do not reach to every factor.
    assert!(program_from_lists(&pairs, &factored, Some(vec![2, 3])).is_none());
    // More primes give more registers.
    let wide = program_from_lists(&pairs, &factored, Some(vec![2, 3, 5, 7])).unwrap();
    assert_eq!(wide.instrs, rows(&[&[2, 1, -1, 0], &[0, -2, 0, 0]]));
}

#[test]
fn lists_that_are_no_factorings_are_refused() {
    let primes = vec![2usize, 3, 5, 7, 11, 13];
    assert_eq!(exponents_of(&vec![2, 2, 3], 12, &primes), Some(vec![2, 1, 0, 0, 0, 0]));
    assert_eq!(exponents_of(&vec![13], 13, &primes), Some(vec![0, 0, 0, 0, 0, 1]));
    // The order of the factors does not count.
    assert_eq!(exponents_of(&vec![3, 2, 2], 12, &primes), Some(vec![2, 1, 0, 0, 0, 0]));
    // One and zero have no factor.
    assert_eq!(exponents_of(&vec![], 1, &primes), Some(vec![0; 6]));
    assert_eq!(exponents_of(&vec![], 0, &primes), Some(vec![0; 6]));
    assert_eq!(exponents_of(&vec![], 2, &primes), None);
    // A factor is missing: 2 * 3 is no 12, and 3 * 5 is no 225.
    assert_eq!(exponents_of(&vec![2, 3], 12, &primes), None);
    assert_eq!(exponents_of(&vec![3, 5], 225, &primes), None);
    // A factor that is no prime, or none of the primes at hand.
    assert_eq!(exponents_of(&vec![4, 3], 12, &primes), None);
    assert_eq!(exponents_of(&vec![1, 12], 12, &primes), None);
    assert_eq!(exponents_of(&vec![17], 17, &primes), None);
    assert_eq!(exponents_of(&vec![0], 0, &primes), None);
    // A product that 128 bits do not hold.
    assert_eq!(exponents_of(&vec![2; 128], 0, &primes), None);
    assert_eq!(exponents_of(&vec![2; 127], 1u128 << 127, &primes), Some(vec![127, 0, 0, 0, 0, 0]));
}

#[test]
fn square_of_a_product_of_two_primes() {
    // (10007 * 20011)^2 / 1: the program counts both primes twice, or the
    // factors that were found do not multiply back and there is none.
    match parse_program("40100093338505929/1") {
        None => {}
        Some(prog) => {
            let row = &prog.instrs[0].data;
            assert_eq!(row.iter().filter(|e| **e != 0).count(), 2);
            assert_eq!(row.iter().map(|e| *e as i64).sum::<i64>(), 4);
            assert_eq!(*row.last().unwrap(), 2);
        }
    }
}

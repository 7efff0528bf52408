//! A program as a model for the solver FAST, with the question whether
//! the program can come to a state on which it halts.
//!
//! The model has one variable for each register and one transition for
//! each instruction. The guard of a transition asks for what the
//! instruction takes, and, where the priority of the instructions is
//! kept, that no instruction before it may fire.
use vstd::prelude::*;
use vstd::string::StringExecFns;
use crate::program::Program;
use crate::text::{decimal, decimal_text, join_strings, joined, same_text, texts};

verus! {

/// The name of the variable of register `i`.
pub open spec fn var_text(i: int) -> Seq<char> {
    "x"@ + decimal_text(i)
}

/// For each of the first `upto` registers from which `instr` takes, that
/// the register holds what is taken.
pub open spec fn resource_guards(instr: Seq<int>, upto: int) -> Seq<Seq<char>>
    decreases upto,
{
    if upto <= 0 {
        Seq::empty()
    } else if instr[upto - 1] < 0 {
        resource_guards(instr, upto - 1).push(
            var_text(upto - 1) + " >= "@ + decimal_text(-instr[upto - 1]),
        )
    } else {
        resource_guards(instr, upto - 1)
    }
}

/// That every register holds what `instr` takes from it; `true` for an
/// instruction that takes nothing.
pub open spec fn resources_text(instr: Seq<int>) -> Seq<char> {
    let guards = resource_guards(instr, instr.len() as int);
    if guards.len() == 0 {
        "true"@
    } else {
        joined(guards, " && "@, guards.len() as int)
    }
}

/// That none of the first `upto` instructions may fire.
pub open spec fn priority_text(prog: Seq<Seq<int>>, upto: int) -> Seq<char>
    decreases upto,
{
    if upto <= 0 {
        "true"@
    } else {
        priority_text(prog, upto - 1) + " && !("@ + resources_text(prog[upto - 1]) + ")"@
    }
}

/// For each of the first `upto` registers that `instr` changes, the
/// change.
pub open spec fn actions(instr: Seq<int>, upto: int) -> Seq<Seq<char>>
    decreases upto,
{
    if upto <= 0 {
        Seq::empty()
    } else if instr[upto - 1] > 0 {
        actions(instr, upto - 1).push(
            var_text(upto - 1) + "' = "@ + var_text(upto - 1) + " + "@ + decimal_text(
                instr[upto - 1],
            ),
        )
    } else if instr[upto - 1] < 0 {
        actions(instr, upto - 1).push(
            var_text(upto - 1) + "' = "@ + var_text(upto - 1) + " - "@ + decimal_text(
                -instr[upto - 1],
            ),
        )
    } else {
        actions(instr, upto - 1)
    }
}

/// The line of the actions of `instr`; nothing for an instruction that
/// changes nothing.
pub open spec fn action_text(instr: Seq<int>) -> Seq<char> {
    let all = actions(instr, instr.len() as int);
    if all.len() == 0 {
        Seq::empty()
    } else {
        "    action := "@ + joined(all, ", "@, all.len() as int) + ";\n"@
    }
}

/// The guard of the `k`-th transition.
pub open spec fn guard_text(prog: Seq<Seq<int>>, k: int, ignore_priority: bool) -> Seq<char> {
    let resources = "    guard := ("@ + resources_text(prog[k]) + ")"@;
    if ignore_priority {
        resources + ";\n"@
    } else {
        resources + " && "@ + priority_text(prog, k) + ";\n"@
    }
}

/// The `k`-th transition.
pub open spec fn transition_text(prog: Seq<Seq<int>>, k: int, ignore_priority: bool) -> Seq<char> {
    "  transition t"@ + decimal_text(k) + " := {\n"@ + "    from := q; to := q;\n"@ + guard_text(
        prog,
        k,
        ignore_priority,
    ) + action_text(prog[k]) + "  };\n\n"@
}

/// The first `upto` transitions.
pub open spec fn transitions_text(prog: Seq<Seq<int>>, upto: int, ignore_priority: bool) -> Seq<
    char,
>
    decreases upto,
{
    if upto <= 0 {
        Seq::empty()
    } else {
        transitions_text(prog, upto - 1, ignore_priority) + transition_text(
            prog,
            upto - 1,
            ignore_priority,
        )
    }
}

/// The names of the first `n` variables.
pub open spec fn var_names(n: int) -> Seq<Seq<char>> {
    Seq::new(n as nat, |i: int| var_text(i))
}

/// The names of the first `n` transitions.
pub open spec fn transition_names(n: int) -> Seq<Seq<char>> {
    Seq::new(n as nat, |k: int| "t"@ + decimal_text(k))
}

/// For each of the first `n` registers, what it holds at the start: 1 for
/// register 0, and 0 for the others.
pub open spec fn start_values(n: int) -> Seq<Seq<char>> {
    Seq::new(
        n as nat,
        |i: int|
            var_text(i) + "="@ + decimal_text(
                if i == 0 {
                    1int
                } else {
                    0int
                },
            ),
    )
}

/// The model of a program.
pub open spec fn model_text(prog: Seq<Seq<int>>, id: int, ignore_priority: bool) -> Seq<char> {
    let size = prog[0].len() as int;
    "model m"@ + decimal_text(id) + " {\n"@ + "  var "@ + joined(var_names(size), ", "@, size)
        + ";\n"@ + "  states q;\n\n"@ + transitions_text(prog, prog.len() as int, ignore_priority)
        + "}\n\n"@
}

/// The search of the question: from the start forwards, or from the
/// halting states backwards.
pub open spec fn search_text(backward: bool, max_loop_size: int) -> Seq<char> {
    if backward {
        "  Region bad_pre := pre*(halted, all, "@ + decimal_text(max_loop_size) + ");\n"@
            + "  Region overlap := bad_pre && init;\n"@
    } else {
        "  Region reachable := post*(init, all, "@ + decimal_text(max_loop_size) + ");\n"@
            + "  Region overlap := reachable && halted;\n"@
    }
}

/// The question whether the program can come to a state on which it
/// halts.
pub open spec fn strategy_text(
    prog: Seq<Seq<int>>,
    backward: bool,
    max_loop_size: int,
    limit: int,
) -> Seq<char> {
    let size = prog[0].len() as int;
    let count = prog.len() as int;
    "strategy s1 {\n"@ + "  setMaxState("@ + decimal_text(limit) + ");\n"@ + "  setMaxAcc("@
        + decimal_text(limit) + ");\n"@ + "  Transitions all := { "@ + joined(
        transition_names(count),
        ", "@,
        count,
    ) + " };\n"@ + "  Region init := { state = q && "@ + joined(start_values(size), " && "@, size)
        + " };\n"@ + "  Region halted := { state = q && "@ + priority_text(prog, count) + " };\n"@
        + search_text(backward, max_loop_size) + "  if (isEmpty(overlap)) then\n"@
        + "    print(\"DEADLOCK: FALSE\");\n"@ + "  else\n"@ + "    print(\"DEADLOCK: TRUE\");\n"@
        + "  endif\n"@ + "}\n"@
}

/// The model of a program and the question, as one text.
pub open spec fn fast_source(
    prog: Seq<Seq<int>>,
    backward: bool,
    id: int,
    max_loop_size: int,
    limit: int,
    ignore_priority: bool,
) -> Seq<char> {
    model_text(prog, id, ignore_priority) + strategy_text(prog, backward, max_loop_size, limit)
}

/// The magnitude of a small machine integer.
fn magnitude(delta: i32) -> (r: usize)
    ensures
        r == if delta < 0 {
            -delta
        } else {
            delta as int
        },
{
    if delta < 0 {
        (-(delta as i64)) as usize
    } else {
        delta as usize
    }
}

/// The name of the variable of register `i`.
fn var_name(i: usize) -> (r: String)
    ensures
        r@ == var_text(i as int),
{
    let mut out = String::from_str("x");
    out.append(decimal(i).as_str());
    out
}

/// The texts of `parts` with `sep` between each two, or `empty` when
/// there are none.
fn join_or(parts: &Vec<String>, sep: &str, empty: &str) -> (r: String)
    ensures
        r@ == if parts@.len() == 0 {
            empty@
        } else {
            joined(texts(parts@), sep@, parts@.len() as int)
        },
{
    if parts.len() == 0 {
        String::from_str(empty)
    } else {
        join_strings(parts, sep)
    }
}

/// See [`resources_text`].
fn resources(data: &Vec<i32>, Ghost(instr): Ghost<Seq<int>>) -> (r: String)
    requires
        instr.len() == data@.len(),
        forall|i: int| 0 <= i < data@.len() ==> instr[i] == #[trigger] data@[i],
    ensures
        r@ == resources_text(instr),
{
    let mut guards: Vec<String> = Vec::new();
    let mut v: usize = 0;
    while v < data.len()
        invariant
            0 <= v <= data@.len(),
            instr.len() == data@.len(),
            forall|i: int| 0 <= i < data@.len() ==> instr[i] == #[trigger] data@[i],
            texts(guards@) == resource_guards(instr, v as int),
        decreases data@.len() - v,
    {
        let delta = data[v];
        if delta < 0 {
            let ghost before = texts(guards@);
            let mut guard = var_name(v);
            guard.append(" >= ");
            guard.append(decimal(magnitude(delta)).as_str());
            guards.push(guard);
            assert(texts(guards@) =~= before.push(guard@));
        }
        v += 1;
    }
    join_or(&guards, " && ", "true")
}

/// See [`action_text`].
fn action_line(data: &Vec<i32>, Ghost(instr): Ghost<Seq<int>>) -> (r: String)
    requires
        instr.len() == data@.len(),
        forall|i: int| 0 <= i < data@.len() ==> instr[i] == #[trigger] data@[i],
    ensures
        r@ == action_text(instr),
{
    let mut all: Vec<String> = Vec::new();
    let mut v: usize = 0;
    while v < data.len()
        invariant
            0 <= v <= data@.len(),
            instr.len() == data@.len(),
            forall|i: int| 0 <= i < data@.len() ==> instr[i] == #[trigger] data@[i],
            texts(all@) == actions(instr, v as int),
        decreases data@.len() - v,
    {
        let delta = data[v];
        if delta != 0 {
            let ghost before = texts(all@);
            let mut action = var_name(v);
            action.append("' = ");
            action.append(var_name(v).as_str());
            if delta > 0 {
                action.append(" + ");
            } else {
                action.append(" - ");
            }
            action.append(decimal(magnitude(delta)).as_str());
            all.push(action);
            assert(texts(all@) =~= before.push(action@));
        }
        v += 1;
    }
    if all.len() == 0 {
        String::new()
    } else {
        let mut line = String::from_str("    action := ");
        line.append(join_strings(&all, ", ").as_str());
        line.append(";\n");
        line
    }
}

/// The texts of `make(0)`, ..., `make(n - 1)` with `sep` between each two,
/// for the three lists of names of the model.
fn names_line(n: usize, kind: u8, sep: &str) -> (r: String)
    requires
        kind < 3,
    ensures
        r@ == joined(
            if kind == 0 {
                var_names(n as int)
            } else if kind == 1 {
                transition_names(n as int)
            } else {
                start_values(n as int)
            },
            sep@,
            n as int,
        ),
{
    let ghost want = if kind == 0 {
        var_names(n as int)
    } else if kind == 1 {
        transition_names(n as int)
    } else {
        start_values(n as int)
    };
    let mut parts: Vec<String> = Vec::new();
    let mut i: usize = 0;
    while i < n
        invariant
            0 <= i <= n,
            kind < 3,
            want == if kind == 0 {
                var_names(n as int)
            } else if kind == 1 {
                transition_names(n as int)
            } else {
                start_values(n as int)
            },
            parts@.len() == i,
            forall|j: int| 0 <= j < i ==> (#[trigger] parts@[j])@ == want[j],
        decreases n - i,
    {
        let part = if kind == 0 {
            var_name(i)
        } else if kind == 1 {
            let mut name = String::from_str("t");
            name.append(decimal(i).as_str());
            name
        } else {
            let mut value = var_name(i);
            value.append("=");
            value.append(decimal(if i == 0 { 1 } else { 0 }).as_str());
            value
        };
        parts.push(part);
        i += 1;
    }
    assert(texts(parts@) =~= want);
    join_strings(&parts, sep)
}

/// The model of `prog` in the input language of FAST, and the question
/// whether the program can come to a state on which it halts: see
/// [`fast_source`]. The search goes backwards from the halting states for
/// the strategy `backward`, and forwards from the start for any other.
pub fn generate_fast_source(
    prog: &Program,
    strategy: &str,
    id: usize,
    max_loop_size: usize,
    limit: usize,
    ignore_priority: bool,
) -> (r: String)
    requires
        prog.instrs@.len() > 0,
    ensures
        r@ == fast_source(
            prog@,
            strategy@ == "backward"@,
            id as int,
            max_loop_size as int,
            limit as int,
            ignore_priority,
        ),
{
    let num_vars = prog.num_registers();
    let count = prog.instrs.len();
    let ghost code = prog@;

    let mut sb = String::from_str("model m");
    sb.append(decimal(id).as_str());
    sb.append(" {\n");
    sb.append("  var ");
    sb.append(names_line(num_vars, 0, ", ").as_str());
    sb.append(";\n");
    sb.append("  states q;\n\n");

    let mut transitions = String::new();
    let mut prio_str = String::from_str("true");
    let mut k: usize = 0;
    while k < count
        invariant
            0 <= k <= count,
            count == prog.instrs@.len(),
            code == prog@,
            transitions@ == transitions_text(code, k as int, ignore_priority),
            prio_str@ == priority_text(code, k as int),
        decreases count - k,
    {
        let instr = &prog.instrs[k];
        proof {
            assert(code[k as int] == instr@);
            assert forall|i: int| 0 <= i < instr.data@.len() implies code[k as int][i]
                == #[trigger] instr.data@[i] by {}
        }
        let res_str = resources(&instr.data, Ghost(code[k as int]));

        let mut guard = String::from_str("    guard := (");
        guard.append(res_str.as_str());
        guard.append(")");
        if !ignore_priority {
            guard.append(" && ");
            guard.append(prio_str.as_str());
        }
        guard.append(";\n");

        let mut t = String::from_str("  transition t");
        t.append(decimal(k).as_str());
        t.append(" := {\n");
        t.append("    from := q; to := q;\n");
        t.append(guard.as_str());
        t.append(action_line(&instr.data, Ghost(code[k as int])).as_str());
        t.append("  };\n\n");
        transitions.append(t.as_str());

        prio_str.append(" && !(");
        prio_str.append(res_str.as_str());
        prio_str.append(")");
        k += 1;
    }
    sb.append(transitions.as_str());
    sb.append("}\n\n");
    assert(sb@ == model_text(code, id as int, ignore_priority));

    let mut st = String::from_str("strategy s1 {\n");
    st.append("  setMaxState(");
    st.append(decimal(limit).as_str());
    st.append(");\n");
    st.append("  setMaxAcc(");
    st.append(decimal(limit).as_str());
    st.append(");\n");
    st.append("  Transitions all := { ");
    st.append(names_line(count, 1, ", ").as_str());
    st.append(" };\n");
    st.append("  Region init := { state = q && ");
    st.append(names_line(num_vars, 2, " && ").as_str());
    st.append(" };\n");
    st.append("  Region halted := { state = q && ");
    st.append(prio_str.as_str());
    st.append(" };\n");

    let backward = same_text(strategy, "backward");
    let mut search = if backward {
        String::from_str("  Region bad_pre := pre*(halted, all, ")
    } else {
        String::from_str("  Region reachable := post*(init, all, ")
    };
    search.append(decimal(max_loop_size).as_str());
    search.append(");\n");
    if backward {
        search.append("  Region overlap := bad_pre && init;\n");
    } else {
        search.append("  Region overlap := reachable && halted;\n");
    }
    st.append(search.as_str());
    st.append("  if (isEmpty(overlap)) then\n");
    st.append("    print(\"DEADLOCK: FALSE\");\n");
    st.append("  else\n");
    st.append("    print(\"DEADLOCK: TRUE\");\n");
    st.append("  endif\n");
    st.append("}\n");
    assert(st@ == strategy_text(code, backward, max_loop_size as int, limit as int));

    sb.append(st.as_str());
    sb
}

} // verus!

//! A program and a state as a Petri net in the Petri Net Markup Language:
//! a place for each register, a transition for each instruction, and an
//! arc for each entry of an instruction that is not zero.
use vstd::prelude::*;
use vstd::string::StringExecFns;
use crate::bignum::{big_decimal, integer_value};
use crate::program::{Program, State};
use crate::text::{decimal, decimal_text, signed_text};

verus! {

/// The place of register `i`, which holds `value`.
pub open spec fn place_text(i: int, value: int) -> Seq<char> {
    "   <place id=\"p"@ + decimal_text(i) + "\">\n"@ + "    <name><text>p"@ + decimal_text(i)
        + "</text></name>\n"@ + "    <initialMarking><text>"@ + signed_text(value)
        + "</text></initialMarking>\n"@ + "    <graphics><position x=\""@ + decimal_text(
        100 + i * 80,
    ) + "\" y=\"100\"/></graphics>\n"@ + "   </place>\n"@
}

/// The places of the first `upto` registers.
pub open spec fn places_text(regs: Seq<int>, upto: int) -> Seq<char>
    decreases upto,
{
    if upto <= 0 {
        Seq::empty()
    } else {
        places_text(regs, upto - 1) + place_text(upto - 1, regs[upto - 1])
    }
}

/// The transition of instruction `k`.
pub open spec fn transition_text(k: int) -> Seq<char> {
    "   <transition id=\"t"@ + decimal_text(k) + "\">\n"@ + "    <name><text>t"@ + decimal_text(k)
        + "</text></name>\n"@ + "    <graphics><position x=\""@ + decimal_text(100 + k * 80)
        + "\" y=\"200\"/></graphics>\n"@ + "   </transition>\n"@
}

/// The transitions of the first `upto` instructions.
pub open spec fn transitions_text(upto: int) -> Seq<char>
    decreases upto,
{
    if upto <= 0 {
        Seq::empty()
    } else {
        transitions_text(upto - 1) + transition_text(upto - 1)
    }
}

/// The number of entries that are not zero among the first `upto` of
/// `instr`.
pub open spec fn arcs_in(instr: Seq<int>, upto: int) -> int
    decreases upto,
{
    if upto <= 0 {
        0
    } else {
        arcs_in(instr, upto - 1) + if instr[upto - 1] != 0 {
            1int
        } else {
            0int
        }
    }
}

/// The number of arcs of the first `upto` instructions.
pub open spec fn arcs_before(prog: Seq<Seq<int>>, upto: int) -> int
    decreases upto,
{
    if upto <= 0 {
        0
    } else {
        arcs_before(prog, upto - 1) + arcs_in(prog[upto - 1], prog[upto - 1].len() as int)
    }
}

/// The arc with the number `arc` between the place `place` and the
/// transition `k`, for the entry `delta`: from the place to the
/// transition for what the instruction takes, and the other way for what
/// it gives.
pub open spec fn arc_text(arc: int, k: int, place: int, delta: int) -> Seq<char> {
    if delta < 0 {
        "   <arc id=\"a"@ + decimal_text(arc) + "\" source=\"p"@ + decimal_text(place)
            + "\" target=\"t"@ + decimal_text(k) + "\">\n"@ + "    <inscription><text>"@
            + decimal_text(-delta) + "</text></inscription>\n"@ + "   </arc>\n"@
    } else {
        "   <arc id=\"a"@ + decimal_text(arc) + "\" source=\"t"@ + decimal_text(k)
            + "\" target=\"p"@ + decimal_text(place) + "\">\n"@ + "    <inscription><text>"@
            + decimal_text(delta) + "</text></inscription>\n"@ + "   </arc>\n"@
    }
}

/// The arcs of the first `upto` entries of instruction `k`, numbered from
/// `first` on.
pub open spec fn instr_arcs_text(instr: Seq<int>, k: int, first: int, upto: int) -> Seq<char>
    decreases upto,
{
    if upto <= 0 {
        Seq::empty()
    } else if instr[upto - 1] != 0 {
        instr_arcs_text(instr, k, first, upto - 1) + arc_text(
            first + arcs_in(instr, upto - 1),
            k,
            upto - 1,
            instr[upto - 1],
        )
    } else {
        instr_arcs_text(instr, k, first, upto - 1)
    }
}

/// The arcs of the first `upto` instructions.
pub open spec fn arcs_text(prog: Seq<Seq<int>>, upto: int) -> Seq<char>
    decreases upto,
{
    if upto <= 0 {
        Seq::empty()
    } else {
        arcs_text(prog, upto - 1) + instr_arcs_text(
            prog[upto - 1],
            upto - 1,
            arcs_before(prog, upto - 1),
            prog[upto - 1].len() as int,
        )
    }
}

/// The net of a program with the state `regs` as its marking.
pub open spec fn net_text(prog: Seq<Seq<int>>, regs: Seq<int>) -> Seq<char> {
    "<?xml version=\"1.0\" encoding=\"UTF-8\"?>\n"@
        + "<pnml xmlns=\"http://www.pnml.org/version-2009/grammar/pnml\">\n"@
        + " <net id=\"pvas_net\" type=\"http://www.pnml.org/version-2009/grammar/ptnet\">\n"@
        + "  <page id=\"page0\">\n"@ + places_text(regs, regs.len() as int) + transitions_text(
        prog.len() as int,
    ) + arcs_text(prog, prog.len() as int) + "  </page>\n"@ + " </net>\n"@ + "</pnml>\n"@
}

/// The number of arcs of an instruction is at most its length.
pub proof fn lemma_arcs_in(instr: Seq<int>, upto: int)
    requires
        0 <= upto,
    ensures
        0 <= arcs_in(instr, upto) <= upto,
    decreases upto,
{
    if upto > 0 {
        lemma_arcs_in(instr, upto - 1);
    }
}

/// Whether the numbers of the net are machine integers: the positions of
/// the places and of the transitions, and the numbers of the arcs.
pub open spec fn net_fits(prog: Seq<Seq<int>>, regs: Seq<int>) -> bool {
    &&& 100 + regs.len() * 80 <= usize::MAX
    &&& 100 + prog.len() * 80 <= usize::MAX
    &&& forall|k: int| 0 <= k <= prog.len() ==> 0 <= #[trigger] arcs_before(prog, k) <= usize::MAX
}

/// The net of `prog` with `state` as its marking, in the Petri Net Markup
/// Language: see [`net_text`].
pub fn pnml_text(prog: &Program, state: &State) -> (r: String)
    requires
        net_fits(prog@, state@),
    ensures
        r@ == net_text(prog@, state@),
{
    let ghost code = prog@;
    let mut out = String::from_str("<?xml version=\"1.0\" encoding=\"UTF-8\"?>\n");
    out.append("<pnml xmlns=\"http://www.pnml.org/version-2009/grammar/pnml\">\n");
    out.append(" <net id=\"pvas_net\" type=\"http://www.pnml.org/version-2009/grammar/ptnet\">\n");
    out.append("  <page id=\"page0\">\n");

    let mut places = String::new();
    let mut i: usize = 0;
    while i < state.data.len()
        invariant
            0 <= i <= state.data@.len(),
            100 + state@.len() * 80 <= usize::MAX,
            places@ == places_text(state@, i as int),
        decreases state.data@.len() - i,
    {
        assert(state@[i as int] == integer_value(state.data@[i as int]));
        let mut p = String::from_str("   <place id=\"p");
        p.append(decimal(i).as_str());
        p.append("\">\n");
        p.append("    <name><text>p");
        p.append(decimal(i).as_str());
        p.append("</text></name>\n");
        p.append("    <initialMarking><text>");
        p.append(big_decimal(&state.data[i]).as_str());
        p.append("</text></initialMarking>\n");
        p.append("    <graphics><position x=\"");
        p.append(decimal(100 + i * 80).as_str());
        p.append("\" y=\"100\"/></graphics>\n");
        p.append("   </place>\n");
        places.append(p.as_str());
        i += 1;
    }
    out.append(places.as_str());

    let count = prog.instrs.len();
    let mut transitions = String::new();
    let mut k: usize = 0;
    while k < count
        invariant
            0 <= k <= count,
            100 + count * 80 <= usize::MAX,
            transitions@ == transitions_text(k as int),
        decreases count - k,
    {
        let mut t = String::from_str("   <transition id=\"t");
        t.append(decimal(k).as_str());
        t.append("\">\n");
        t.append("    <name><text>t");
        t.append(decimal(k).as_str());
        t.append("</text></name>\n");
        t.append("    <graphics><position x=\"");
        t.append(decimal(100 + k * 80).as_str());
        t.append("\" y=\"200\"/></graphics>\n");
        t.append("   </transition>\n");
        transitions.append(t.as_str());
        k += 1;
    }
    out.append(transitions.as_str());

    let mut arcs = String::new();
    let mut arc_num: usize = 0;
    let mut k: usize = 0;
    while k < count
        invariant
            0 <= k <= count,
            count == prog.instrs@.len(),
            code == prog@,
            forall|e: int| 0 <= e <= code.len() ==> 0 <= #[trigger] arcs_before(code, e) <= usize::MAX,
            arc_num == arcs_before(code, k as int),
            arcs@ == arcs_text(code, k as int),
        decreases count - k,
    {
        let instr = &prog.instrs[k];
        let ghost first = arc_num as int;
        let ghost row = code[k as int];
        proof {
            assert(row == instr@);
            assert(0 <= arcs_before(code, k + 1) <= usize::MAX);
        }
        let mut own = String::new();
        let mut place: usize = 0;
        while place < instr.data.len()
            invariant
                0 <= place <= instr.data@.len(),
                row == instr@,
                first + arcs_in(row, row.len() as int) <= usize::MAX,
                arc_num == first + arcs_in(row, place as int),
                own@ == instr_arcs_text(row, k as int, first, place as int),
            decreases instr.data@.len() - place,
        {
            let delta = instr.data[place];
            proof {
                assert(row[place as int] == delta);
                lemma_arcs_rise(row, place + 1, row.len() as int);
            }
            if delta != 0 {
                let mut a = String::from_str("   <arc id=\"a");
                a.append(decimal(arc_num).as_str());
                if delta < 0 {
                    a.append("\" source=\"p");
                    a.append(decimal(place).as_str());
                    a.append("\" target=\"t");
                    a.append(decimal(k).as_str());
                } else {
                    a.append("\" source=\"t");
                    a.append(decimal(k).as_str());
                    a.append("\" target=\"p");
                    a.append(decimal(place).as_str());
                }
                a.append("\">\n");
                a.append("    <inscription><text>");
                let size: usize = if delta < 0 {
                    (-(delta as i64)) as usize
                } else {
                    delta as usize
                };
                a.append(decimal(size).as_str());
                a.append("</text></inscription>\n");
                a.append("   </arc>\n");
                own.append(a.as_str());
                arc_num += 1;
            }
            place += 1;
        }
        arcs.append(own.as_str());
        k += 1;
    }
    out.append(arcs.as_str());
    out.append("  </page>\n");
    out.append(" </net>\n");
    out.append("</pnml>\n");
    out
}

/// There are no fewer arcs among more entries.
pub proof fn lemma_arcs_rise(instr: Seq<int>, from: int, upto: int)
    requires
        0 <= from <= upto,
    ensures
        arcs_in(instr, from) <= arcs_in(instr, upto),
    decreases upto - from,
{
    if from < upto {
        lemma_arcs_rise(instr, from, upto - 1);
    }
}

} // verus!

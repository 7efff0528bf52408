//! Reading the answer of a solver that was asked whether a program
//! can come to a state on which it halts.
use vstd::prelude::*;
use crate::text::{is_part_of, text_contains};

verus! {

/// What the solver's answer says of a program.
#[derive(Debug, PartialEq, Eq, Clone, Copy, Structural)]
pub enum DeciderResult {
    Halt,
    Infinite,
    Unknown,
}

/// What an answer of the solver means. The answer says that the
/// program never halts when it reports no deadlock, and that it halts when
/// it reports one and the model kept the priority of the instructions; a
/// model without the priority can come to a deadlock that the program
/// cannot. A missing or other answer says nothing.
pub open spec fn meaning_of(answer: Result<Seq<char>, Seq<char>>, ignore_priority: bool) -> DeciderResult {
    match answer {
        Err(_) => DeciderResult::Unknown,
        Ok(text) => if is_part_of("DEADLOCK: FALSE"@, text) {
            DeciderResult::Infinite
        } else if is_part_of("DEADLOCK: TRUE"@, text) && !ignore_priority {
            DeciderResult::Halt
        } else {
            DeciderResult::Unknown
        },
    }
}

/// The texts of the two cases of an answer.
pub open spec fn answer_view(answer: Result<String, String>) -> Result<Seq<char>, Seq<char>> {
    match answer {
        Ok(text) => Ok(text@),
        Err(text) => Err(text@),
    }
}

/// Reads the answer of the solver: see [`meaning_of`].
pub fn analyze_output(process_result: Result<String, String>, ignore_priority: bool) -> (r:
    DeciderResult)
    ensures
        r == meaning_of(answer_view(process_result), ignore_priority),
{
    match process_result {
        Err(_) => DeciderResult::Unknown,
        Ok(output_str) => {
            if text_contains(output_str.as_str(), "DEADLOCK: FALSE") {
                DeciderResult::Infinite
            } else if text_contains(output_str.as_str(), "DEADLOCK: TRUE") {
                if ignore_priority {
                    DeciderResult::Unknown
                } else {
                    DeciderResult::Halt
                }
            } else {
                DeciderResult::Unknown
            }
        },
    }
}

} // verus!

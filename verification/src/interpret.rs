//! From a program text to what the program does.

use crate::error::Error;
use crate::machine::{State, StateView};
use crate::parser::{parse, parse_spec};
use crate::runner::{execute, lines_of, Ending, Report, RunView};
use crate::semantics::{lemma_program_runs_as_machine, run_nodes, World};
use crate::token::tokens_of;
use vstd::prelude::*;

verus! {

/// Parses a program text and runs it from a blank tape for `budget` steps
/// at most, with `input` in place of what would be read line by line.
///
/// Fails with [`Error::MismatchedBrackets`] exactly where the text has no
/// tree. Else the result is the machine as the run has left it and what the
/// run did. Where the run has not stopped for want of budget, it has done
/// what the meaning of the program says.
pub fn interpret(source: &String, input: &Vec<String>, budget: u64) -> (result: Result<
    (State, Report),
    Error,
>)
    ensures
        match result {
            Err(e) => e == Error::MismatchedBrackets && parse_spec(tokens_of(source@)) is None,
            Ok((state, report)) => {
                &&& state.wf()
                &&& parse_spec(tokens_of(source@)) matches Some(program) && {
                    let lines = lines_of(input@);
                    let end = RunView::start(StateView::start(program), lines).steps(
                        budget as nat,
                    );
                    &&& state@ == end.state
                    &&& report.output@ == end.output
                    &&& lines.skip(report.lines_read as int) == end.input
                    &&& report.lines_read <= input.len()
                    &&& report.ending == if end.failed {
                        Ending::Failed(Error::InputParseError)
                    } else if end.state.halted() {
                        Ending::Halted
                    } else {
                        Ending::OutOfBudget
                    }
                    &&& report.ending != Ending::OutOfBudget ==> run_nodes(
                        program,
                        0,
                        World::start(lines),
                        budget as nat,
                    ) == Some(end.world())
                }
            },
        },
{
    match parse(source) {
        Err(e) => Err(e),
        Ok(tree) => {
            let mut state = State::new(tree);
            let ghost program = state@.program;
            let report = execute(&mut state, input, budget);
            proof {
                let start = RunView::start(StateView::start(program), lines_of(input@));
                if start.steps(budget as nat).ended() {
                    lemma_program_runs_as_machine(program, lines_of(input@), budget as nat);
                }
            }
            Ok((state, report))
        },
    }
}

} // verus!

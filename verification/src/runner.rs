//! Running a program on input that is given beforehand.

use crate::error::Error;
use crate::input::decode;
use crate::machine::{Action, State, StateView};
use vstd::prelude::*;

verus! {

/// The model of a run with its surroundings: the machine, the lines of
/// input that are still unread, what was written so far, and whether a line
/// that was read stood for no byte.
pub struct RunView {
    pub state: StateView,
    pub input: Seq<Seq<char>>,
    pub output: Seq<char>,
    pub failed: bool,
}

impl RunView {
    /// A machine with all of the input before it and nothing written.
    pub open spec fn start(state: StateView, input: Seq<Seq<char>>) -> RunView {
        RunView { state, input, output: Seq::empty(), failed: false }
    }

    /// The line that the next read instruction gets: the first that is
    /// unread, and an empty line when the input has ended.
    pub open spec fn next_line(self) -> Seq<char> {
        if self.input.len() > 0 {
            self.input[0]
        } else {
            Seq::empty()
        }
    }

    /// The input without the line that the next read instruction gets.
    pub open spec fn later_lines(self) -> Seq<Seq<char>> {
        if self.input.len() > 0 {
            self.input.skip(1)
        } else {
            self.input
        }
    }

    /// The run has come to its end: the program has, or a read has failed.
    pub open spec fn ended(self) -> bool {
        self.failed || self.state.halted()
    }

    /// What the caller of the machine makes of a step that has led to
    /// `state` with `action`: a character is written, or a line is read
    /// and stored. A line that stands for no byte makes the run fail.
    pub open spec fn react(self, state: StateView, action: Action) -> RunView {
        match action {
            Action::Output(c) => RunView {
                state,
                input: self.input,
                output: self.output.push(c),
                failed: false,
            },
            Action::Input => match decode(self.next_line()) {
                Some(value) => RunView {
                    state: state.store(value),
                    input: self.later_lines(),
                    output: self.output,
                    failed: false,
                },
                None => RunView {
                    state,
                    input: self.later_lines(),
                    output: self.output,
                    failed: true,
                },
            },
            _ => RunView { state, input: self.input, output: self.output, failed: false },
        }
    }

    /// One step of the machine together with what its action asks for. A
    /// failed run stands still.
    pub open spec fn step(self) -> RunView {
        if self.failed {
            self
        } else {
            self.react(self.state.next(), self.state.action())
        }
    }

    /// The run after `count` steps.
    pub open spec fn steps(self, count: nat) -> RunView
        decreases count,
    {
        if count == 0 {
            self
        } else {
            self.step().steps((count - 1) as nat)
        }
    }

    /// A step keeps the machine valid.
    pub proof fn lemma_step_valid(self)
        requires
            self.state.valid(),
        ensures
            self.step().state.valid(),
            self.step().state.program == self.state.program,
    {
        self.state.lemma_next_valid();
        self.state.lemma_next_keeps();
        if let Some(value) = decode(self.next_line()) {
            self.state.next().lemma_store_valid(value);
        }
    }

    /// Steps keep the machine valid.
    pub proof fn lemma_steps_valid(self, count: nat)
        requires
            self.state.valid(),
        ensures
            self.steps(count).state.valid(),
            self.steps(count).state.program == self.state.program,
        decreases count,
    {
        if count > 0 {
            self.lemma_step_valid();
            self.step().lemma_steps_valid((count - 1) as nat);
        }
    }

    /// A run that has come to its end stays as it is.
    pub proof fn lemma_ended_stays(self, count: nat)
        requires
            self.ended(),
        ensures
            self.steps(count) == self,
        decreases count,
    {
        if count > 0 {
            self.lemma_ended_stays((count - 1) as nat);
        }
    }

    /// What [`crate::machine::run`] does, together with what its caller
    /// makes of the action that it gives, is a number of steps of the run,
    /// no more than the budget.
    pub proof fn lemma_run_is_steps(self, budget: nat) -> (count: nat)
        requires
            !self.failed,
        ensures
            count <= budget,
            self.steps(count) == self.react(self.state.run(budget).0, self.state.run(budget).1),
        decreases budget,
    {
        if budget == 0 {
            0
        } else if self.state.action() != Action::Continue {
            assert(self.step().steps(0) == self.step());
            1
        } else {
            let next = self.step();
            let count = next.lemma_run_is_steps((budget - 1) as nat);
            count + 1
        }
    }

    /// Steps taken one after the other add up.
    pub proof fn lemma_steps_add(self, first: nat, then: nat)
        ensures
            self.steps(first + then) == self.steps(first).steps(then),
        decreases first,
    {
        if first > 0 {
            self.step().lemma_steps_add((first - 1) as nat, then);
        }
    }
}

/// How a run on given input came to stop.
#[derive(Clone, Copy, Debug, PartialEq, Eq)]
pub enum Ending {
    /// The program ran to its end.
    Halted,
    /// A read instruction got a line that stands for no byte.
    Failed(Error),
    /// The budget of steps was used up first.
    OutOfBudget,
}

/// What a run on given input did.
#[derive(Debug)]
pub struct Report {
    /// The characters that the program wrote, in their order.
    pub output: Vec<char>,
    /// How many lines of the input the program read.
    pub lines_read: usize,
    /// How the run came to stop.
    pub ending: Ending,
}

/// The lines of an input as sequences of characters.
pub open spec fn lines_of(input: Seq<String>) -> Seq<Seq<char>> {
    input.map_values(|line: String| line@)
}

/// Runs the machine for `budget` steps at most, with `input` in place of
/// what would be read line by line, and collects what is written.
///
/// Each read instruction takes the next line of `input`, and an empty line
/// once they are used up. The run stops early where the program ends or a
/// line stands for no byte.
pub fn execute(state: &mut State, input: &Vec<String>, budget: u64) -> (report: Report)
    requires
        old(state).wf(),
    ensures
        final(state).wf(),
        ({
            let end = RunView::start(old(state)@, lines_of(input@)).steps(budget as nat);
            &&& final(state)@ == end.state
            &&& report.output@ == end.output
            &&& lines_of(input@).skip(report.lines_read as int) == end.input
            &&& report.lines_read <= input.len()
            &&& report.ending == if end.failed {
                Ending::Failed(Error::InputParseError)
            } else if end.state.halted() {
                Ending::Halted
            } else {
                Ending::OutOfBudget
            }
        }),
{
    let ghost all = lines_of(input@);
    let ghost goal = RunView::start(state@, all).steps(budget as nat);
    let mut output: Vec<char> = Vec::new();
    let mut lines_read: usize = 0;
    let mut left: u64 = budget;
    proof {
        assert(all.skip(0) =~= all);
    }
    while left > 0 && !state.halted()
        invariant
            state.wf(),
            all == lines_of(input@),
            lines_read <= input.len(),
            goal == RunView::start(old(state)@, all).steps(budget as nat),
            goal == (RunView {
                state: state@,
                input: all.skip(lines_read as int),
                output: output@,
                failed: false,
            }).steps(left as nat),
        decreases left,
    {
        let ghost now = RunView {
            state: state@,
            input: all.skip(lines_read as int),
            output: output@,
            failed: false,
        };
        match state.step() {
            Action::Output(c) => {
                output.push(c);
            },
            Action::Input => {
                let stored = if lines_read < input.len() {
                    proof {
                        assert(now.next_line() == input@[lines_read as int]@);
                        assert(now.later_lines() =~= all.skip(lines_read + 1));
                    }
                    lines_read += 1;
                    state.input(input[lines_read - 1].as_str())
                } else {
                    proof {
                        reveal_strlit("");
                        assert(""@ =~= Seq::<char>::empty());
                    }
                    state.input("")
                };
                match stored {
                    Ok(()) => {},
                    Err(e) => {
                        proof {
                            now.step().lemma_ended_stays((left - 1) as nat);
                        }
                        return Report { output, lines_read, ending: Ending::Failed(e) };
                    },
                }
            },
            _ => {},
        }
        left -= 1;
    }
    proof {
        let now = RunView {
            state: state@,
            input: all.skip(lines_read as int),
            output: output@,
            failed: false,
        };
        if left > 0 {
            now.lemma_ended_stays(left as nat);
        }
    }
    let ending = if state.halted() {
        Ending::Halted
    } else {
        Ending::OutOfBudget
    };
    Report { output, lines_read, ending }
}

} // verus!

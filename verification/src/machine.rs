//! The machine: a program, a tape and the place that the run has reached.

use crate::error::Error;
use crate::input::{decode, decode_input};
use crate::syntax::{copy_items, lemma_view_loop, program_of, Node, SyntaxItem};
use crate::tape::{Tape, TapeView};
use crate::token::Token;
use vstd::prelude::*;

verus! {

/// What the caller has to do after a step of the machine.
#[derive(Clone, Copy, Debug, PartialEq, Eq)]
pub enum Action {
    /// Nothing: the run goes on.
    Continue,
    /// Write this character and flush the output.
    Output(char),
    /// Read one line and hand it to [`State::input`].
    Input,
    /// Nothing: the program has ended.
    Halt,
}

/// The sequence of nodes that a path leads into: the program for the empty
/// path, and for a longer one the body of the loop that its last index
/// picks in the sequence before.
pub open spec fn block_at(program: Seq<Node>, path: Seq<int>) -> Seq<Node>
    decreases path.len(),
{
    if path.len() == 0 {
        program
    } else {
        let outer = block_at(program, path.drop_last());
        let index = path.last();
        if 0 <= index < outer.len() {
            match outer[index] {
                Node::Loop(body) => body,
                Node::Leaf(_) => Seq::empty(),
            }
        } else {
            Seq::empty()
        }
    }
}

/// The model of a [`State`].
///
/// The place of the run is a path: one index for the program and one for
/// the body of each loop that is being run, from the outermost to the
/// innermost. The last index is that of the node to run next; all before it
/// are those of the loops entered.
pub struct StateView {
    pub tape: TapeView,
    pub program: Seq<Node>,
    pub path: Seq<int>,
}

impl StateView {
    /// A program on a blank tape, before its first node.
    pub open spec fn start(program: Seq<Node>) -> StateView {
        StateView { tape: TapeView::blank(), program, path: seq![0int] }
    }

    /// The index at depth `k` lies in its sequence of nodes, or just behind
    /// it if it is the last, and all but the last pick a loop.
    pub open spec fn valid_at(self, k: int) -> bool {
        let block = block_at(self.program, self.path.take(k));
        &&& 0 <= self.path[k] <= block.len()
        &&& k < self.path.len() - 1 ==> self.path[k] < block.len() && block[self.path[k]] is Loop
    }

    /// The pointer is on a cell and the path leads through the program.
    pub open spec fn valid(self) -> bool {
        &&& self.tape.valid()
        &&& self.path.len() >= 1
        &&& forall|k: int| 0 <= k < self.path.len() ==> #[trigger] self.valid_at(k)
    }

    /// The innermost sequence of nodes that is being run.
    pub open spec fn block(self) -> Seq<Node> {
        block_at(self.program, self.path.drop_last())
    }

    /// The index in [`StateView::block`] of the node to run next.
    pub open spec fn index(self) -> int {
        self.path.last()
    }

    /// The innermost sequence has been run to its end.
    pub open spec fn at_end(self) -> bool {
        self.index() >= self.block().len()
    }

    /// The node to run next, where there is one.
    pub open spec fn node(self) -> Node {
        self.block()[self.index()]
    }

    /// The whole program has been run.
    pub open spec fn halted(self) -> bool {
        self.at_end() && self.path.len() <= 1
    }

    /// The same state with `value` in the cell under the pointer.
    pub open spec fn store(self, value: u8) -> StateView {
        StateView { tape: self.tape.store(value), program: self.program, path: self.path }
    }

    /// The same state one node further in the innermost sequence.
    pub open spec fn moved_on(self) -> StateView {
        StateView {
            tape: self.tape,
            program: self.program,
            path: self.path.update(self.path.len() - 1, self.index() + 1),
        }
    }

    /// The state after one step.
    ///
    /// An instruction is applied to the tape and passed. A loop is entered
    /// if the cell under the pointer is not 0, and passed if it is. At the
    /// end of a loop's body the run goes back to the loop, which is then
    /// tested again. At the end of the program nothing changes.
    pub open spec fn next(self) -> StateView {
        if self.at_end() {
            if self.path.len() <= 1 {
                self
            } else {
                StateView { tape: self.tape, program: self.program, path: self.path.drop_last() }
            }
        } else {
            match self.node() {
                Node::Leaf(token) => StateView {
                    tape: self.tape.apply(token),
                    program: self.program,
                    path: self.path,
                }.moved_on(),
                Node::Loop(_) => if self.tape.current() != 0 {
                    StateView { tape: self.tape, program: self.program, path: self.path.push(0) }
                } else {
                    self.moved_on()
                },
            }
        }
    }

    /// What the caller has to do after the step from this state: write the
    /// value under the pointer for a write instruction, read a line for a
    /// read instruction, stop at the end of the program, else nothing.
    pub open spec fn action(self) -> Action {
        if self.at_end() {
            if self.path.len() <= 1 {
                Action::Halt
            } else {
                Action::Continue
            }
        } else {
            match self.node() {
                Node::Leaf(Token::Output) => Action::Output(self.tape.current() as char),
                Node::Leaf(Token::Input) => Action::Input,
                _ => Action::Continue,
            }
        }
    }

    /// The state and the action after as many steps as it takes to come to
    /// an action other than [`Action::Continue`], and after `budget` steps
    /// at most.
    pub open spec fn run(self, budget: nat) -> (StateView, Action)
        decreases budget,
    {
        if budget == 0 {
            (self, Action::Continue)
        } else if self.action() != Action::Continue {
            (self.next(), self.action())
        } else {
            self.next().run((budget - 1) as nat)
        }
    }

    /// A step keeps the pointer on the tape and the path in the program.
    pub proof fn lemma_next_valid(self)
        requires
            self.valid(),
        ensures
            self.next().valid(),
    {
        let next = self.next();
        let last = self.path.len() - 1;
        assert(self.valid_at(last));
        assert(self.path.take(last) =~= self.path.drop_last());
        assert forall|k: int| 0 <= k < next.path.len() implies #[trigger] next.valid_at(k) by {
            if k <= last {
                assert(self.valid_at(k));
                assert(next.path.take(k) =~= self.path.take(k));
            } else {
                assert(next.path.take(k) =~= self.path);
                assert(self.path.drop_last() =~= self.path.take(last));
            }
        }
    }

    /// A step changes neither the program nor takes a cell from the tape.
    pub proof fn lemma_next_keeps(self)
        requires
            self.valid(),
        ensures
            self.next().program == self.program,
            self.next().tape.cells.len() >= self.tape.cells.len(),
    {
        if !self.at_end() {
            if let Node::Leaf(token) = self.node() {
                self.tape.lemma_apply_valid(token);
            }
        }
    }

    /// A loop that is reached with 0 under the pointer is passed in one
    /// step: its body is not entered and the tape stays as it is.
    pub proof fn lemma_loop_on_zero_is_passed(self)
        requires
            self.valid(),
            !self.at_end(),
            self.node() is Loop,
            self.tape.current() == 0,
        ensures
            self.next() == self.moved_on(),
            self.next().tape == self.tape,
            self.next().path.len() == self.path.len(),
            self.action() == Action::Continue,
    {
    }

    /// A loop that is reached with another value under the pointer is
    /// entered: the next step is at the first node of its body, and the
    /// tape stays as it is.
    pub proof fn lemma_loop_on_nonzero_is_entered(self)
        requires
            self.valid(),
            !self.at_end(),
            self.node() is Loop,
            self.tape.current() != 0,
        ensures
            self.next().tape == self.tape,
            self.next().block() == self.node()->Loop_0,
            self.next().index() == 0,
            self.action() == Action::Continue,
    {
        assert(self.path.push(0).drop_last() =~= self.path);
        assert(self.valid_at(self.path.len() - 1));
    }

    /// At the end of a loop's body the run is back at the loop, which is
    /// then tested again.
    pub proof fn lemma_body_end_goes_back(self)
        requires
            self.valid(),
            self.at_end(),
            self.path.len() > 1,
        ensures
            self.next().tape == self.tape,
            !self.next().at_end(),
            self.next().node() == Node::Loop(self.block()),
            self.action() == Action::Continue,
    {
        let k = self.path.len() - 2;
        assert(self.valid_at(k));
        assert(self.path.take(k) =~= self.path.drop_last().drop_last());
    }

    /// Storing a value keeps the pointer on the tape and the path in the
    /// program.
    pub proof fn lemma_store_valid(self, value: u8)
        requires
            self.valid(),
        ensures
            self.store(value).valid(),
    {
        let stored = self.store(value);
        assert forall|k: int| 0 <= k < stored.path.len() implies #[trigger] stored.valid_at(k) by {
            assert(self.valid_at(k));
        }
    }

    /// A run keeps the pointer on the tape and the path in the program.
    pub proof fn lemma_run_valid(self, budget: nat)
        requires
            self.valid(),
        ensures
            self.run(budget).0.valid(),
        decreases budget,
    {
        self.lemma_next_valid();
        if budget > 0 && self.action() == Action::Continue {
            self.next().lemma_run_valid((budget - 1) as nat);
        }
    }
}

/// A program with its tape and the place that its run has reached.
#[derive(Debug)]
pub struct State {
    tape: Tape,
    commands: Vec<SyntaxItem>,
    path: Vec<usize>,
}

impl Clone for State {
    fn clone(&self) -> (copy: Self)
        ensures
            copy@ == self@,
            self.wf() ==> copy.wf(),
    {
        let path = self.path.clone();
        proof {
            assert(path@ =~= self.path@);
        }
        State { tape: self.tape.clone(), commands: copy_items(&self.commands), path }
    }
}

impl View for State {
    type V = StateView;

    closed spec fn view(&self) -> StateView {
        StateView {
            tape: self.tape@,
            program: program_of(self.commands@),
            path: self.path@.map_values(|i: usize| i as int),
        }
    }
}

/// What stands at the place of the run.
enum Fetched {
    End,
    Leaf(Token),
    Loop,
}

impl State {
    /// The pointer is on a cell and the path leads through the program.
    /// Every state that this library hands out is well formed.
    pub closed spec fn wf(&self) -> bool {
        self.tape.wf() && self@.valid()
    }

    /// A well-formed state has a valid model.
    pub proof fn lemma_wf_valid(&self)
        requires
            self.wf(),
        ensures
            self@.valid(),
    {
    }

    /// A program on a blank tape, before its first node.
    pub fn new(commands: Vec<SyntaxItem>) -> (state: State)
        ensures
            state.wf(),
            state@ == StateView::start(program_of(commands@)),
    {
        let mut path: Vec<usize> = Vec::new();
        path.push(0);
        let state = State { tape: Tape::new(), commands, path };
        proof {
            assert(state@.path =~= seq![0int]);
            assert(state@.path.take(0) =~= Seq::<int>::empty());
            assert(state@.valid_at(0));
        }
        state
    }

    /// The tape.
    pub fn tape(&self) -> (tape: &Tape)
        ensures
            tape@ == self@.tape,
            self.wf() ==> tape.wf(),
    {
        &self.tape
    }

    /// The program.
    pub fn commands(&self) -> (commands: &Vec<SyntaxItem>)
        ensures
            program_of(commands@) == self@.program,
    {
        &self.commands
    }

    /// Looks up what stands at the place of the run.
    fn fetch(&self) -> (fetched: Fetched)
        requires
            self.wf(),
        ensures
            self@.block().len() <= usize::MAX,
            match fetched {
                Fetched::End => self@.at_end(),
                Fetched::Leaf(token) => !self@.at_end() && self@.node() == Node::Leaf(token),
                Fetched::Loop => !self@.at_end() && self@.node() is Loop,
            },
    {
        let last = self.path.len() - 1;
        let mut block: &Vec<SyntaxItem> = &self.commands;
        let mut k: usize = 0;
        proof {
            assert(self@.path.take(0) =~= Seq::<int>::empty());
        }
        while k < last
            invariant
                self.wf(),
                k <= last == self.path.len() - 1,
                program_of(block@) == block_at(self@.program, self@.path.take(k as int)),
            decreases last - k,
        {
            proof {
                assert(self@.valid_at(k as int));
                assert(self@.path.take(k + 1).drop_last() =~= self@.path.take(k as int));
            }
            let index = self.path[k];
            match &block[index] {
                SyntaxItem::Loop(body) => {
                    proof {
                        lemma_view_loop(*body);
                    }
                    block = body;
                },
                // Not reached: a valid path leads through loops only.
                SyntaxItem::Single(_) => {},
            }
            k += 1;
        }
        proof {
            assert(self@.valid_at(last as int));
            assert(self@.path.take(last as int) =~= self@.path.drop_last());
        }
        let index = self.path[last];
        if index >= block.len() {
            Fetched::End
        } else {
            match &block[index] {
                SyntaxItem::Single(token) => Fetched::Leaf(*token),
                SyntaxItem::Loop(body) => {
                    proof {
                        lemma_view_loop(*body);
                    }
                    Fetched::Loop
                },
            }
        }
    }

    /// Tells whether the whole program has been run.
    pub fn halted(&self) -> (halted: bool)
        requires
            self.wf(),
        ensures
            halted == self@.halted(),
    {
        match self.fetch() {
            Fetched::End => self.path.len() <= 1,
            _ => false,
        }
    }

    /// Moves the place of the run one node further.
    fn advance(&mut self)
        requires
            old(self).path.len() >= 1,
            old(self).path@.last() < usize::MAX,
        ensures
            final(self).tape == old(self).tape,
            final(self).commands == old(self).commands,
            final(self)@ == old(self)@.moved_on(),
    {
        let last = self.path.len() - 1;
        let index = self.path[last];
        self.path[last] = index + 1;
        proof {
            assert(self@.path =~= old(self)@.moved_on().path);
        }
    }

    /// Takes one step of the run and says what the caller has to do.
    ///
    /// The machine neither reads nor writes. At a write instruction it hands
    /// out the character to write. At a read instruction it asks for a line,
    /// which the caller stores with [`State::input`] before the next step.
    pub fn step(&mut self) -> (action: Action)
        requires
            old(self).wf(),
        ensures
            final(self).wf(),
            final(self)@ == old(self)@.next(),
            action == old(self)@.action(),
    {
        proof {
            self@.lemma_next_valid();
        }
        let fetched = self.fetch();
        match fetched {
            Fetched::End => {
                if self.path.len() <= 1 {
                    Action::Halt
                } else {
                    self.path.pop();
                    proof {
                        assert(self@.path =~= old(self)@.path.drop_last());
                    }
                    Action::Continue
                }
            },
            Fetched::Leaf(token) => {
                let action = match token {
                    Token::Output => Action::Output(self.tape.get() as char),
                    Token::Input => Action::Input,
                    _ => Action::Continue,
                };
                self.tape.apply(token);
                self.advance();
                action
            },
            Fetched::Loop => {
                if self.tape.get() != 0 {
                    self.path.push(0);
                    proof {
                        assert(self@.path =~= old(self)@.path.push(0));
                    }
                } else {
                    self.advance();
                }
                Action::Continue
            },
        }
    }

    /// Stores what a line of input stands for in the cell under the pointer.
    ///
    /// Fails with [`Error::InputParseError`], and changes nothing, exactly
    /// where the line is empty but for white space.
    pub fn input(&mut self, line: &str) -> (result: Result<(), Error>)
        requires
            old(self).wf(),
        ensures
            final(self).wf(),
            match decode(line@) {
                Some(value) => result is Ok && final(self)@ == old(self)@.store(value),
                None => result == Err::<(), Error>(Error::InputParseError) && final(self)@ == old(
                    self,
                )@,
            },
    {
        match decode_input(line) {
            Ok(value) => {
                proof {
                    self@.lemma_store_valid(value);
                }
                self.tape.set(value);
                Ok(())
            },
            Err(e) => Err(e),
        }
    }
}

/// Runs the machine up to its next action other than [`Action::Continue`],
/// and for `budget` steps at most.
///
/// The result is [`Action::Continue`] exactly where the budget was used up
/// first: the caller may then call again.
pub fn run(state: &mut State, budget: u64) -> (action: Action)
    requires
        old(state).wf(),
    ensures
        final(state).wf(),
        (final(state)@, action) == old(state)@.run(budget as nat),
{
    let mut left: u64 = budget;
    while left > 0
        invariant
            state.wf(),
            old(state)@.run(budget as nat) == state@.run(left as nat),
        decreases left,
    {
        let action = state.step();
        match action {
            Action::Continue => {},
            _ => {
                return action;
            },
        }
        left -= 1;
    }
    Action::Continue
}

} // verus!

//! The meaning of a program, and that the machine runs programs by it.
//!
//! The meaning is given node by node: an instruction changes the tape,
//! reads a line or writes a character; a loop runs its body again and again
//! for as long as the cell under the pointer is not 0. The machine of
//! [`crate::machine`] takes the same way through a program in single steps.

use crate::input::decode;
use crate::machine::StateView;
use crate::runner::RunView;
use crate::syntax::Node;
use crate::tape::TapeView;
use crate::token::Token;
use vstd::prelude::*;

verus! {

/// What a program works on: the tape, the lines of input that are still
/// unread, what was written so far, and whether a line that was read stood
/// for no byte.
pub struct World {
    pub tape: TapeView,
    pub input: Seq<Seq<char>>,
    pub output: Seq<char>,
    pub failed: bool,
}

impl World {
    /// A blank tape with all of the input before it and nothing written.
    pub open spec fn start(input: Seq<Seq<char>>) -> World {
        World { tape: TapeView::blank(), input, output: Seq::empty(), failed: false }
    }

    /// The line that the next read instruction gets: the first that is
    /// unread, and an empty line when the input has ended.
    pub open spec fn next_line(self) -> Seq<char> {
        if self.input.len() > 0 {
            self.input[0]
        } else {
            Seq::empty()
        }
    }

    /// The input without the line that the next read instruction gets.
    pub open spec fn later_lines(self) -> Seq<Seq<char>> {
        if self.input.len() > 0 {
            self.input.skip(1)
        } else {
            self.input
        }
    }

    /// What one instruction does. A write instruction writes the character
    /// whose code point is the value under the pointer. A read instruction
    /// takes a line and stores the byte that it stands for; where it stands
    /// for none, the run has failed. Every other instruction works on the
    /// tape alone.
    pub open spec fn apply(self, token: Token) -> World {
        match token {
            Token::Output => World {
                tape: self.tape,
                input: self.input,
                output: self.output.push(self.tape.current() as char),
                failed: self.failed,
            },
            Token::Input => match decode(self.next_line()) {
                Some(value) => World {
                    tape: self.tape.store(value),
                    input: self.later_lines(),
                    output: self.output,
                    failed: self.failed,
                },
                None => World {
                    tape: self.tape,
                    input: self.later_lines(),
                    output: self.output,
                    failed: true,
                },
            },
            _ => World {
                tape: self.tape.apply(token),
                input: self.input,
                output: self.output,
                failed: self.failed,
            },
        }
    }
}

/// What running the nodes from index `from` on does, one after the other.
/// Nothing more is run once a read has failed.
///
/// `fuel` bounds how deep loop passes may follow on one another; the result
/// is `None` where it does not suffice.
pub open spec fn run_nodes(nodes: Seq<Node>, from: int, world: World, fuel: nat) -> Option<World>
    decreases fuel, nodes, nodes.len() - from,
{
    if world.failed || from < 0 || from >= nodes.len() {
        Some(world)
    } else {
        match run_node(nodes[from], world, fuel) {
            Some(after) => run_nodes(nodes, from + 1, after, fuel),
            None => None,
        }
    }
}

/// What running one node does. A leaf does what its instruction does. A
/// loop tests the cell under the pointer: if it holds 0 the loop is done,
/// and if not its body is run once and the loop is run again.
pub open spec fn run_node(node: Node, world: World, fuel: nat) -> Option<World>
    decreases fuel, node, 0int,
{
    match node {
        Node::Leaf(token) => Some(world.apply(token)),
        Node::Loop(body) => if world.failed || world.tape.current() == 0 {
            Some(world)
        } else if fuel == 0 {
            None
        } else {
            match run_nodes(body, 0, world, (fuel - 1) as nat) {
                Some(after) => run_node(node, after, (fuel - 1) as nat),
                None => None,
            }
        },
    }
}

/// Once the fuel suffices for a node, more of it changes nothing.
pub proof fn lemma_run_node_more_fuel(node: Node, world: World, fuel: nat, more: nat)
    requires
        run_node(node, world, fuel) is Some,
        fuel <= more,
    ensures
        run_node(node, world, more) == run_node(node, world, fuel),
    decreases fuel, node, 0int,
{
    if let Node::Loop(body) = node {
        if !world.failed && world.tape.current() != 0 {
            let after = run_nodes(body, 0, world, (fuel - 1) as nat).unwrap();
            lemma_run_nodes_more_fuel(body, 0, world, (fuel - 1) as nat, (more - 1) as nat);
            lemma_run_node_more_fuel(node, after, (fuel - 1) as nat, (more - 1) as nat);
        }
    }
}

/// Once the fuel suffices for a sequence of nodes, more of it changes
/// nothing.
pub proof fn lemma_run_nodes_more_fuel(
    nodes: Seq<Node>,
    from: int,
    world: World,
    fuel: nat,
    more: nat,
)
    requires
        run_nodes(nodes, from, world, fuel) is Some,
        fuel <= more,
    ensures
        run_nodes(nodes, from, world, more) == run_nodes(nodes, from, world, fuel),
    decreases fuel, nodes, nodes.len() - from,
{
    if !(world.failed || from < 0 || from >= nodes.len()) {
        let after = run_node(nodes[from], world, fuel).unwrap();
        lemma_run_node_more_fuel(nodes[from], world, fuel, more);
        lemma_run_nodes_more_fuel(nodes, from + 1, after, fuel, more);
    }
}

/// A loop that is reached with 0 under the pointer does nothing: its body
/// is not run once, whatever it holds.
pub proof fn lemma_loop_on_zero_does_nothing(body: Seq<Node>, world: World, fuel: nat)
    requires
        world.tape.current() == 0,
    ensures
        run_node(Node::Loop(body), world, fuel) == Some(world),
{
}

/// A loop that is reached with another value under the pointer runs its
/// body once and is then a loop on what the body has left.
pub proof fn lemma_loop_on_nonzero_runs_body(body: Seq<Node>, world: World, fuel: nat)
    requires
        !world.failed,
        world.tape.current() != 0,
        run_nodes(body, 0, world, fuel) is Some,
    ensures
        run_node(Node::Loop(body), world, fuel + 1) == run_node(
            Node::Loop(body),
            run_nodes(body, 0, world, fuel).unwrap(),
            fuel,
        ),
{
}

impl RunView {
    /// What the program works on in this run.
    pub open spec fn world(self) -> World {
        World {
            tape: self.state.tape,
            input: self.input,
            output: self.output,
            failed: self.failed,
        }
    }

    /// The machine runs the node at its place as the meaning of the node
    /// says: after `count` steps it has done to the tape, the input and the
    /// output what the node does, and stands behind the node.
    pub proof fn lemma_node_steps(self, fuel: nat) -> (count: nat)
        requires
            self.state.valid(),
            !self.failed,
            !self.state.at_end(),
            run_node(self.state.node(), self.world(), fuel) is Some,
        ensures
            ({
                let end = self.steps(count);
                let world = run_node(self.state.node(), self.world(), fuel).unwrap();
                &&& end.world() == world
                &&& end.state.valid()
                &&& end.state.program == self.state.program
                &&& !world.failed ==> end.state.path == self.state.moved_on().path
            }),
        decreases fuel, self.state.node(), 0int,
    {
        let state = self.state;
        let after = self.step();
        self.lemma_step_valid();
        assert(self.steps(1) == after) by {
            assert(after.steps(0) == after);
        }
        match state.node() {
            Node::Leaf(token) => {
                assert(after.world() == self.world().apply(token));
                assert(after.state.path == state.moved_on().path);
                1
            },
            Node::Loop(body) => {
                if state.tape.current() == 0 {
                    assert(after.world() == self.world());
                    assert(after.state.path == state.moved_on().path);
                    1
                } else {
                    state.lemma_loop_on_nonzero_is_entered();
                    let inner = after.lemma_nodes_steps((fuel - 1) as nat);
                    let done = after.steps(inner);
                    self.lemma_steps_add(1, inner);
                    let world = run_nodes(body, 0, self.world(), (fuel - 1) as nat).unwrap();
                    if world.failed {
                        assert(done.world() == world);
                        assert(run_node(state.node(), world, (fuel - 1) as nat) == Some(world));
                        1 + inner
                    } else {
                        let back = done.step();
                        assert(done.state.path.drop_last() =~= state.path);
                        done.lemma_step_valid();
                        done.state.lemma_body_end_goes_back();
                        assert(done.steps(1) == back) by {
                            assert(back.steps(0) == back);
                        }
                        self.lemma_steps_add(1 + inner, 1);
                        assert(back.state.path =~= state.path);
                        assert(back.world() == world);
                        assert(back.state.node() == state.node());
                        let again = back.lemma_node_steps((fuel - 1) as nat);
                        self.lemma_steps_add(1 + inner + 1, again);
                        assert(back.state.moved_on().path =~= state.moved_on().path);
                        1 + inner + 1 + again
                    }
                }
            },
        }
    }

    /// The machine runs the nodes from its place to the end of their
    /// sequence as their meaning says: after `count` steps it has done what
    /// they do, and stands at the end of the sequence.
    pub proof fn lemma_nodes_steps(self, fuel: nat) -> (count: nat)
        requires
            self.state.valid(),
            run_nodes(self.state.block(), self.state.index(), self.world(), fuel) is Some,
        ensures
            ({
                let end = self.steps(count);
                let world = run_nodes(
                    self.state.block(),
                    self.state.index(),
                    self.world(),
                    fuel,
                ).unwrap();
                &&& end.world() == world
                &&& end.state.valid()
                &&& end.state.program == self.state.program
                &&& !world.failed ==> end.state.path == self.state.path.update(
                    self.state.path.len() - 1,
                    self.state.block().len() as int,
                )
            }),
        decreases fuel, self.state.block(), self.state.block().len() - self.state.index(),
    {
        let state = self.state;
        let last = state.path.len() - 1;
        assert(state.valid_at(last));
        assert(state.path.take(last) =~= state.path.drop_last());
        if self.failed || state.at_end() {
            if state.at_end() {
                assert(state.path.update(last, state.block().len() as int) =~= state.path);
            }
            0
        } else {
            let first = self.lemma_node_steps(fuel);
            let mid = self.steps(first);
            let world = run_node(state.node(), self.world(), fuel).unwrap();
            if world.failed {
                first
            } else {
                assert(mid.state.path.drop_last() =~= state.path.drop_last());
                let rest = mid.lemma_nodes_steps(fuel);
                self.lemma_steps_add(first, rest);
                assert(mid.state.path.update(last, state.block().len() as int)
                    =~= state.path.update(last, state.block().len() as int));
                first + rest
            }
        }
    }

    /// A run that has not come to its end had not come to it earlier.
    pub proof fn lemma_not_ended_before(self, count: nat, later: nat)
        requires
            count <= later,
            !self.steps(later).ended(),
        ensures
            !self.steps(count).ended(),
    {
        if self.steps(count).ended() {
            self.lemma_steps_beyond(count, later);
        }
    }

    /// Where the meaning of the node at the machine's place needs more
    /// than `fuel`, the machine has not come to an end after `fuel` steps.
    pub proof fn lemma_node_needs_steps(self, fuel: nat)
        requires
            self.state.valid(),
            !self.failed,
            !self.state.at_end(),
            run_node(self.state.node(), self.world(), fuel) is None,
        ensures
            !self.steps(fuel).ended(),
        decreases fuel, self.state.node(), 0int,
    {
        let state = self.state;
        if fuel > 0 {
            let body = state.node()->Loop_0;
            let after = self.step();
            self.lemma_step_valid();
            state.lemma_loop_on_nonzero_is_entered();
            match run_nodes(body, 0, self.world(), (fuel - 1) as nat) {
                None => {
                    after.lemma_nodes_need_steps((fuel - 1) as nat);
                },
                Some(world) => {
                    let inner = after.lemma_nodes_steps((fuel - 1) as nat);
                    let done = after.steps(inner);
                    let back = done.step();
                    assert(!world.failed) by {
                        if world.failed {
                            assert(run_node(state.node(), world, (fuel - 1) as nat) is Some);
                        }
                    }
                    assert(done.state.path.drop_last() =~= state.path);
                    done.lemma_step_valid();
                    done.state.lemma_body_end_goes_back();
                    assert(back.state.path =~= state.path);
                    assert(back.world() == world);
                    assert(back.state.node() == state.node());
                    back.lemma_node_needs_steps((fuel - 1) as nat);
                    assert(done.steps(fuel) == back.steps((fuel - 1) as nat));
                    after.lemma_steps_add(inner, fuel);
                    after.lemma_not_ended_before((fuel - 1) as nat, inner + fuel);
                },
            }
        }
    }

    /// Where the meaning of the nodes from the machine's place on needs
    /// more than `fuel`, the machine has not come to an end after `fuel`
    /// steps.
    pub proof fn lemma_nodes_need_steps(self, fuel: nat)
        requires
            self.state.valid(),
            run_nodes(self.state.block(), self.state.index(), self.world(), fuel) is None,
        ensures
            !self.steps(fuel).ended(),
        decreases fuel, self.state.block(), self.state.block().len() - self.state.index(),
    {
        let state = self.state;
        let last = state.path.len() - 1;
        assert(state.valid_at(last));
        assert(state.path.take(last) =~= state.path.drop_last());
        match run_node(state.node(), self.world(), fuel) {
            None => {
                self.lemma_node_needs_steps(fuel);
            },
            Some(world) => {
                let first = self.lemma_node_steps(fuel);
                let mid = self.steps(first);
                assert(!world.failed) by {
                    if world.failed {
                        assert(run_nodes(state.block(), state.index() + 1, world, fuel) is Some);
                    }
                }
                assert(mid.state.path.drop_last() =~= state.path.drop_last());
                mid.lemma_nodes_need_steps(fuel);
                self.lemma_steps_add(first, fuel);
                self.lemma_not_ended_before(fuel, first + fuel);
            },
        }
    }

    /// Once a run has come to its end, more steps change nothing.
    pub proof fn lemma_steps_beyond(self, count: nat, more: nat)
        requires
            self.steps(count).ended(),
            count <= more,
        ensures
            self.steps(more) == self.steps(count),
    {
        self.lemma_steps_add(count, (more - count) as nat);
        self.steps(count).lemma_ended_stays((more - count) as nat);
    }
}

/// A program does on the machine what its meaning says.
///
/// Where running the nodes of `program` on a blank tape with `input` does
/// `world`, the machine started on the program comes to an end after
/// `count` steps, and after any number of steps beyond: the program has
/// ended or a read has failed, and tape, unread input and output are those
/// of `world`.
pub proof fn lemma_machine_runs_program(program: Seq<Node>, input: Seq<Seq<char>>, fuel: nat) -> (count:
    nat)
    requires
        run_nodes(program, 0, World::start(input), fuel) is Some,
    ensures
        forall|budget: nat|
            budget >= count ==> {
                let end = #[trigger] RunView::start(StateView::start(program), input).steps(
                    budget,
                );
                &&& end.ended()
                &&& end.world() == run_nodes(program, 0, World::start(input), fuel).unwrap()
            },
{
    let run = RunView::start(StateView::start(program), input);
    assert(run.state.path.take(0) =~= Seq::<int>::empty());
    assert(run.state.path.drop_last() =~= Seq::<int>::empty());
    assert(run.state.valid_at(0));
    let count = run.lemma_nodes_steps(fuel);
    let end = run.steps(count);
    if !end.failed {
        assert(end.state.path.drop_last() =~= Seq::<int>::empty());
    }
    assert forall|budget: nat| budget >= count implies {
        let later = #[trigger] run.steps(budget);
        &&& later.ended()
        &&& later.world() == run_nodes(program, 0, World::start(input), fuel).unwrap()
    } by {
        run.lemma_steps_beyond(count, budget);
    }
    count
}

/// A program that ends on the machine ends by its meaning, and with the
/// same result.
///
/// Where the machine started on `program` has come to an end after `count`
/// steps, running the nodes of `program` on a blank tape with `input` does
/// what the machine has done to tape, input and output.
pub proof fn lemma_program_runs_as_machine(program: Seq<Node>, input: Seq<Seq<char>>, count: nat)
    requires
        RunView::start(StateView::start(program), input).steps(count).ended(),
    ensures
        run_nodes(program, 0, World::start(input), count) == Some(
            RunView::start(StateView::start(program), input).steps(count).world(),
        ),
{
    let run = RunView::start(StateView::start(program), input);
    assert(run.state.path.take(0) =~= Seq::<int>::empty());
    assert(run.state.path.drop_last() =~= Seq::<int>::empty());
    assert(run.state.valid_at(0));
    if run_nodes(program, 0, World::start(input), count) is None {
        run.lemma_nodes_need_steps(count);
    } else {
        let enough = lemma_machine_runs_program(program, input, count);
        let budget = if enough >= count {
            enough
        } else {
            count
        };
        assert(run.steps(budget).ended());
        run.lemma_steps_beyond(count, budget);
    }
}

} // verus!

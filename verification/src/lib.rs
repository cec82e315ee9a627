//! An interpreter for a small tape language of eight instructions.
//!
//! A program text is lexed into [`Token`]s ([`lex`]), parsed into a tree of
//! [`SyntaxItem`]s ([`parse`]) and run on a [`State`]: the program, a tape of
//! byte cells with one data pointer, and the place that the run has reached.
//!
//! The machine itself neither reads nor writes. [`State::step`] and [`run`]
//! stop at every read and write instruction and say what the caller has to
//! do ([`Action`]); a line that was read is stored with [`State::input`].
//! [`execute`] runs a machine on input that is given beforehand and collects
//! what it writes; [`interpret`] does so for a program text.
//!
//! Every function states what it does over a mathematical model of its
//! data: [`Node`] for the tree, [`TapeView`] for the tape, [`StateView`] for
//! the machine. [`semantics`] gives the meaning of a program node by node
//! and shows that the machine runs every program by it.

pub mod brackets;
pub mod error;
pub mod input;
pub mod interpret;
pub mod machine;
pub mod parser;
pub mod runner;
pub mod semantics;
pub mod syntax;
pub mod tape;
pub mod token;

pub use error::Error;
pub use input::decode_input;
pub use interpret::interpret;
pub use machine::{run, Action, State, StateView};
pub use parser::{parse, parse_tokens};
pub use runner::{execute, Ending, Report, RunView};
pub use semantics::World;
pub use syntax::{unparse_tree, Node, SyntaxItem};
pub use tape::{Tape, TapeView};
pub use token::{lex, Token};

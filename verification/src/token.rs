//! The instructions of the language and the lexer.

use vstd::prelude::*;

verus! {

/// One of the eight instructions.
#[derive(Clone, Copy, Debug, PartialEq, Eq, Structural)]
pub enum Token {
    /// `+`: adds 1 to the cell under the pointer.
    Increment,
    /// `-`: takes 1 from the cell under the pointer.
    Decrement,
    /// `<`: moves the pointer one cell to the left.
    ShiftLeft,
    /// `>`: moves the pointer one cell to the right.
    ShiftRight,
    /// `,`: reads a line of input into the cell under the pointer.
    Input,
    /// `.`: writes the cell under the pointer as a character.
    Output,
    /// `[`: opens a loop.
    BeginLoop,
    /// `]`: closes a loop.
    EndLoop,
}

impl Token {
    /// The instruction that a character stands for. Every character but the
    /// eight symbols stands for none.
    pub open spec fn of_char(c: char) -> Option<Token> {
        if c == '+' {
            Some(Token::Increment)
        } else if c == '-' {
            Some(Token::Decrement)
        } else if c == '<' {
            Some(Token::ShiftLeft)
        } else if c == '>' {
            Some(Token::ShiftRight)
        } else if c == ',' {
            Some(Token::Input)
        } else if c == '.' {
            Some(Token::Output)
        } else if c == '[' {
            Some(Token::BeginLoop)
        } else if c == ']' {
            Some(Token::EndLoop)
        } else {
            None
        }
    }

    /// Whether the instruction opens or closes a loop.
    pub open spec fn is_bracket(self) -> bool {
        self == Token::BeginLoop || self == Token::EndLoop
    }

    /// Reads a character as an instruction.
    pub fn from_char(c: char) -> (token: Option<Token>)
        ensures
            token == Token::of_char(c),
    {
        match c {
            '+' => Some(Token::Increment),
            '-' => Some(Token::Decrement),
            '<' => Some(Token::ShiftLeft),
            '>' => Some(Token::ShiftRight),
            ',' => Some(Token::Input),
            '.' => Some(Token::Output),
            '[' => Some(Token::BeginLoop),
            ']' => Some(Token::EndLoop),
            _ => None,
        }
    }
}

/// The instructions of a text: its symbols in their order, every other
/// character left out.
pub open spec fn tokens_of(text: Seq<char>) -> Seq<Token> {
    text.filter(|c: char| Token::of_char(c) is Some).map_values(|c: char| Token::of_char(c)->0)
}

/// Reading one more character appends its instruction, if it has one.
pub proof fn lemma_tokens_of_push(text: Seq<char>, c: char)
    ensures
        tokens_of(text.push(c)) == match Token::of_char(c) {
            Some(t) => tokens_of(text).push(t),
            None => tokens_of(text),
        },
{
    reveal(Seq::filter);
    assert(text.push(c).drop_last() =~= text);
    let kept = text.filter(|c: char| Token::of_char(c) is Some);
    if Token::of_char(c) is Some {
        assert(kept.push(c).map_values(|c: char| Token::of_char(c)->0) =~= kept.map_values(
            |c: char| Token::of_char(c)->0,
        ).push(Token::of_char(c)->0));
    }
}

/// A text from which characters were left out has the same instructions,
/// as long as every symbol was kept: white space and comments never count.
pub proof fn lemma_tokens_of_kept(text: Seq<char>, keep: spec_fn(char) -> bool)
    requires
        forall|c: char| Token::of_char(c) is Some ==> #[trigger] keep(c),
    ensures
        tokens_of(text.filter(keep)) == tokens_of(text),
    decreases text.len(),
{
    reveal(Seq::filter);
    if text.len() > 0 {
        let init = text.drop_last();
        let last = text.last();
        assert(text =~= init.push(last));
        lemma_tokens_of_kept(init, keep);
        lemma_tokens_of_push(init, last);
        if keep(last) {
            lemma_tokens_of_push(init.filter(keep), last);
        }
    }
}

/// Turns a program text into its instructions.
pub fn lex(input: &String) -> (tokens: Vec<Token>)
    ensures
        tokens@ == tokens_of(input@),
{
    let mut tokens: Vec<Token> = Vec::new();
    for c in it: input.as_str().chars()
        invariant
            it.seq() == input@,
            tokens@ == tokens_of(input@.take(it.index())),
    {
        proof {
            lemma_tokens_of_push(input@.take(it.index()), c);
            assert(input@.take(it.index()).push(c) =~= input@.take(it.index() + 1));
        }
        match Token::from_char(c) {
            Some(t) => tokens.push(t),
            None => {},
        }
    }
    proof {
        assert(input@.take(input@.len() as int) =~= input@);
    }
    tokens
}

} // verus!

//! The parser: from instructions to the program tree.

use crate::brackets::{
    closing, lemma_closing_bounds, lemma_closing_inner, lemma_closing_shallower,
    lemma_closing_split, lemma_closing_subrange, lemma_well_bracketed_behind_leaf,
    lemma_well_bracketed_loop, matched, stray, unclosed, well_bracketed,
};
use crate::error::Error;
use crate::syntax::{
    lemma_view_loop, program_of, unparse, unparse_node, well_formed, well_formed_node, Node,
    SyntaxItem,
};
use crate::token::{lex, tokens_of, Token};
use vstd::prelude::*;

verus! {

/// `first` followed by `rest`, where there is a rest.
pub open spec fn followed_by(first: Seq<Node>, rest: Option<Seq<Node>>) -> Option<Seq<Node>> {
    match rest {
        Some(nodes) => Some(first + nodes),
        None => None,
    }
}

/// The tree of a sequence of instructions, read from left to right.
///
/// An instruction other than a bracket becomes a leaf. An opening bracket
/// becomes a loop node: its body is the tree of the instructions up to the
/// bracket that closes it, and reading goes on behind that bracket. A closing
/// bracket that closes nothing is passed over. There is no tree where an
/// opening bracket is never closed.
pub open spec fn parse_spec(tokens: Seq<Token>) -> Option<Seq<Node>>
    decreases tokens.len(),
{
    if tokens.len() == 0 {
        Some(Seq::empty())
    } else if tokens[0] == Token::EndLoop {
        parse_spec(tokens.skip(1))
    } else if tokens[0] == Token::BeginLoop {
        match closing(tokens, 1, 1) {
            Some(close) => {
                proof {
                    lemma_closing_bounds(tokens, 1, 1);
                }
                match parse_spec(tokens.subrange(1, close)) {
                    Some(body) => followed_by(
                        seq![Node::Loop(body)],
                        parse_spec(tokens.skip(close + 1)),
                    ),
                    None => None,
                }
            },
            None => None,
        }
    } else {
        followed_by(seq![Node::Leaf(tokens[0])], parse_spec(tokens.skip(1)))
    }
}

/// Every leaf of a parsed tree is an instruction other than a bracket.
pub proof fn lemma_parse_well_formed(tokens: Seq<Token>)
    ensures
        parse_spec(tokens) matches Some(nodes) ==> well_formed(nodes),
    decreases tokens.len(),
{
    if tokens.len() == 0 {
    } else if tokens[0] == Token::EndLoop {
        lemma_parse_well_formed(tokens.skip(1));
    } else if tokens[0] == Token::BeginLoop {
        if let Some(close) = closing(tokens, 1, 1) {
            lemma_closing_bounds(tokens, 1, 1);
            lemma_parse_well_formed(tokens.subrange(1, close));
            lemma_parse_well_formed(tokens.skip(close + 1));
        }
    } else {
        lemma_parse_well_formed(tokens.skip(1));
    }
}

/// The instructions between an opening bracket and the bracket that closes
/// it always have a tree.
pub proof fn lemma_parse_closed_part(tokens: Seq<Token>, from: int, depth: int)
    requires
        0 <= from,
        closing(tokens, from, depth) is Some,
    ensures
        parse_spec(tokens.subrange(from, closing(tokens, from, depth).unwrap())) is Some,
    decreases closing(tokens, from, depth).unwrap() - from,
{
    let close = closing(tokens, from, depth).unwrap();
    lemma_closing_bounds(tokens, from, depth);
    let part = tokens.subrange(from, close);
    if from < close {
        assert(part[0] == tokens[from]);
        if tokens[from] == Token::EndLoop {
            lemma_parse_closed_part(tokens, from + 1, depth - 1);
            assert(part.skip(1) =~= tokens.subrange(from + 1, close));
        } else if tokens[from] == Token::BeginLoop {
            lemma_closing_shallower(tokens, from + 1, depth + 1, 1);
            let inner = closing(tokens, from + 1, 1).unwrap();
            lemma_closing_bounds(tokens, from + 1, 1);
            lemma_closing_split(tokens, from + 1, 1, depth);
            lemma_closing_bounds(tokens, inner + 1, depth);
            lemma_closing_subrange(tokens, from, close, 1, 1);
            lemma_parse_closed_part(tokens, from + 1, 1);
            lemma_parse_closed_part(tokens, inner + 1, depth);
            assert(part.subrange(1, inner - from) =~= tokens.subrange(from + 1, inner));
            assert(part.skip(inner - from + 1) =~= tokens.subrange(inner + 1, close));
        } else {
            lemma_parse_closed_part(tokens, from + 1, depth);
            assert(part.skip(1) =~= tokens.subrange(from + 1, close));
        }
    }
}

/// Where a loop is never closed there is no tree.
pub proof fn lemma_unclosed_fails(tokens: Seq<Token>, i: int)
    requires
        unclosed(tokens, i),
    ensures
        parse_spec(tokens) is None,
    decreases tokens.len(),
{
    if tokens[0] == Token::BeginLoop {
        if i > 0 {
            if let Some(close) = closing(tokens, 1, 1) {
                lemma_closing_bounds(tokens, 1, 1);
                if i < close {
                    lemma_closing_inner(tokens, 1, 1, i);
                } else {
                    lemma_closing_subrange(
                        tokens,
                        close + 1,
                        tokens.len() as int,
                        i - close,
                        1,
                    );
                    lemma_unclosed_fails(tokens.skip(close + 1), i - close - 1);
                }
            }
        }
    } else {
        lemma_closing_subrange(tokens, 1, tokens.len() as int, i, 1);
        lemma_unclosed_fails(tokens.skip(1), i - 1);
    }
}

/// Where there is no tree a loop is never closed: the result is the index
/// of its opening bracket.
pub proof fn lemma_fails_unclosed(tokens: Seq<Token>) -> (i: int)
    requires
        parse_spec(tokens) is None,
    ensures
        unclosed(tokens, i),
    decreases tokens.len(),
{
    if tokens[0] == Token::BeginLoop {
        match closing(tokens, 1, 1) {
            None => 0,
            Some(close) => {
                lemma_closing_bounds(tokens, 1, 1);
                lemma_parse_closed_part(tokens, 1, 1);
                let j = lemma_fails_unclosed(tokens.skip(close + 1));
                lemma_closing_subrange(tokens, close + 1, tokens.len() as int, j + 1, 1);
                lemma_closing_bounds(tokens, close + j + 2, 1);
                j + close + 1
            },
        }
    } else {
        let j = lemma_fails_unclosed(tokens.skip(1));
        lemma_closing_subrange(tokens, 1, tokens.len() as int, j + 1, 1);
        lemma_closing_bounds(tokens, j + 2, 1);
        j + 1
    }
}

/// There is a tree exactly where every loop that is opened is closed.
pub proof fn lemma_parse_fails_iff_unclosed(tokens: Seq<Token>)
    ensures
        parse_spec(tokens) is None <==> exists|i: int| unclosed(tokens, i),
{
    if parse_spec(tokens) is None {
        let i = lemma_fails_unclosed(tokens);
        assert(unclosed(tokens, i));
    }
    if exists|i: int| unclosed(tokens, i) {
        let i = choose|i: int| unclosed(tokens, i);
        lemma_unclosed_fails(tokens, i);
    }
}

/// All nodes but the first are well formed if all are.
proof fn lemma_well_formed_rest(nodes: Seq<Node>)
    requires
        well_formed(nodes),
        nodes.len() > 0,
    ensures
        well_formed_node(nodes[0]),
        well_formed(nodes.skip(1)),
{
    let rest = nodes.skip(1);
    assert forall|i: int| 0 <= i < rest.len() implies well_formed_node(#[trigger] rest[i]) by {
        assert(rest[i] == nodes[i + 1]);
    }
}

/// How nodes are written out where the first is a leaf.
proof fn lemma_unparse_leaf_first(nodes: Seq<Node>)
    requires
        nodes.len() > 0,
        nodes[0] is Leaf,
    ensures
        unparse(nodes).len() == unparse(nodes.skip(1)).len() + 1,
        unparse(nodes)[0] == nodes[0]->Leaf_0,
        unparse(nodes).skip(1) == unparse(nodes.skip(1)),
{
    let written = unparse(nodes);
    let behind = unparse(nodes.skip(1));
    assert(written == unparse_node(nodes[0]) + behind);
    assert(written.skip(1) =~= behind);
}

/// How nodes are written out where the first is a loop.
proof fn lemma_unparse_loop_first(nodes: Seq<Node>)
    requires
        nodes.len() > 0,
        nodes[0] is Loop,
    ensures
        ({
            let inside = unparse(nodes[0]->Loop_0);
            let behind = unparse(nodes.skip(1));
            let written = unparse(nodes);
            let n = inside.len() as int;
            &&& written.len() == n + behind.len() + 2
            &&& written[0] == Token::BeginLoop
            &&& written[n + 1] == Token::EndLoop
            &&& written.subrange(1, n + 1) == inside
            &&& written.skip(n + 2) == behind
        }),
{
    let inside = unparse(nodes[0]->Loop_0);
    let behind = unparse(nodes.skip(1));
    let written = unparse(nodes);
    assert(unparse_node(nodes[0]) == seq![Token::BeginLoop] + inside + seq![Token::EndLoop]);
    assert(written == unparse_node(nodes[0]) + behind);
    let n = inside.len() as int;
    assert(written.subrange(1, n + 1) =~= inside);
    assert(written.skip(n + 2) =~= behind);
}

/// A scan passes over nodes that are written out: they close every loop
/// that they open and no other.
pub proof fn lemma_closing_passes_nodes(tokens: Seq<Token>, from: int, depth: int, nodes: Seq<Node>)
    requires
        well_formed(nodes),
        depth >= 1,
        0 <= from,
        from + unparse(nodes).len() <= tokens.len(),
        tokens.subrange(from, from + unparse(nodes).len()) == unparse(nodes),
    ensures
        closing(tokens, from, depth) == closing(tokens, from + unparse(nodes).len(), depth),
    decreases nodes,
{
    let written = unparse(nodes);
    let part = tokens.subrange(from, from + written.len());
    if nodes.len() > 0 {
        let rest = nodes.skip(1);
        let behind = unparse(rest);
        lemma_well_formed_rest(nodes);
        match nodes[0] {
            Node::Leaf(token) => {
                lemma_unparse_leaf_first(nodes);
                assert(part[0] == tokens[from]);
                assert(tokens.subrange(from + 1, from + 1 + behind.len()) =~= part.skip(1));
                lemma_closing_passes_nodes(tokens, from + 1, depth, rest);
            },
            Node::Loop(body) => {
                lemma_unparse_loop_first(nodes);
                let inside = unparse(body);
                let n = inside.len() as int;
                let end = from + 1 + n;
                assert(part[0] == tokens[from]);
                assert(part[n + 1] == tokens[end]);
                assert(tokens.subrange(from + 1, end) =~= part.subrange(1, n + 1));
                lemma_closing_passes_nodes(tokens, from + 1, depth + 1, body);
                assert(tokens.subrange(end + 1, end + 1 + behind.len()) =~= part.skip(n + 2));
                lemma_closing_passes_nodes(tokens, end + 1, depth, rest);
            },
        }
    }
}

/// Parsing what a well-formed tree is written as gives the tree back.
pub proof fn lemma_parse_unparse(nodes: Seq<Node>)
    requires
        well_formed(nodes),
    ensures
        parse_spec(unparse(nodes)) == Some(nodes),
    decreases nodes,
{
    let written = unparse(nodes);
    if nodes.len() == 0 {
        assert(nodes =~= Seq::<Node>::empty());
    } else {
        let rest = nodes.skip(1);
        lemma_well_formed_rest(nodes);
        lemma_parse_unparse(rest);
        match nodes[0] {
            Node::Leaf(token) => {
                lemma_unparse_leaf_first(nodes);
                assert(seq![Node::Leaf(token)] + rest =~= nodes);
            },
            Node::Loop(body) => {
                lemma_unparse_loop_first(nodes);
                let close = unparse(body).len() as int + 1;
                assert(written.subrange(0, written.len() as int) =~= written);
                lemma_closing_passes_nodes(written, 1, 1, body);
                assert(closing(written, 1, 1) == Some(close));
                lemma_parse_unparse(body);
                assert(seq![Node::Loop(body)] + rest =~= nodes);
            },
        }
    }
}

/// Parsing is idempotent: the tree of some instructions, written out and
/// parsed again, is the same tree.
pub proof fn lemma_parse_idempotent(tokens: Seq<Token>)
    requires
        parse_spec(tokens) is Some,
    ensures
        parse_spec(unparse(parse_spec(tokens).unwrap())) == parse_spec(tokens),
{
    lemma_parse_well_formed(tokens);
    lemma_parse_unparse(parse_spec(tokens).unwrap());
}

/// Well-bracketed instructions have a tree, and it is written as they are:
/// parsing loses nothing of them.
pub proof fn lemma_unparse_parse(tokens: Seq<Token>)
    requires
        well_bracketed(tokens),
    ensures
        parse_spec(tokens) matches Some(nodes) && unparse(nodes) == tokens,
    decreases tokens.len(),
{
    if tokens.len() == 0 {
        assert(unparse(Seq::<Node>::empty()) =~= tokens);
    } else if tokens[0] == Token::EndLoop {
        assert(stray(tokens, 0)) by {
            assert forall|open: int| !matched(tokens, open, 0) by {
                lemma_closing_bounds(tokens, open + 1, 1);
            }
        }
    } else if tokens[0] == Token::BeginLoop {
        lemma_well_bracketed_loop(tokens);
        let close = closing(tokens, 1, 1).unwrap();
        lemma_closing_bounds(tokens, 1, 1);
        lemma_unparse_parse(tokens.subrange(1, close));
        lemma_unparse_parse(tokens.skip(close + 1));
        let body = parse_spec(tokens.subrange(1, close)).unwrap();
        let rest = parse_spec(tokens.skip(close + 1)).unwrap();
        let nodes = seq![Node::Loop(body)] + rest;
        assert(nodes.skip(1) =~= rest);
        assert(unparse(nodes) == unparse_node(nodes[0]) + unparse(rest));
        assert(unparse_node(nodes[0]) == seq![Token::BeginLoop] + unparse(body)
            + seq![Token::EndLoop]);
        assert(unparse(nodes) =~= tokens);
    } else {
        lemma_well_bracketed_behind_leaf(tokens);
        lemma_unparse_parse(tokens.skip(1));
        let rest = parse_spec(tokens.skip(1)).unwrap();
        let nodes = seq![Node::Leaf(tokens[0])] + rest;
        assert(nodes.skip(1) =~= rest);
        assert(unparse(nodes) == unparse_node(nodes[0]) + unparse(rest));
        assert(unparse(nodes) =~= tokens);
    }
}

/// Finds the bracket that closes the loop opened at `open`, looking no
/// further than `end`.
fn find_closing(tokens: &Vec<Token>, open: usize, end: usize) -> (found: Option<usize>)
    requires
        open < end <= tokens.len(),
    ensures
        match found {
            Some(close) => open < close < end && closing(
                tokens@.subrange(open as int, end as int),
                1,
                1,
            ) == Some(close - open),
            None => closing(tokens@.subrange(open as int, end as int), 1, 1) is None,
        },
{
    let ghost part = tokens@.subrange(open as int, end as int);
    let mut depth: usize = 1;
    let mut at: usize = open + 1;
    while at < end
        invariant
            open < at <= end <= tokens.len(),
            part == tokens@.subrange(open as int, end as int),
            1 <= depth <= at - open,
            closing(part, 1, 1) == closing(part, at - open, depth as int),
        decreases end - at,
    {
        assert(part[at - open] == tokens@[at as int]);
        match tokens[at] {
            Token::EndLoop => {
                if depth == 1 {
                    return Some(at);
                }
                depth -= 1;
            },
            Token::BeginLoop => {
                depth += 1;
            },
            _ => {},
        }
        at += 1;
    }
    None
}

/// Parses the instructions from `start` up to `end`.
fn parse_range(tokens: &Vec<Token>, start: usize, end: usize) -> (result: Result<
    Vec<SyntaxItem>,
    Error,
>)
    requires
        start <= end <= tokens.len(),
    ensures
        match result {
            Ok(items) => parse_spec(tokens@.subrange(start as int, end as int)) == Some(
                program_of(items@),
            ),
            Err(e) => e == Error::MismatchedBrackets && parse_spec(
                tokens@.subrange(start as int, end as int),
            ) is None,
        },
    decreases end - start,
{
    let ghost all = tokens@.subrange(start as int, end as int);
    let mut items: Vec<SyntaxItem> = Vec::new();
    let mut at: usize = start;
    proof {
        assert(program_of(items@) + parse_spec(all).unwrap() =~= parse_spec(all).unwrap());
    }
    while at < end
        invariant
            start <= at <= end <= tokens.len(),
            all == tokens@.subrange(start as int, end as int),
            parse_spec(all) == followed_by(
                program_of(items@),
                parse_spec(tokens@.subrange(at as int, end as int)),
            ),
        decreases end - at,
    {
        let ghost part = tokens@.subrange(at as int, end as int);
        let ghost done = program_of(items@);
        assert(part[0] == tokens@[at as int]);
        match tokens[at] {
            Token::EndLoop => {
                proof {
                    assert(part.skip(1) =~= tokens@.subrange(at + 1, end as int));
                }
                at += 1;
            },
            Token::BeginLoop => {
                match find_closing(tokens, at, end) {
                    None => {
                        return Err(Error::MismatchedBrackets);
                    },
                    Some(close) => {
                        proof {
                            assert(part.subrange(1, close - at) =~= tokens@.subrange(
                                at + 1,
                                close as int,
                            ));
                            assert(part.skip(close - at + 1) =~= tokens@.subrange(
                                close + 1,
                                end as int,
                            ));
                        }
                        match parse_range(tokens, at + 1, close) {
                            // Not reached: what lies between matching
                            // brackets closes every loop that it opens.
                            Err(e) => {
                                return Err(e);
                            },
                            Ok(body) => {
                                proof {
                                    lemma_view_loop(body);
                                    let one = seq![Node::Loop(program_of(body@))];
                                    let rest = parse_spec(tokens@.subrange(close + 1, end as int));
                                    assert(parse_spec(part) == followed_by(one, rest));
                                    assert(program_of(items@.push(SyntaxItem::Loop(body))) =~= done
                                        + one);
                                    if rest is Some {
                                        assert(done + (one + rest.unwrap()) =~= (done + one)
                                            + rest.unwrap());
                                    }
                                }
                                items.push(SyntaxItem::Loop(body));
                                at = close + 1;
                            },
                        }
                    },
                }
            },
            token => {
                proof {
                    assert(part.skip(1) =~= tokens@.subrange(at + 1, end as int));
                    let one = seq![Node::Leaf(token)];
                    let rest = parse_spec(tokens@.subrange(at + 1, end as int));
                    assert(parse_spec(part) == followed_by(one, rest));
                    assert(program_of(items@.push(SyntaxItem::Single(token))) =~= done + one);
                    if rest is Some {
                        assert(done + (one + rest.unwrap()) =~= (done + one) + rest.unwrap());
                    }
                }
                items.push(SyntaxItem::Single(token));
                at += 1;
            },
        }
    }
    proof {
        assert(tokens@.subrange(end as int, end as int) =~= Seq::<Token>::empty());
        assert(program_of(items@) + Seq::<Node>::empty() =~= program_of(items@));
    }
    Ok(items)
}

/// Builds the program tree of a sequence of instructions.
///
/// Fails with [`Error::MismatchedBrackets`] exactly where an opening bracket
/// is never closed. A closing bracket that closes nothing is passed over.
pub fn parse_tokens(tokens: &Vec<Token>) -> (result: Result<Vec<SyntaxItem>, Error>)
    ensures
        match result {
            Ok(items) => parse_spec(tokens@) == Some(program_of(items@)) && well_formed(
                program_of(items@),
            ),
            Err(e) => e == Error::MismatchedBrackets && parse_spec(tokens@) is None,
        },
        result is Err <==> exists|i: int| unclosed(tokens@, i),
{
    proof {
        assert(tokens@.subrange(0, tokens@.len() as int) =~= tokens@);
        lemma_parse_well_formed(tokens@);
        lemma_parse_fails_iff_unclosed(tokens@);
    }
    parse_range(tokens, 0, tokens.len())
}

/// Lexes and parses a program text.
pub fn parse(input: &String) -> (result: Result<Vec<SyntaxItem>, Error>)
    ensures
        match result {
            Ok(items) => parse_spec(tokens_of(input@)) == Some(program_of(items@)) && well_formed(
                program_of(items@),
            ),
            Err(e) => e == Error::MismatchedBrackets && parse_spec(tokens_of(input@)) is None,
        },
        result is Err <==> exists|i: int| unclosed(tokens_of(input@), i),
{
    let tokens = lex(input);
    parse_tokens(&tokens)
}

} // verus!

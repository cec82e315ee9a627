//! The program tree and its mathematical model.

use crate::token::Token;
use vstd::prelude::*;

verus! {

/// A node of a parsed program: one instruction, or a loop around a body.
#[derive(Debug, PartialEq, Eq)]
pub enum SyntaxItem {
    /// One instruction. The parser puts no bracket here.
    Single(Token),
    /// A loop with the nodes of its body.
    Loop(Vec<SyntaxItem>),
}

/// The model of a [`SyntaxItem`]: the same tree over sequences.
pub enum Node {
    /// One instruction.
    Leaf(Token),
    /// A loop with the nodes of its body.
    Loop(Seq<Node>),
}

impl View for SyntaxItem {
    type V = Node;

    open spec fn view(&self) -> Node
        decreases self,
    {
        match self {
            SyntaxItem::Single(token) => Node::Leaf(*token),
            SyntaxItem::Loop(body) => Node::Loop(
                Seq::new(
                    body@.len(),
                    |i: int|
                        if 0 <= i < body@.len() {
                            body@[i].view()
                        } else {
                            Node::Loop(Seq::empty())
                        },
                ),
            ),
        }
    }
}

impl Clone for SyntaxItem {
    fn clone(&self) -> (res: Self)
        ensures
            res@ == self@,
    {
        match self {
            SyntaxItem::Single(token) => SyntaxItem::Single(*token),
            SyntaxItem::Loop(body) => {
                let copy = copy_items(body);
                proof {
                    lemma_view_loop(copy);
                    lemma_view_loop(*body);
                }
                SyntaxItem::Loop(copy)
            },
        }
    }
}

/// Copies a sequence of nodes with everything below them.
pub fn copy_items(items: &Vec<SyntaxItem>) -> (copy: Vec<SyntaxItem>)
    ensures
        program_of(copy@) == program_of(items@),
    decreases items,
{
    let mut copy: Vec<SyntaxItem> = Vec::new();
    let mut i: usize = 0;
    while i < items.len()
        invariant
            i <= items.len(),
            copy.len() == i,
            forall|k: int| 0 <= k < i ==> copy@[k]@ == items@[k]@,
        decreases items.len() - i,
    {
        match &items[i] {
            SyntaxItem::Single(token) => {
                copy.push(SyntaxItem::Single(*token));
            },
            SyntaxItem::Loop(body) => {
                let inner = copy_items(body);
                proof {
                    lemma_view_loop(inner);
                    lemma_view_loop(*body);
                }
                copy.push(SyntaxItem::Loop(inner));
            },
        }
        i += 1;
    }
    proof {
        assert(program_of(copy@) =~= program_of(items@));
    }
    copy
}

/// The model of a sequence of nodes, such as a whole program or a loop body.
pub open spec fn program_of(items: Seq<SyntaxItem>) -> Seq<Node> {
    Seq::new(items.len(), |i: int| items[i]@)
}

/// The body of a loop node is modelled as any other sequence of nodes.
pub proof fn lemma_view_loop(body: Vec<SyntaxItem>)
    ensures
        SyntaxItem::Loop(body)@ == Node::Loop(program_of(body@)),
{
    assert(SyntaxItem::Loop(body)@->Loop_0 =~= program_of(body@));
}

/// No leaf holds a bracket: brackets live in the shape of the tree only.
pub open spec fn well_formed(nodes: Seq<Node>) -> bool
    decreases nodes,
{
    forall|i: int| 0 <= i < nodes.len() ==> well_formed_node(#[trigger] nodes[i])
}

/// A leaf is well formed if it holds no bracket, a loop if its body is.
pub open spec fn well_formed_node(node: Node) -> bool
    decreases node,
{
    match node {
        Node::Leaf(token) => !token.is_bracket(),
        Node::Loop(body) => well_formed(body),
    }
}

/// The instructions that a sequence of nodes is written as: each leaf as
/// its instruction, each loop as its body between a pair of brackets.
pub open spec fn unparse(nodes: Seq<Node>) -> Seq<Token>
    decreases nodes,
{
    if nodes.len() == 0 {
        Seq::empty()
    } else {
        unparse_node(nodes[0]) + unparse(nodes.skip(1))
    }
}

/// The instructions that one node is written as.
pub open spec fn unparse_node(node: Node) -> Seq<Token>
    decreases node,
{
    match node {
        Node::Leaf(token) => seq![token],
        Node::Loop(body) => seq![Token::BeginLoop] + unparse(body) + seq![Token::EndLoop],
    }
}

/// Writing out two sequences one after the other writes out their
/// concatenation.
pub proof fn lemma_unparse_concat(a: Seq<Node>, b: Seq<Node>)
    ensures
        unparse(a + b) == unparse(a) + unparse(b),
    decreases a.len(),
{
    if a.len() == 0 {
        assert(a + b =~= b);
    } else {
        lemma_unparse_concat(a.skip(1), b);
        assert((a + b).skip(1) =~= a.skip(1) + b);
        assert(unparse(a + b) =~= unparse(a) + unparse(b));
    }
}

/// A single node is written out as itself.
pub proof fn lemma_unparse_single(node: Node)
    ensures
        unparse(seq![node]) == unparse_node(node),
{
    let one = seq![node];
    assert(one.skip(1) =~= Seq::<Node>::empty());
    assert(unparse(one.skip(1)) =~= Seq::<Token>::empty());
    assert(unparse(one) =~= unparse_node(node));
}

fn write_out(items: &Vec<SyntaxItem>, out: &mut Vec<Token>)
    ensures
        final(out)@ == old(out)@ + unparse(program_of(items@)),
    decreases items,
{
    let mut i: usize = 0;
    while i < items.len()
        invariant
            i <= items.len(),
            out@ == old(out)@ + unparse(program_of(items@.take(i as int))),
        decreases items.len() - i,
    {
        let ghost before = out@;
        match &items[i] {
            SyntaxItem::Single(token) => {
                out.push(*token);
            },
            SyntaxItem::Loop(body) => {
                out.push(Token::BeginLoop);
                write_out(body, out);
                out.push(Token::EndLoop);
                proof {
                    lemma_view_loop(*body);
                }
            },
        }
        proof {
            let done = program_of(items@.take(i as int));
            let one = seq![items@[i as int]@];
            assert(program_of(items@.take(i + 1)) =~= done + one);
            lemma_unparse_concat(done, one);
            lemma_unparse_single(items@[i as int]@);
            assert(out@ =~= before + unparse_node(items@[i as int]@));
        }
        i += 1;
    }
    proof {
        assert(items@.take(items.len() as int) =~= items@);
    }
}

/// Writes a program tree out as the instructions it was parsed from.
pub fn unparse_tree(items: &Vec<SyntaxItem>) -> (tokens: Vec<Token>)
    ensures
        tokens@ == unparse(program_of(items@)),
{
    let mut tokens: Vec<Token> = Vec::new();
    write_out(items, &mut tokens);
    tokens
}

} // verus!

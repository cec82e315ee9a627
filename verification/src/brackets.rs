//! Matching brackets: which bracket closes a loop, and what follows from it.

use crate::token::Token;
use vstd::prelude::*;

verus! {

/// Scans forward from `from` with `depth` loops open and gives the index of
/// the bracket that closes the outermost of them: every opening bracket on
/// the way opens one more, every closing bracket closes the innermost.
/// `None` if the instructions end first.
///
/// The bracket that closes the loop opened at `i` is `closing(tokens, i + 1, 1)`.
pub open spec fn closing(tokens: Seq<Token>, from: int, depth: int) -> Option<int>
    decreases tokens.len() - from,
{
    if from < 0 || from >= tokens.len() || depth < 1 {
        None
    } else if tokens[from] == Token::EndLoop {
        if depth == 1 {
            Some(from)
        } else {
            closing(tokens, from + 1, depth - 1)
        }
    } else if tokens[from] == Token::BeginLoop {
        closing(tokens, from + 1, depth + 1)
    } else {
        closing(tokens, from + 1, depth)
    }
}

/// At `i` a loop is opened that is never closed.
pub open spec fn unclosed(tokens: Seq<Token>, i: int) -> bool {
    0 <= i < tokens.len() && tokens[i] == Token::BeginLoop && closing(tokens, i + 1, 1) is None
}

/// The closing bracket lies in the part that was scanned, and is one.
pub proof fn lemma_closing_bounds(tokens: Seq<Token>, from: int, depth: int)
    ensures
        closing(tokens, from, depth) matches Some(close) ==> from <= close < tokens.len()
            && tokens[close] == Token::EndLoop,
    decreases tokens.len() - from,
{
    if from < 0 || from >= tokens.len() || depth < 1 {
    } else if tokens[from] == Token::EndLoop {
        if depth != 1 {
            lemma_closing_bounds(tokens, from + 1, depth - 1);
        }
    } else if tokens[from] == Token::BeginLoop {
        lemma_closing_bounds(tokens, from + 1, depth + 1);
    } else {
        lemma_closing_bounds(tokens, from + 1, depth);
    }
}

/// In a part of the instructions the same bracket closes, as long as it lies
/// in that part.
pub proof fn lemma_closing_subrange(tokens: Seq<Token>, a: int, b: int, from: int, depth: int)
    requires
        0 <= a <= b <= tokens.len(),
        0 <= from,
    ensures
        closing(tokens.subrange(a, b), from, depth) == match closing(tokens, a + from, depth) {
            Some(close) => if close < b {
                Some(close - a)
            } else {
                None
            },
            None => None,
        },
    decreases b - a - from,
{
    let part = tokens.subrange(a, b);
    lemma_closing_bounds(tokens, a + from, depth);
    if from >= part.len() || depth < 1 {
    } else {
        assert(part[from] == tokens[a + from]);
        if tokens[a + from] == Token::EndLoop {
            if depth != 1 {
                lemma_closing_subrange(tokens, a, b, from + 1, depth - 1);
            }
        } else if tokens[a + from] == Token::BeginLoop {
            lemma_closing_subrange(tokens, a, b, from + 1, depth + 1);
        } else {
            lemma_closing_subrange(tokens, a, b, from + 1, depth);
        }
    }
}

/// With fewer loops open the scan ends no later.
pub proof fn lemma_closing_shallower(tokens: Seq<Token>, from: int, depth: int, less: int)
    requires
        1 <= less <= depth,
        closing(tokens, from, depth) is Some,
    ensures
        closing(tokens, from, less) matches Some(close) && close <= closing(
            tokens,
            from,
            depth,
        ).unwrap(),
    decreases tokens.len() - from,
{
    lemma_closing_bounds(tokens, from, depth);
    if tokens[from] == Token::EndLoop {
        if depth != 1 {
            lemma_closing_bounds(tokens, from + 1, depth - 1);
            if less != 1 {
                lemma_closing_shallower(tokens, from + 1, depth - 1, less - 1);
            }
        }
    } else if tokens[from] == Token::BeginLoop {
        lemma_closing_shallower(tokens, from + 1, depth + 1, less + 1);
    } else {
        lemma_closing_shallower(tokens, from + 1, depth, less);
    }
}

/// A scan with more loops open passes the bracket that closes the innermost
/// ones and goes on behind it with the others.
pub proof fn lemma_closing_split(tokens: Seq<Token>, from: int, inner: int, outer: int)
    requires
        inner >= 1,
        outer >= 1,
        closing(tokens, from, inner) is Some,
    ensures
        closing(tokens, from, inner + outer) == closing(
            tokens,
            closing(tokens, from, inner).unwrap() + 1,
            outer,
        ),
    decreases tokens.len() - from,
{
    if tokens[from] == Token::EndLoop {
        if inner != 1 {
            lemma_closing_split(tokens, from + 1, inner - 1, outer);
        }
    } else if tokens[from] == Token::BeginLoop {
        lemma_closing_split(tokens, from + 1, inner + 1, outer);
    } else {
        lemma_closing_split(tokens, from + 1, inner, outer);
    }
}

/// A loop that is opened inside a closed one is closed inside it.
pub proof fn lemma_closing_inner(tokens: Seq<Token>, from: int, depth: int, i: int)
    requires
        0 <= from <= i,
        closing(tokens, from, depth) matches Some(close) && i < close,
        tokens[i] == Token::BeginLoop,
    ensures
        closing(tokens, i + 1, 1) matches Some(inner) && inner < closing(
            tokens,
            from,
            depth,
        ).unwrap(),
    decreases i - from,
{
    if from == i {
        lemma_closing_shallower(tokens, from + 1, depth + 1, 1);
        lemma_closing_split(tokens, from + 1, 1, depth);
        lemma_closing_bounds(tokens, closing(tokens, from + 1, 1).unwrap() + 1, depth);
    } else if tokens[from] == Token::EndLoop {
        lemma_closing_inner(tokens, from + 1, depth - 1, i);
    } else if tokens[from] == Token::BeginLoop {
        lemma_closing_inner(tokens, from + 1, depth + 1, i);
    } else {
        lemma_closing_inner(tokens, from + 1, depth, i);
    }
}

/// The bracket at `close` closes the loop that is opened at `open`.
pub open spec fn matched(tokens: Seq<Token>, open: int, close: int) -> bool {
    0 <= open < tokens.len() && tokens[open] == Token::BeginLoop && closing(tokens, open + 1, 1)
        == Some(close)
}

/// At `i` stands a closing bracket that closes no loop.
pub open spec fn stray(tokens: Seq<Token>, i: int) -> bool {
    0 <= i < tokens.len() && tokens[i] == Token::EndLoop && forall|open: int|
        !matched(tokens, open, i)
}

/// Every loop that is opened is closed, and every closing bracket closes
/// one.
pub open spec fn well_bracketed(tokens: Seq<Token>) -> bool {
    (forall|i: int| !unclosed(tokens, i)) && (forall|i: int| !stray(tokens, i))
}

/// The same brackets match in the instructions behind index `k` as long as
/// the opening one lies there.
pub proof fn lemma_matched_skip(tokens: Seq<Token>, k: int, open: int, close: int)
    requires
        0 <= k <= tokens.len(),
        0 <= open,
    ensures
        matched(tokens.skip(k), open, close - k) == matched(tokens, open + k, close),
        unclosed(tokens.skip(k), open) == unclosed(tokens, open + k),
{
    lemma_closing_subrange(tokens, k, tokens.len() as int, open + 1, 1);
    lemma_closing_bounds(tokens, k + open + 1, 1);
    if open < tokens.len() - k {
        assert(tokens.skip(k)[open] == tokens[open + k]);
    }
}

/// Well-bracketed instructions are well bracketed behind a first one that
/// is no bracket.
pub proof fn lemma_well_bracketed_behind_leaf(tokens: Seq<Token>)
    requires
        well_bracketed(tokens),
        tokens.len() > 0,
        !tokens[0].is_bracket(),
    ensures
        well_bracketed(tokens.skip(1)),
{
    let rest = tokens.skip(1);
    assert forall|i: int| !unclosed(rest, i) by {
        if 0 <= i {
            lemma_matched_skip(tokens, 1, i, 0);
            assert(!unclosed(tokens, i + 1));
        }
    }
    assert forall|i: int| !stray(rest, i) by {
        if 0 <= i < rest.len() && rest[i] == Token::EndLoop {
            let at = i + 1;
            assert(!stray(tokens, at));
            let open = choose|open: int| matched(tokens, open, at);
            lemma_matched_skip(tokens, 1, open - 1, at);
            assert(matched(rest, open - 1, i));
        }
    }
}

/// Well-bracketed instructions that begin with an opening bracket are well
/// bracketed between it and the bracket that closes it, and behind that.
pub proof fn lemma_well_bracketed_loop(tokens: Seq<Token>)
    requires
        well_bracketed(tokens),
        tokens.len() > 0,
        tokens[0] == Token::BeginLoop,
    ensures
        closing(tokens, 1, 1) matches Some(close) && well_bracketed(tokens.subrange(1, close))
            && well_bracketed(tokens.skip(close + 1)),
{
    assert(!unclosed(tokens, 0));
    let close = closing(tokens, 1, 1).unwrap();
    lemma_closing_bounds(tokens, 1, 1);
    let body = tokens.subrange(1, close);
    let rest = tokens.skip(close + 1);
    assert forall|i: int| !unclosed(body, i) by {
        if 0 <= i < body.len() && body[i] == Token::BeginLoop {
            lemma_closing_inner(tokens, 1, 1, i + 1);
            lemma_closing_subrange(tokens, 1, close, i + 1, 1);
        }
    }
    assert forall|i: int| !stray(body, i) by {
        if 0 <= i < body.len() && body[i] == Token::EndLoop {
            let at = i + 1;
            assert(!stray(tokens, at));
            let open = choose|open: int| matched(tokens, open, at);
            lemma_closing_bounds(tokens, open + 1, 1);
            lemma_closing_subrange(tokens, 1, close, open, 1);
            assert(body[open - 1] == tokens[open]);
            assert(matched(body, open - 1, i));
        }
    }
    assert forall|i: int| !unclosed(rest, i) by {
        if 0 <= i {
            lemma_matched_skip(tokens, close + 1, i, 0);
            assert(!unclosed(tokens, i + close + 1));
        }
    }
    assert forall|i: int| !stray(rest, i) by {
        if 0 <= i < rest.len() && rest[i] == Token::EndLoop {
            let at = i + close + 1;
            assert(!stray(tokens, at));
            let open = choose|open: int| matched(tokens, open, at);
            lemma_closing_bounds(tokens, open + 1, 1);
            if 0 < open < close {
                lemma_closing_inner(tokens, 1, 1, open);
            }
            lemma_matched_skip(tokens, close + 1, open - close - 1, at);
            assert(matched(rest, open - close - 1, i));
        }
    }
}

} // verus!

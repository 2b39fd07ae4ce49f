//! Parser: builds a tree of statement nodes from the token sequence.
//! Loop bodies are nested sub-trees; a `Block` owns its children.
//!
//! The contract is stated declaratively: a parse succeeds exactly on
//! bracket-balanced token sequences, and the resulting tree un-parses
//! (flattens) back to exactly the input tokens.  The two fatal errors
//! are each tied to their precise cause: a closing marker with no open
//! block, or the end of the tokens inside an open block.

use vstd::prelude::*;
use crate::token::Token;

verus! {

/// One node of the parse tree; a `Block` holds a loop body.
#[derive(Debug, PartialEq, Eq)]
pub enum ParseElement {
    Increment,
    Decrement,
    MoveUp,
    MoveDown,
    Print,
    Read,
    Block(Vec<ParseElement>),
}

/// The two fatal syntactic errors.
#[derive(Clone, Copy, Debug, PartialEq, Eq, Structural)]
pub enum ParseError {
    /// A closing marker was met with no currently-open block.
    UnmatchedClose,
    /// The tokens ended while a block was still open.
    UnterminatedLoop,
}

/// The contribution of one token to the bracket depth.
pub open spec fn depth_delta(t: Token) -> int {
    match t {
        Token::LoopOpen => 1,
        Token::LoopClose => -1,
        _ => 0,
    }
}

/// Number of open brackets minus number of close brackets.
pub open spec fn net_depth(ts: Seq<Token>) -> int
    decreases ts.len(),
{
    if ts.len() == 0 {
        0
    } else {
        net_depth(ts.drop_last()) + depth_delta(ts.last())
    }
}

/// No prefix closes more blocks than it has opened.
pub open spec fn no_early_close(ts: Seq<Token>) -> bool {
    forall|k: int| 0 <= k <= ts.len() ==> net_depth(#[trigger] ts.take(k)) >= 0
}

/// Every open bracket is closed, and never the other way around.
pub open spec fn balanced(ts: Seq<Token>) -> bool {
    no_early_close(ts) && net_depth(ts) == 0
}

/// The tokens of one statement: a `Block` flattens to its body between
/// an opening and a closing marker.
pub open spec fn flat_elem(e: ParseElement) -> Seq<Token>
    decreases e,
{
    match e {
        ParseElement::Increment => seq![Token::Increment],
        ParseElement::Decrement => seq![Token::Decrement],
        ParseElement::MoveUp => seq![Token::MoveUp],
        ParseElement::MoveDown => seq![Token::MoveDown],
        ParseElement::Print => seq![Token::Print],
        ParseElement::Read => seq![Token::Read],
        ParseElement::Block(body) => seq![Token::LoopOpen] + flat_elems(body@, body@.len() as int)
            + seq![Token::LoopClose],
    }
}

/// The tokens of the first `i` statements of a sequence, in order.
pub open spec fn flat_elems(es: Seq<ParseElement>, i: int) -> Seq<Token>
    decreases es, i,
{
    if i <= 0 || i > es.len() {
        Seq::empty()
    } else {
        flat_elems(es, i - 1) + flat_elem(es[i - 1])
    }
}

/// The tokens a whole statement sequence un-parses to.
pub open spec fn flat(es: Seq<ParseElement>) -> Seq<Token> {
    flat_elems(es, es.len() as int)
}

/// Extending a prefix by one token adds that token's depth contribution.
pub proof fn lemma_net_depth_take_succ(ts: Seq<Token>, i: int)
    requires
        0 <= i < ts.len(),
    ensures
        net_depth(ts.take(i + 1)) == net_depth(ts.take(i)) + depth_delta(ts[i]),
{
    assert(ts.take(i + 1).drop_last() =~= ts.take(i));
    assert(ts.take(i + 1).last() == ts[i]);
}

/// Flattening reads only the first `i` statements, so a statement
/// appended after them changes nothing.
pub proof fn lemma_flat_elems_push(es: Seq<ParseElement>, e: ParseElement, i: int)
    requires
        0 <= i <= es.len(),
    ensures
        flat_elems(es.push(e), i) == flat_elems(es, i),
    decreases i,
{
    if i > 0 {
        lemma_flat_elems_push(es, e, i - 1);
        assert(es.push(e)[i - 1] == es[i - 1]);
    }
}

/// Un-parsing a statement sequence extended by one statement appends
/// that statement's tokens.
pub proof fn lemma_flat_push(es: Seq<ParseElement>, e: ParseElement)
    ensures
        flat(es.push(e)) == flat(es) + flat_elem(e),
{
    lemma_flat_elems_push(es, e, es.len() as int);
    assert(es.push(e)[es.len() as int] == e);
}

/// Parses one loop body, whose opening marker stands just before
/// `start`: accumulates statements until the matching closing marker,
/// and returns the body together with the position one past that
/// marker.  Fails exactly when the tokens end while the block (or a
/// nested one) is still open.
pub fn parse_block(tokens: &Vec<Token>, start: usize) -> (r: Result<
    (Vec<ParseElement>, usize),
    ParseError,
>)
    requires
        start <= tokens@.len(),
        net_depth(tokens@.take(start as int)) >= 1,
        forall|k: int| 0 <= k <= start ==> net_depth(#[trigger] tokens@.take(k)) >= 0,
    ensures
        match r {
            Ok((body, end)) => {
                &&& start <= end <= tokens@.len()
                &&& tokens@.subrange(start as int, end as int) == flat(body@) + seq![
                    Token::LoopClose,
                ]
                &&& net_depth(tokens@.take(end as int)) == net_depth(tokens@.take(start as int))
                    - 1
                &&& forall|k: int| 0 <= k <= end ==> net_depth(#[trigger] tokens@.take(k)) >= 0
            },
            Err(e) => {
                &&& e == ParseError::UnterminatedLoop
                &&& no_early_close(tokens@)
                &&& net_depth(tokens@) > 0
            },
        },
    decreases tokens@.len() - start,
{
    let n = tokens.len();
    let mut body: Vec<ParseElement> = Vec::new();
    let mut i: usize = start;
    while i < n
        invariant
            start <= i <= n,
            n == tokens@.len(),
            net_depth(tokens@.take(start as int)) >= 1,
            tokens@.subrange(start as int, i as int) == flat(body@),
            net_depth(tokens@.take(i as int)) == net_depth(tokens@.take(start as int)),
            forall|k: int| 0 <= k <= i ==> net_depth(#[trigger] tokens@.take(k)) >= 0,
        decreases n - i,
    {
        let t = tokens[i];
        proof {
            lemma_net_depth_take_succ(tokens@, i as int);
        }
        match t {
            Token::LoopClose => {
                proof {
                    assert(tokens@.subrange(start as int, i + 1) =~= tokens@.subrange(
                        start as int,
                        i as int,
                    ) + seq![Token::LoopClose]);
                }
                return Ok((body, i + 1));
            },
            Token::LoopOpen => {
                match parse_block(tokens, i + 1) {
                    Ok((inner, end)) => {
                        proof {
                            lemma_flat_push(body@, ParseElement::Block(inner));
                            assert(tokens@.subrange(start as int, end as int) =~= tokens@.subrange(
                                start as int,
                                i as int,
                            ) + seq![Token::LoopOpen] + tokens@.subrange(i + 1, end as int));
                        }
                        body.push(ParseElement::Block(inner));
                        i = end;
                    },
                    Err(e) => {
                        return Err(e);
                    },
                }
            },
            _ => {
                let e = match t {
                    Token::Increment => ParseElement::Increment,
                    Token::Decrement => ParseElement::Decrement,
                    Token::MoveUp => ParseElement::MoveUp,
                    Token::MoveDown => ParseElement::MoveDown,
                    Token::Print => ParseElement::Print,
                    _ => ParseElement::Read,
                };
                proof {
                    lemma_flat_push(body@, e);
                    assert(tokens@.subrange(start as int, i + 1) =~= tokens@.subrange(
                        start as int,
                        i as int,
                    ) + flat_elem(e));
                }
                body.push(e);
                i = i + 1;
            },
        }
    }
    proof {
        assert(tokens@.take(n as int) =~= tokens@);
    }
    Err(ParseError::UnterminatedLoop)
}

/// Parses the whole token sequence into the top-level statement list.
/// Succeeds exactly on balanced token sequences, and then the tree
/// un-parses back to exactly the input; each error comes exactly on
/// the inputs that cause it.
pub fn parse_root(tokens: Vec<Token>) -> (r: Result<Vec<ParseElement>, ParseError>)
    ensures
        (r is Ok) <==> balanced(tokens@),
        r matches Ok(tree) ==> flat(tree@) == tokens@,
        (r matches Err(ParseError::UnmatchedClose)) <==> !no_early_close(tokens@),
        (r matches Err(ParseError::UnterminatedLoop)) <==> (no_early_close(tokens@) && net_depth(
            tokens@,
        ) > 0),
{
    let n = tokens.len();
    let mut elements: Vec<ParseElement> = Vec::new();
    let mut i: usize = 0;
    while i < n
        invariant
            i <= n,
            n == tokens@.len(),
            tokens@.subrange(0, i as int) == flat(elements@),
            net_depth(tokens@.take(i as int)) == 0,
            forall|k: int| 0 <= k <= i ==> net_depth(#[trigger] tokens@.take(k)) >= 0,
        decreases n - i,
    {
        let t = tokens[i];
        proof {
            lemma_net_depth_take_succ(tokens@, i as int);
        }
        match t {
            Token::LoopClose => {
                proof {
                    assert(net_depth(tokens@.take(i + 1)) < 0);
                }
                return Err(ParseError::UnmatchedClose);
            },
            Token::LoopOpen => {
                match parse_block(&tokens, i + 1) {
                    Ok((inner, end)) => {
                        proof {
                            lemma_flat_push(elements@, ParseElement::Block(inner));
                            assert(tokens@.subrange(0, end as int) =~= tokens@.subrange(0, i as int)
                                + seq![Token::LoopOpen] + tokens@.subrange(i + 1, end as int));
                        }
                        elements.push(ParseElement::Block(inner));
                        i = end;
                    },
                    Err(e) => {
                        return Err(e);
                    },
                }
            },
            _ => {
                let e = match t {
                    Token::Increment => ParseElement::Increment,
                    Token::Decrement => ParseElement::Decrement,
                    Token::MoveUp => ParseElement::MoveUp,
                    Token::MoveDown => ParseElement::MoveDown,
                    Token::Print => ParseElement::Print,
                    _ => ParseElement::Read,
                };
                proof {
                    lemma_flat_push(elements@, e);
                    assert(tokens@.subrange(0, i + 1) =~= tokens@.subrange(0, i as int)
                        + flat_elem(e));
                }
                elements.push(e);
                i = i + 1;
            },
        }
    }
    proof {
        assert(tokens@.take(n as int) =~= tokens@);
        assert(tokens@.subrange(0, n as int) =~= tokens@);
    }
    Ok(elements)
}

} // verus!

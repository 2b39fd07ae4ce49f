//! Lexer: maps source characters to tokens, one per recognized operator
//! character; every other character is dropped.

use vstd::prelude::*;

verus! {

/// One symbolic token per recognized operator character.
#[derive(Clone, Copy, Debug, PartialEq, Eq, Structural)]
pub enum Token {
    Increment,
    Decrement,
    MoveUp,
    MoveDown,
    Print,
    Read,
    LoopOpen,
    LoopClose,
}

/// The token a single character maps to, if any.
pub open spec fn token_of(c: char) -> Option<Token> {
    if c == '+' {
        Some(Token::Increment)
    } else if c == '-' {
        Some(Token::Decrement)
    } else if c == '>' {
        Some(Token::MoveUp)
    } else if c == '<' {
        Some(Token::MoveDown)
    } else if c == '.' {
        Some(Token::Print)
    } else if c == ',' {
        Some(Token::Read)
    } else if c == '[' {
        Some(Token::LoopOpen)
    } else if c == ']' {
        Some(Token::LoopClose)
    } else {
        None
    }
}

/// The token sequence of a character sequence: one token per operator
/// character, in order; all other characters contribute nothing.
pub open spec fn spec_tokenize(s: Seq<char>) -> Seq<Token>
    decreases s.len(),
{
    if s.len() == 0 {
        Seq::empty()
    } else {
        spec_tokenize(s.drop_last()) + match token_of(s.last()) {
            Some(t) => seq![t],
            None => Seq::empty(),
        }
    }
}

/// Classifies one character, as the lexer does.
pub fn map_token(character: char) -> (r: Option<Token>)
    ensures
        r == token_of(character),
{
    match character {
        '+' => Some(Token::Increment),
        '-' => Some(Token::Decrement),
        '>' => Some(Token::MoveUp),
        '<' => Some(Token::MoveDown),
        '.' => Some(Token::Print),
        ',' => Some(Token::Read),
        '[' => Some(Token::LoopOpen),
        ']' => Some(Token::LoopClose),
        _ => None,
    }
}

/// Scans the program text and keeps the operator characters as tokens.
/// The lexer cannot fail: unrecognized input is simply not a token.
pub fn tokenize(string: &str) -> (r: Vec<Token>)
    ensures
        r@ == spec_tokenize(string@),
{
    let mut tokens: Vec<Token> = Vec::new();
    let n = string.unicode_len();
    let mut i: usize = 0;
    while i < n
        invariant
            n == string@.len(),
            i <= n,
            tokens@ == spec_tokenize(string@.take(i as int)),
        decreases n - i,
    {
        let c = string.get_char(i);
        proof {
            assert(string@.take(i + 1).drop_last() =~= string@.take(i as int));
            assert(string@.take(i + 1).last() == string@[i as int]);
        }
        match map_token(c) {
            Some(t) => {
                tokens.push(t);
                proof {
                    assert(tokens@ =~= spec_tokenize(string@.take(i + 1)));
                }
            },
            None => {
                proof {
                    assert(tokens@ =~= spec_tokenize(string@.take(i + 1)));
                }
            },
        }
        i = i + 1;
    }
    proof {
        assert(string@.take(n as int) =~= string@);
    }
    tokens
}

} // verus!

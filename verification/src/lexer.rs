//! Lexical filtering of source text into instruction tokens.

use crate::computer::Computer;
use vstd::prelude::*;

verus! {

/// An instruction token: one of the eight characters that carry meaning.
#[derive(Clone, Copy, Debug, PartialEq, Eq, Structural)]
pub enum RawCode {
    PtrIncrement,
    PtrDecrement,
    Increment,
    Decrement,
    Write,
    Read,
    LoopBegin,
    LoopEnd,
}

/// The token that a character stands for, if it stands for one.
pub open spec fn token_of(c: char) -> Option<RawCode> {
    if c == '>' {
        Some(RawCode::PtrIncrement)
    } else if c == '<' {
        Some(RawCode::PtrDecrement)
    } else if c == '+' {
        Some(RawCode::Increment)
    } else if c == '-' {
        Some(RawCode::Decrement)
    } else if c == '.' {
        Some(RawCode::Write)
    } else if c == ',' {
        Some(RawCode::Read)
    } else if c == '[' {
        Some(RawCode::LoopBegin)
    } else if c == ']' {
        Some(RawCode::LoopEnd)
    } else {
        None
    }
}

/// The tokens of a source text: the tokens of its instruction characters, in
/// order, every other character left out.
pub open spec fn lex(source: Seq<char>) -> Seq<RawCode>
    decreases source.len(),
{
    if source.len() == 0 {
        Seq::empty()
    } else {
        let before = lex(source.drop_last());
        match token_of(source.last()) {
            Some(token) => before.push(token),
            None => before,
        }
    }
}

/// Classifies one character.
pub fn classify(c: char) -> (token: Option<RawCode>)
    ensures
        token == token_of(c),
{
    match c {
        '>' => Some(RawCode::PtrIncrement),
        '<' => Some(RawCode::PtrDecrement),
        '+' => Some(RawCode::Increment),
        '-' => Some(RawCode::Decrement),
        '.' => Some(RawCode::Write),
        ',' => Some(RawCode::Read),
        '[' => Some(RawCode::LoopBegin),
        ']' => Some(RawCode::LoopEnd),
        _ => None,
    }
}

impl Computer {
    /// Lexes a source text: keeps the instruction characters as tokens, in
    /// order, and drops every other character. The computer is left as it is.
    pub fn lexer(&mut self, source_code: &str) -> (tokens: Vec<RawCode>)
        ensures
            tokens@ == lex(source_code@),
            *final(self) == *old(self),
    {
        let mut tokens: Vec<RawCode> = Vec::new();
        for c in chars: source_code.chars()
            invariant
                chars.seq() == source_code@,
                tokens@ == lex(source_code@.take(chars.index() as int)),
        {
            proof {
                assert(source_code@.take(chars.index() + 1).drop_last() =~= source_code@.take(
                    chars.index() as int,
                ));
            }
            match classify(c) {
                Some(token) => tokens.push(token),
                None => {},
            }
        }
        proof {
            assert(source_code@.take(source_code@.len() as int) =~= source_code@);
        }
        tokens
    }
}

} // verus!

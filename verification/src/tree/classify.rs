//! The structural role of a token.
use vstd::prelude::*;

use crate::tokens::Token;

verus! {

/// The role that a token plays in the structure of a pattern.
#[derive(Debug, PartialEq, Eq, Clone, Copy, Structural)]
pub enum TokenClass {
    OpenBracket,
    CloseBracket,
    Augmentation,
    Alternation,
    Regular,
    Problematic,
}

/// The role of a token. Escaping strips a character of its role; a trailing
/// escape has no place in any structure.
pub open spec fn class_of(token: Token) -> TokenClass {
    match token {
        Token::Escaped(_, _) => TokenClass::Regular,
        Token::Raw(c, _) => if c == '(' || c == '[' || c == '{' {
            TokenClass::OpenBracket
        } else if c == ')' || c == ']' || c == '}' {
            TokenClass::CloseBracket
        } else if c == '*' || c == '?' {
            TokenClass::Augmentation
        } else if c == '|' {
            TokenClass::Alternation
        } else {
            TokenClass::Regular
        },
        Token::TrailingEscapeCharacter(_) => TokenClass::Problematic,
    }
}

impl Token {
    /// The structural role of this token.
    pub fn classify(&self) -> (class: TokenClass)
        ensures
            class == class_of(*self),
    {
        match self {
            Token::Escaped(_, _) => TokenClass::Regular,
            Token::Raw(c, _) => match *c {
                '(' | '[' | '{' => TokenClass::OpenBracket,
                ')' | ']' | '}' => TokenClass::CloseBracket,
                '*' | '?' => TokenClass::Augmentation,
                '|' => TokenClass::Alternation,
                _ => TokenClass::Regular,
            },
            Token::TrailingEscapeCharacter(_) => TokenClass::Problematic,
        }
    }
}

} // verus!

//! The characters that the grammar sets apart as markers.
use vstd::prelude::*;

use crate::tokens::Token;

verus! {

/// A marker character.
#[derive(Debug, PartialEq, Eq, Clone, Copy, Structural)]
pub enum Special {
    Star,
    Question,
    Caret,
    Dollar,
    Dot,
}

/// A token that was asked for its marker and is none.
#[derive(Debug, PartialEq, Eq, Clone, Copy, Structural)]
pub struct SpecialError(pub Token);

/// The marker that a token names: only an unescaped marker character names one.
pub open spec fn special_of(token: Token) -> Option<Special> {
    match token {
        Token::Raw(c, _) => if c == '*' {
            Some(Special::Star)
        } else if c == '?' {
            Some(Special::Question)
        } else if c == '^' {
            Some(Special::Caret)
        } else if c == '$' {
            Some(Special::Dollar)
        } else if c == '.' {
            Some(Special::Dot)
        } else {
            None
        },
        _ => None,
    }
}

impl Special {
    /// Reads a token as a marker, or hands the token back in the error.
    pub fn try_from(value: Token) -> (result: Result<Special, SpecialError>)
        ensures
            result == match special_of(value) {
                Some(special) => Ok::<Special, SpecialError>(special),
                None => Err(SpecialError(value)),
            },
    {
        match value {
            Token::Raw('*', _) => Ok(Special::Star),
            Token::Raw('?', _) => Ok(Special::Question),
            Token::Raw('^', _) => Ok(Special::Caret),
            Token::Raw('$', _) => Ok(Special::Dollar),
            Token::Raw('.', _) => Ok(Special::Dot),
            _ => Err(SpecialError(value)),
        }
    }
}

} // verus!

//! The three kinds of brackets and how a token names one.
use vstd::prelude::*;
use vstd::string::StringExecFns;

use crate::text::{decimal, decimal_spec};
use crate::tokens::Token;

verus! {

/// A kind of bracket.
#[derive(Debug, PartialEq, Eq, Clone, Copy, Structural)]
pub enum Bracket {
    Parentheses,
    Braces,
    Square,
}

/// Whether a bracket character opens or closes.
#[derive(Debug, PartialEq, Eq, Clone, Copy, Structural)]
pub enum StartEnd {
    Start,
    End,
}

/// A token that was asked for its bracket and is none.
#[derive(Debug, PartialEq, Eq, Clone, Copy, Structural)]
pub struct BracketError(pub Token);

impl BracketError {
    /// What the error says of its token: the character that is no bracket,
    /// and where it stands.
    pub open spec fn message(self) -> Seq<char> {
        seq![self.0.spec_to_char()] + " is not a bracket at position "@ + decimal_spec(
            self.0.spec_meta().position as nat,
        )
    }

    /// The error in words.
    pub fn to_string(&self) -> (text: String)
        ensures
            text@ == self.message(),
    {
        let mut text = self.0.to_string();
        text.append(" is not a bracket at position ");
        text.append(decimal(self.0.position()).as_str());
        text
    }
}

/// A bracket character read in full: its kind and its side.
#[derive(Debug, PartialEq, Eq, Clone, Copy, Structural)]
pub struct BracketType(pub Bracket, pub StartEnd);

/// The bracket that a token names: only an unescaped bracket character names one.
pub open spec fn bracket_type_of(token: Token) -> Option<BracketType> {
    match token {
        Token::Raw(c, _) => if c == '(' {
            Some(BracketType(Bracket::Parentheses, StartEnd::Start))
        } else if c == '[' {
            Some(BracketType(Bracket::Square, StartEnd::Start))
        } else if c == '{' {
            Some(BracketType(Bracket::Braces, StartEnd::Start))
        } else if c == ')' {
            Some(BracketType(Bracket::Parentheses, StartEnd::End))
        } else if c == ']' {
            Some(BracketType(Bracket::Square, StartEnd::End))
        } else if c == '}' {
            Some(BracketType(Bracket::Braces, StartEnd::End))
        } else {
            None
        },
        _ => None,
    }
}

impl BracketType {
    /// Reads a token as a bracket, or hands the token back in the error.
    pub fn try_from(value: Token) -> (result: Result<BracketType, BracketError>)
        ensures
            result == match bracket_type_of(value) {
                Some(bracket_type) => Ok::<BracketType, BracketError>(bracket_type),
                None => Err(BracketError(value)),
            },
    {
        match value {
            Token::Raw('(', _) => Ok(BracketType(Bracket::Parentheses, StartEnd::Start)),
            Token::Raw('[', _) => Ok(BracketType(Bracket::Square, StartEnd::Start)),
            Token::Raw('{', _) => Ok(BracketType(Bracket::Braces, StartEnd::Start)),
            Token::Raw(')', _) => Ok(BracketType(Bracket::Parentheses, StartEnd::End)),
            Token::Raw(']', _) => Ok(BracketType(Bracket::Square, StartEnd::End)),
            Token::Raw('}', _) => Ok(BracketType(Bracket::Braces, StartEnd::End)),
            _ => Err(BracketError(value)),
        }
    }
}

impl Bracket {
    /// The kind of bracket that a token names, whichever its side.
    pub fn try_from(value: Token) -> (result: Result<Bracket, BracketError>)
        ensures
            result == match bracket_type_of(value) {
                Some(bracket_type) => Ok::<Bracket, BracketError>(bracket_type.0),
                None => Err(BracketError(value)),
            },
    {
        match BracketType::try_from(value) {
            Ok(bracket_type) => Ok(bracket_type.0),
            Err(error) => Err(error),
        }
    }
}

impl StartEnd {
    /// The side of the bracket that a token names, whichever its kind.
    pub fn try_from(value: Token) -> (result: Result<StartEnd, BracketError>)
        ensures
            result == match bracket_type_of(value) {
                Some(bracket_type) => Ok::<StartEnd, BracketError>(bracket_type.1),
                None => Err(BracketError(value)),
            },
    {
        match BracketType::try_from(value) {
            Ok(bracket_type) => Ok(bracket_type.1),
            Err(error) => Err(error),
        }
    }
}

} // verus!

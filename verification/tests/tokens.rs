use regex_examples::text::decimal;
use regex_examples::tokens::{tokenise, Token, TokenMeta};
use regex_examples::tree::brackets::{Bracket, BracketError, BracketType, StartEnd};
use regex_examples::tree::classify::TokenClass;
use regex_examples::tree::special::{Special, SpecialError};

fn raw(c: char, position: usize) -> Token {
    Token::Raw(c, TokenMeta { position })
}

fn escaped(c: char, position: usize) -> Token {
    Token::Escaped(c, TokenMeta { position })
}

fn trailing(position: usize) -> Token {
    Token::TrailingEscapeCharacter(TokenMeta { position })
}

#[test]
fn tokenise_single_character() {
    assert_eq!(tokenise("a"), vec![raw('a', 0)]);
}

#[test]
fn tokenise_escaped_character() {
    assert_eq!(tokenise("a\\b"), vec![raw('a', 0), escaped('b', 1)]);
}

#[test]
fn tokenise_trailing_escape() {
    assert_eq!(tokenise("a\\"), vec![raw('a', 0), trailing(1)]);
}

#[test]
fn tokenise_empty_pattern() {
    assert_eq!(tokenise(""), Vec::<Token>::new());
}

#[test]
fn tokenise_escape_takes_the_position_of_the_escape() {
    assert_eq!(
        tokenise("\\(a\\\\b"),
        vec![escaped('(', 0), raw('a', 2), escaped('\\', 3), raw('b', 5)]
    );
}

#[test]
fn tokenise_counts_characters_not_bytes() {
    assert_eq!(tokenise("é\\ü|"), vec![raw('é', 0), escaped('ü', 1), raw('|', 3)]);
}

#[test]
fn tokenise_lone_escape() {
    assert_eq!(tokenise("\\"), vec![trailing(0)]);
}

#[test]
fn tokenise_never_yields_more_tokens_than_characters() {
    for pattern in ["", "abc", "a\\b\\c", "\\\\\\", "(a|b)*\\"] {
        assert!(tokenise(pattern).len() <= pattern.chars().count());
    }
}

#[test]
fn tokenise_trailing_escape_is_last() {
    let tokens = tokenise("\\\\a\\\\\\");
    assert_eq!(tokens, vec![escaped('\\', 0), raw('a', 2), escaped('\\', 3), trailing(5)]);
}

#[test]
fn token_to_char() {
    assert_eq!(raw('a', 0).to_char(), 'a');
    assert_eq!(escaped('*', 4).to_char(), '*');
    assert_eq!(trailing(7).to_char(), '\\');
}

#[test]
fn token_position_and_meta() {
    assert_eq!(raw('a', 3).position(), 3);
    assert_eq!(escaped('a', 5).position(), 5);
    assert_eq!(trailing(9).position(), 9);
    assert_eq!(*raw('a', 3).meta(), TokenMeta { position: 3 });
    assert_eq!(*trailing(9).meta(), TokenMeta { position: 9 });
}

#[test]
fn classify_raw_characters() {
    for c in ['(', '[', '{'] {
        assert_eq!(raw(c, 0).classify(), TokenClass::OpenBracket);
    }
    for c in [')', ']', '}'] {
        assert_eq!(raw(c, 0).classify(), TokenClass::CloseBracket);
    }
    for c in ['*', '?'] {
        assert_eq!(raw(c, 0).classify(), TokenClass::Augmentation);
    }
    assert_eq!(raw('|', 0).classify(), TokenClass::Alternation);
    for c in ['a', '^', '$', '.', '\\', ' ', '+'] {
        assert_eq!(raw(c, 0).classify(), TokenClass::Regular);
    }
}

#[test]
fn classify_escaped_is_always_regular() {
    for c in ['(', ')', '[', ']', '{', '}', '*', '?', '|', 'a'] {
        assert_eq!(escaped(c, 0).classify(), TokenClass::Regular);
    }
}

#[test]
fn classify_trailing_escape_is_problematic() {
    assert_eq!(trailing(0).classify(), TokenClass::Problematic);
}

#[test]
fn test_error() {
    let token = raw('x', 3);
    let bracket = Bracket::try_from(token);
    let bracket = bracket.map_err(|e| {
        assert_eq!(e.to_string(), "x is not a bracket at position 3");
        e
    });
    assert!(bracket.is_err())
}

#[test]
fn bracket_error_carries_its_token() {
    let token = raw('x', 3);
    assert_eq!(Bracket::try_from(token), Err(BracketError(token)));
    let far = escaped(']', 1204);
    assert_eq!(BracketError(far).to_string(), "] is not a bracket at position 1204");
    assert_eq!(BracketError(trailing(0)).to_string(), "\\ is not a bracket at position 0");
}

#[test]
fn token_to_string_is_its_character() {
    assert_eq!(raw('a', 0).to_string(), "a");
    assert_eq!(escaped('*', 4).to_string(), "*");
    assert_eq!(trailing(7).to_string(), "\\");
    assert_eq!(raw('é', 7).to_string(), "é");
}

#[test]
fn decimal_writes_numbers() {
    assert_eq!(decimal(0), "0");
    assert_eq!(decimal(7), "7");
    assert_eq!(decimal(10), "10");
    assert_eq!(decimal(109), "109");
    assert_eq!(decimal(1234567890), "1234567890");
    assert_eq!(decimal(usize::MAX), usize::MAX.to_string());
}

#[test]
fn bracket_type_of_each_bracket() {
    let cases = [
        ('(', Bracket::Parentheses, StartEnd::Start),
        ('[', Bracket::Square, StartEnd::Start),
        ('{', Bracket::Braces, StartEnd::Start),
        (')', Bracket::Parentheses, StartEnd::End),
        (']', Bracket::Square, StartEnd::End),
        ('}', Bracket::Braces, StartEnd::End),
    ];
    for (c, bracket, side) in cases {
        assert_eq!(BracketType::try_from(raw(c, 1)), Ok(BracketType(bracket, side)));
        assert_eq!(Bracket::try_from(raw(c, 1)), Ok(bracket));
        assert_eq!(StartEnd::try_from(raw(c, 1)), Ok(side));
    }
}

#[test]
fn escaped_bracket_is_no_bracket() {
    let token = escaped('(', 2);
    assert_eq!(BracketType::try_from(token), Err(BracketError(token)));
    assert_eq!(Bracket::try_from(token), Err(BracketError(token)));
    assert_eq!(StartEnd::try_from(token), Err(BracketError(token)));
    assert_eq!(Bracket::try_from(trailing(0)), Err(BracketError(trailing(0))));
}

#[test]
fn special_of_each_marker() {
    assert_eq!(Special::try_from(raw('*', 0)), Ok(Special::Star));
    assert_eq!(Special::try_from(raw('?', 0)), Ok(Special::Question));
    assert_eq!(Special::try_from(raw('^', 0)), Ok(Special::Caret));
    assert_eq!(Special::try_from(raw('$', 0)), Ok(Special::Dollar));
    assert_eq!(Special::try_from(raw('.', 0)), Ok(Special::Dot));
}

#[test]
fn special_of_other_tokens_is_an_error() {
    let token = raw('a', 6);
    assert_eq!(Special::try_from(token), Err(SpecialError(token)));
    let star = escaped('*', 1);
    assert_eq!(Special::try_from(star), Err(SpecialError(star)));
    assert_eq!(Special::try_from(trailing(2)), Err(SpecialError(trailing(2))));
}

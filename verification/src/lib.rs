//! Generates members of the regular language that a small pattern describes.
//!
//! A pattern is tokenised, built into a syntax tree by a stack automaton,
//! resolved into an expression and then either asked for one witness or for
//! an enumeration of witnesses.
use vstd::prelude::*;

use crate::expression::{lemma_example_enumerated, strings_view, Expression, ExpressionView};
use crate::parse::{lemma_parse_fails_on_reserved, lemma_parse_wf, parse_spec, text_of, Unimplemented};
use crate::reserved::{lemma_tree_reserved, reserved_token};
use crate::tokens::{
    lemma_tokens_with_trailing_escape, lemma_tokens_without_escape, raw_tokens, tokenise,
    tokenise_spec, Token, TokenMeta, ESCAPE,
};
use crate::tree::classify::{class_of, TokenClass};
use crate::tree::lemmas::{
    all_regular, lemma_run_of_regular, lemma_trailing_escape, lemma_tree_of_regular,
};
use crate::tree::order::{balanced, lemma_tree_verdict, verdict};
use crate::tree::{tree, tree_spec, TreeError};

pub mod expression;
pub mod parse;
pub mod reserved;
pub mod text;
pub mod tokens;
pub mod tree;

verus! {

/// Why a pattern has no expression.
#[derive(Debug, PartialEq, Eq, Clone, Copy, Structural)]
pub enum Error {
    /// The pattern has no syntax tree: its structure is broken.
    Tree(TreeError),
    /// The pattern has a syntax tree, which holds a shape without a meaning.
    Unimplemented(Unimplemented),
}

/// The expression that a pattern means: the meaning of the syntax tree of
/// its tokens, or the first error on the way.
pub open spec fn compile_spec(pattern: Seq<char>) -> Result<ExpressionView, Error> {
    match tree_spec(tokenise_spec(pattern)) {
        Ok(node) => match parse_spec(node) {
            Ok(expression) => Ok(expression),
            Err(error) => Err(Error::Unimplemented(error)),
        },
        Err(error) => Err(Error::Tree(error)),
    }
}

/// The one witness that stands for a pattern.
pub open spec fn example_spec(pattern: Seq<char>) -> Result<Seq<char>, Error> {
    match compile_spec(pattern) {
        Ok(expression) => Ok(expression.example()),
        Err(error) => Err(error),
    }
}

/// The witnesses that are listed for a pattern, in their order.
pub open spec fn enumerate_spec(pattern: Seq<char>) -> Result<Seq<Seq<char>>, Error> {
    match compile_spec(pattern) {
        Ok(expression) => Ok(expression.enumerate()),
        Err(error) => Err(error),
    }
}

/// Compiles a pattern into the expression that it means. The expression
/// that comes out has an alternative in every choice.
pub fn parse(expression: String) -> (result: Result<Expression, Error>)
    ensures
        match result {
            Ok(compiled) => compile_spec(expression@) == Ok::<ExpressionView, Error>(compiled@)
                && compiled@.wf(),
            Err(error) => compile_spec(expression@) == Err::<ExpressionView, Error>(error),
        },
{
    let tokens = tokenise(expression.as_str());
    let node = match tree(tokens) {
        Ok(node) => node,
        Err(error) => {
            return Err(Error::Tree(error));
        },
    };
    match crate::parse::parse(&node) {
        Ok(compiled) => Ok(compiled),
        Err(error) => Err(Error::Unimplemented(error)),
    }
}

/// Gives one member of the language that the pattern describes.
pub fn example(expression: String) -> (result: Result<String, Error>)
    ensures
        match result {
            Ok(witness) => example_spec(expression@) == Ok::<Seq<char>, Error>(witness@),
            Err(error) => example_spec(expression@) == Err::<Seq<char>, Error>(error),
        },
{
    match parse(expression) {
        Ok(compiled) => Ok(compiled.example()),
        Err(error) => Err(error),
    }
}

/// Lists members of the language that the pattern describes. The list is
/// finite and need not hold every member.
pub fn enumerate(expression: String) -> (result: Result<Vec<String>, Error>)
    ensures
        match result {
            Ok(witnesses) => enumerate_spec(expression@) == Ok::<Seq<Seq<char>>, Error>(
                strings_view(witnesses@),
            ),
            Err(error) => enumerate_spec(expression@) == Err::<Seq<Seq<char>>, Error>(error),
        },
{
    match parse(expression) {
        Ok(compiled) => Ok(compiled.enumerate()),
        Err(error) => Err(error),
    }
}

/// Whether a character has a meaning of its own in a pattern.
pub open spec fn is_structural(c: char) -> bool {
    c == ESCAPE || c == '(' || c == ')' || c == '[' || c == ']' || c == '{' || c == '}' || c == '*'
        || c == '?' || c == '|'
}

/// A pattern without a structural character describes itself: it is its own
/// one witness, and the only witness that is listed for it.
pub proof fn lemma_plain_pattern(pattern: Seq<char>)
    requires
        forall|i: int| 0 <= i < pattern.len() ==> !is_structural(#[trigger] pattern[i]),
    ensures
        example_spec(pattern) == Ok::<Seq<char>, Error>(pattern),
        enumerate_spec(pattern) == Ok::<Seq<Seq<char>>, Error>(seq![pattern]),
{
    lemma_tokens_without_escape(pattern);
    let tokens = raw_tokens(pattern);
    assert(all_regular(tokens)) by {
        assert forall|i: int| 0 <= i < tokens.len() implies class_of(#[trigger] tokens[i])
            == TokenClass::Regular by {
            assert(!is_structural(pattern[i]));
        }
    }
    lemma_tree_of_regular(tokens);
    if pattern.len() == 0 {
        assert(pattern =~= Seq::<char>::empty());
    } else {
        assert(text_of(tokens) =~= pattern);
    }
}

/// The two ways of generating agree on every pattern that has an
/// expression: its one witness is among the witnesses that are listed for it.
pub proof fn lemma_example_is_enumerated(pattern: Seq<char>)
    requires
        compile_spec(pattern) is Ok,
    ensures
        example_spec(pattern) matches Ok(witness) && enumerate_spec(pattern) matches Ok(witnesses)
            && witnesses.contains(witness),
{
    let node = tree_spec(tokenise_spec(pattern)).unwrap();
    lemma_parse_wf(node);
    lemma_example_enumerated(compile_spec(pattern).unwrap());
}

/// A pattern that ends in an escape with nothing after it has no
/// expression: its structure is broken.
pub proof fn lemma_trailing_escape_rejected(pattern: Seq<char>)
    requires
        tokenise_spec(pattern).len() > 0,
        tokenise_spec(pattern).last() is TrailingEscapeCharacter,
    ensures
        compile_spec(pattern) matches Err(error) && error is Tree,
{
    lemma_trailing_escape(tokenise_spec(pattern));
}

/// Plain text followed by one escape is rejected for that escape, which is
/// reported with its position.
pub proof fn lemma_trailing_escape_after_plain(prefix: Seq<char>)
    requires
        forall|i: int| 0 <= i < prefix.len() ==> !is_structural(#[trigger] prefix[i]),
    ensures
        compile_spec(prefix.push(ESCAPE)) == Err::<ExpressionView, Error>(
            Error::Tree(
                TreeError::UnexpectedEscape(
                    Token::TrailingEscapeCharacter(TokenMeta { position: prefix.len() as usize }),
                ),
            ),
        ),
{
    lemma_tokens_with_trailing_escape(prefix);
    let plain = raw_tokens(prefix);
    let tokens = tokenise_spec(prefix.push(ESCAPE));
    assert(all_regular(plain)) by {
        assert forall|i: int| 0 <= i < plain.len() implies class_of(#[trigger] plain[i])
            == TokenClass::Regular by {
            assert(!is_structural(prefix[i]));
        }
    }
    lemma_run_of_regular(plain);
    assert(tokens.drop_last() =~= plain);
    lemma_trailing_escape(tokens);
}

/// The structure of a pattern is sound unless it holds a trailing escape or
/// a bracket without its match: every other pattern has a syntax tree, and a
/// pattern that has none is refused for the first token that breaks its
/// structure, or for the innermost bracket that is left open.
pub proof fn lemma_structure(pattern: Seq<char>)
    ensures
        tree_spec(tokenise_spec(pattern)) is Ok <==> balanced(tokenise_spec(pattern)),
        verdict(tokenise_spec(pattern)) matches Some(error) ==> compile_spec(pattern) == Err::<
            ExpressionView,
            Error,
        >(Error::Tree(error)),
{
    lemma_tree_verdict(tokenise_spec(pattern));
}

/// A pattern that uses an unescaped square bracket, brace or question mark
/// has no expression: where its structure is sound, so that it has a syntax
/// tree, that tree holds a shape without a meaning.
pub proof fn lemma_reserved_pattern(pattern: Seq<char>)
    requires
        exists|i: int|
            0 <= i < tokenise_spec(pattern).len() && reserved_token(
                #[trigger] tokenise_spec(pattern)[i],
            ),
    ensures
        compile_spec(pattern) is Err,
        tree_spec(tokenise_spec(pattern)) is Ok ==> (compile_spec(pattern) matches Err(error)
            && error is Unimplemented),
{
    let tokens = tokenise_spec(pattern);
    lemma_tree_reserved(tokens);
    match tree_spec(tokens) {
        Ok(node) => {
            lemma_parse_fails_on_reserved(node);
        },
        Err(_) => {},
    }
}

} // verus!

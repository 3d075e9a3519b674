//! What holds of the automaton on whole sequences of tokens.
use vstd::prelude::*;

use crate::tokens::Token;
use crate::tree::classify::{class_of, TokenClass};
use crate::tree::order::lemma_run_scan;
use crate::tree::{
    end_with_spec, finish_spec, run_spec, step_spec, tree_spec, NodeView, PartialNodeView,
    TreeError,
};

verus! {

/// Whether every token of a sequence is a literal character.
pub open spec fn all_regular(tokens: Seq<Token>) -> bool {
    forall|i: int| 0 <= i < tokens.len() ==> class_of(#[trigger] tokens[i]) == TokenClass::Regular
}

/// Literal characters that arrive on a run of literal characters extend it.
proof fn lemma_run_regular(run: Seq<Token>, rest: Seq<Token>)
    requires
        all_regular(rest),
    ensures
        run_spec(seq![PartialNodeView::Tokens(run)], rest) == Ok::<Seq<PartialNodeView>, TreeError>(
            seq![PartialNodeView::Tokens(run + rest)],
        ),
    decreases rest.len(),
{
    let stack = seq![PartialNodeView::Tokens(run)];
    if rest.len() == 0 {
        assert(run + rest =~= run);
    } else {
        assert(class_of(rest[0]) == TokenClass::Regular);
        assert(stack.drop_last().push(PartialNodeView::Tokens(run.push(rest.first())))
            =~= seq![PartialNodeView::Tokens(run.push(rest.first()))]);
        assert(all_regular(rest.drop_first())) by {
            assert forall|i: int| 0 <= i < rest.drop_first().len() implies class_of(
                #[trigger] rest.drop_first()[i],
            ) == TokenClass::Regular by {
                assert(rest.drop_first()[i] == rest[i + 1]);
            }
        }
        lemma_run_regular(run.push(rest.first()), rest.drop_first());
        assert(run.push(rest.first()) + rest.drop_first() =~= run + rest);
    }
}

/// Reading literal characters alone from the start leaves the run of them
/// all, and the fresh frame where there is none.
pub proof fn lemma_run_of_regular(tokens: Seq<Token>)
    requires
        all_regular(tokens),
    ensures
        run_spec(seq![PartialNodeView::Empty], tokens) == Ok::<Seq<PartialNodeView>, TreeError>(
            if tokens.len() == 0 {
                seq![PartialNodeView::Empty]
            } else {
                seq![PartialNodeView::Tokens(tokens)]
            },
        ),
{
    let start = seq![PartialNodeView::Empty];
    if tokens.len() > 0 {
        assert(class_of(tokens[0]) == TokenClass::Regular);
        let next = seq![PartialNodeView::Tokens(seq![tokens.first()])];
        assert(start.drop_last().push(PartialNodeView::Tokens(seq![tokens.first()])) =~= next);
        assert(step_spec(start, tokens.first()) == Ok::<Seq<PartialNodeView>, TreeError>(next));
        assert(all_regular(tokens.drop_first())) by {
            assert forall|i: int| 0 <= i < tokens.drop_first().len() implies class_of(
                #[trigger] tokens.drop_first()[i],
            ) == TokenClass::Regular by {
                assert(tokens.drop_first()[i] == tokens[i + 1]);
            }
        }
        lemma_run_regular(seq![tokens.first()], tokens.drop_first());
        assert(seq![tokens.first()] + tokens.drop_first() =~= tokens);
    }
}

/// The syntax tree of literal characters alone is the run of them all, and
/// the empty node where there is none.
pub proof fn lemma_tree_of_regular(tokens: Seq<Token>)
    requires
        all_regular(tokens),
    ensures
        tree_spec(tokens) == Ok::<NodeView, TreeError>(
            if tokens.len() == 0 {
                NodeView::Empty
            } else {
                NodeView::Tokens(tokens)
            },
        ),
{
    lemma_run_of_regular(tokens);
    let end = run_spec(seq![PartialNodeView::Empty], tokens).unwrap();
    assert(end.drop_last() =~= Seq::<PartialNodeView>::empty());
    assert(finish_spec(end, NodeView::Empty) == finish_spec(
        end.drop_last(),
        end_with_spec(end.last(), NodeView::Empty).unwrap(),
    ));
}

/// Reading a sequence of tokens is reading all but the last, then the last.
pub proof fn lemma_run_last(stack: Seq<PartialNodeView>, tokens: Seq<Token>)
    requires
        tokens.len() > 0,
    ensures
        run_spec(stack, tokens) == match run_spec(stack, tokens.drop_last()) {
            Ok(next) => step_spec(next, tokens.last()),
            Err(error) => Err(error),
        },
    decreases tokens.len(),
{
    if tokens.len() == 1 {
        assert(tokens.drop_last() =~= Seq::<Token>::empty());
        assert(tokens.drop_first() =~= Seq::<Token>::empty());
        match step_spec(stack, tokens.first()) {
            Ok(next) => {
                assert(run_spec(next, tokens.drop_first()) == Ok::<Seq<PartialNodeView>, TreeError>(
                    next,
                ));
            },
            Err(_) => {},
        }
    } else {
        assert(tokens.drop_last().drop_first() =~= tokens.drop_first().drop_last());
        assert(tokens.drop_last().first() == tokens.first());
        assert(tokens.drop_first().last() == tokens.last());
        match step_spec(stack, tokens.first()) {
            Ok(next) => {
                lemma_run_last(next, tokens.drop_first());
            },
            Err(_) => {},
        }
    }
}

/// A sequence of tokens that ends in a trailing escape has no syntax tree:
/// unless a token before it fails already, the escape is reported.
pub proof fn lemma_trailing_escape(tokens: Seq<Token>)
    requires
        tokens.len() > 0,
        tokens.last() is TrailingEscapeCharacter,
    ensures
        tree_spec(tokens) == match run_spec(seq![PartialNodeView::Empty], tokens.drop_last()) {
            Ok(_) => Err::<NodeView, TreeError>(TreeError::UnexpectedEscape(tokens.last())),
            Err(error) => Err(error),
        },
{
    let start = seq![PartialNodeView::Empty];
    assert(start.drop_last() =~= Seq::<PartialNodeView>::empty());
    lemma_run_last(start, tokens);
    lemma_run_scan(start, tokens.drop_last());
}

} // verus!

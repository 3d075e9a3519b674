//! The order in which the automaton keeps its frames, and what follows from
//! it: the token sequences that have a syntax tree are those whose brackets
//! are balanced and that hold no trailing escape.
use vstd::prelude::*;

use crate::tokens::Token;
use crate::tree::brackets::Bracket;
use crate::tree::classify::{class_of, TokenClass};
use crate::tree::{
    append_child_spec, bracket_of, close_bracket_spec, end_with_spec, finish_spec, fold_run_spec,
    marker_of, reduce_spec, run_spec, step_spec, tree_spec, NodeView, PartialNodeView, TreeError,
};

verus! {

/// The open brackets after `token` was read, where `opened` are the kinds of
/// the brackets that were open before it, the innermost last.
pub open spec fn scan_step(opened: Seq<Bracket>, token: Token) -> Result<Seq<Bracket>, TreeError> {
    let closing = bracket_of(token);
    let position = token.spec_meta().position;
    match class_of(token) {
        TokenClass::OpenBracket => Ok(opened.push(bracket_of(token))),
        TokenClass::CloseBracket => if opened.len() == 0 {
            Err(TreeError::CloseWithoutOpen { closing, position })
        } else if opened.last() != closing {
            Err(TreeError::MismatchedBrackets { opening: opened.last(), closing, position })
        } else {
            Ok(opened.drop_last())
        },
        TokenClass::Problematic => Err(TreeError::UnexpectedEscape(token)),
        _ => Ok(opened),
    }
}

/// The open brackets after all of `tokens` were read in order, or the error
/// of the first token that breaks the structure.
pub open spec fn scan(opened: Seq<Bracket>, tokens: Seq<Token>) -> Result<Seq<Bracket>, TreeError>
    decreases tokens.len(),
{
    if tokens.len() == 0 {
        Ok(opened)
    } else {
        match scan_step(opened, tokens.first()) {
            Ok(next) => scan(next, tokens.drop_first()),
            Err(error) => Err(error),
        }
    }
}

/// What is wrong with the structure of a sequence of tokens, if anything:
/// the first token that breaks it, or else the innermost bracket that is
/// still open at the end.
pub open spec fn verdict(tokens: Seq<Token>) -> Option<TreeError> {
    match scan(Seq::empty(), tokens) {
        Ok(opened) => if opened.len() == 0 {
            None
        } else {
            Some(TreeError::UnclosedBracket(opened.last()))
        },
        Err(error) => Some(error),
    }
}

/// Whether a sequence of tokens holds no trailing escape and only brackets
/// that are balanced, each closed by one of its own kind.
pub open spec fn balanced(tokens: Seq<Token>) -> bool {
    verdict(tokens) is None
}

/// Whether an error tells of the structure of a pattern: a trailing escape,
/// or a bracket without its match. The other errors tell of a stack that is
/// out of order.
pub open spec fn structural(error: TreeError) -> bool {
    error is UnexpectedEscape || error is MismatchedBrackets || error is CloseWithoutOpen
        || error is UnclosedBracket
}

/// Whether a frame can lie below another: it is an open bracket, the left
/// side of a choice, or a sequence that holds something.
pub open spec fn waiting(frame: PartialNodeView) -> bool {
    match frame {
        PartialNodeView::Bracketed(_) => true,
        PartialNodeView::Alternate(_) => true,
        PartialNodeView::Sequence(children) => children.len() > 0,
        _ => false,
    }
}

/// Whether a new sequence starts above a stack: the stack is empty, or ends
/// in an open bracket or in the left side of a choice.
pub open spec fn boundary(stack: Seq<PartialNodeView>) -> bool {
    stack.len() == 0 || stack.last() is Bracketed || stack.last() is Alternate
}

/// Whether every frame of a stack can lie below another, and only an open
/// bracket lies directly above a sequence.
pub open spec fn settled(stack: Seq<PartialNodeView>) -> bool {
    forall|i: int|
        0 <= i < stack.len() ==> waiting(#[trigger] stack[i]) && (stack[i] is Sequence && i + 1
            < stack.len() ==> stack[i + 1] is Bracketed)
}

/// Whether a stack is in order: tokens can be read into its top frame, the
/// frames below are settled, and no sequence lies directly below a fresh
/// frame or a sequence.
pub open spec fn orderly(stack: Seq<PartialNodeView>) -> bool {
    stack.len() > 0 && settled(stack.drop_last()) && match stack.last() {
        PartialNodeView::Empty => boundary(stack.drop_last()),
        PartialNodeView::Sequence(children) => children.len() > 0 && boundary(stack.drop_last()),
        PartialNodeView::Tokens(_) => true,
        _ => false,
    }
}

/// Whether a stack is settled and ends in a sequence.
pub open spec fn grown(stack: Seq<PartialNodeView>) -> bool {
    settled(stack) && stack.len() > 0 && stack.last() is Sequence
}

/// The kinds of the open brackets of a stack, the innermost last.
pub open spec fn brackets_of(stack: Seq<PartialNodeView>) -> Seq<Bracket>
    decreases stack.len(),
{
    if stack.len() == 0 {
        Seq::empty()
    } else {
        match stack.last() {
            PartialNodeView::Bracketed(bracket) => brackets_of(stack.drop_last()).push(bracket),
            _ => brackets_of(stack.drop_last()),
        }
    }
}

/// The open brackets of a stack with one more frame.
pub proof fn lemma_brackets_push(stack: Seq<PartialNodeView>, frame: PartialNodeView)
    ensures
        brackets_of(stack.push(frame)) == match frame {
            PartialNodeView::Bracketed(bracket) => brackets_of(stack).push(bracket),
            _ => brackets_of(stack),
        },
{
    assert(stack.push(frame).drop_last() =~= stack);
}

/// A settled stack without its top frame is settled, and starts a new
/// sequence if that frame was a sequence.
pub proof fn lemma_settled_drop_last(stack: Seq<PartialNodeView>)
    requires
        settled(stack),
        stack.len() > 0,
    ensures
        settled(stack.drop_last()),
        waiting(stack.last()),
        stack.last() is Sequence ==> boundary(stack.drop_last()),
{
    let below = stack.drop_last();
    assert forall|i: int| 0 <= i < below.len() implies waiting(#[trigger] below[i]) && (
    below[i] is Sequence && i + 1 < below.len() ==> below[i + 1] is Bracketed) by {
        assert(below[i] == stack[i]);
        if i + 1 < below.len() {
            assert(below[i + 1] == stack[i + 1]);
        }
    }
    if below.len() > 0 {
        assert(below.last() == stack[stack.len() - 2]);
        assert(waiting(stack[stack.len() - 2]));
    }
}

/// A settled stack stays settled under an open bracket.
proof fn lemma_settled_push_bracket(stack: Seq<PartialNodeView>, bracket: Bracket)
    requires
        settled(stack),
    ensures
        settled(stack.push(PartialNodeView::Bracketed(bracket))),
        brackets_of(stack.push(PartialNodeView::Bracketed(bracket))) == brackets_of(stack).push(
            bracket,
        ),
{
    let more = stack.push(PartialNodeView::Bracketed(bracket));
    lemma_brackets_push(stack, PartialNodeView::Bracketed(bracket));
    assert forall|i: int| 0 <= i < more.len() implies waiting(#[trigger] more[i]) && (
    more[i] is Sequence && i + 1 < more.len() ==> more[i + 1] is Bracketed) by {
        if i < stack.len() {
            assert(more[i] == stack[i]);
            if i + 1 < stack.len() {
                assert(more[i + 1] == stack[i + 1]);
            }
        }
    }
}

/// A settled stack above which a sequence starts stays settled under a frame
/// that can lie below another.
proof fn lemma_settled_push(stack: Seq<PartialNodeView>, frame: PartialNodeView)
    requires
        settled(stack),
        boundary(stack),
        waiting(frame),
    ensures
        settled(stack.push(frame)),
{
    let more = stack.push(frame);
    assert forall|i: int| 0 <= i < more.len() implies waiting(#[trigger] more[i]) && (
    more[i] is Sequence && i + 1 < more.len() ==> more[i + 1] is Bracketed) by {
        if i < stack.len() {
            assert(more[i] == stack[i]);
            if i + 1 < stack.len() {
                assert(more[i + 1] == stack[i + 1]);
            } else {
                assert(stack[i] == stack.last());
            }
        }
    }
}

/// A settled stack that ends in a sequence is in order.
proof fn lemma_grown_orderly(stack: Seq<PartialNodeView>)
    requires
        grown(stack),
    ensures
        orderly(stack),
{
    lemma_settled_drop_last(stack);
}

/// A frame into which tokens can be read, above a settled stack above which
/// a sequence starts, makes a stack in order.
proof fn lemma_orderly_push(stack: Seq<PartialNodeView>, frame: PartialNodeView)
    requires
        settled(stack),
        match frame {
            PartialNodeView::Empty => boundary(stack),
            PartialNodeView::Sequence(children) => children.len() > 0 && boundary(stack),
            PartialNodeView::Tokens(_) => true,
            _ => false,
        },
    ensures
        orderly(stack.push(frame)),
        brackets_of(stack.push(frame)) == brackets_of(stack),
{
    assert(stack.push(frame).drop_last() =~= stack);
    lemma_brackets_push(stack, frame);
}

/// Adding a child to a settled stack leaves a settled stack that ends in a
/// sequence, with the same open brackets.
proof fn lemma_append_child_grown(stack: Seq<PartialNodeView>, new: NodeView)
    requires
        settled(stack),
    ensures
        grown(append_child_spec(stack, new)),
        brackets_of(append_child_spec(stack, new)) == brackets_of(stack),
{
    let alone = PartialNodeView::Sequence(seq![new]);
    if stack.len() == 0 {
        lemma_settled_push(stack, alone);
        lemma_brackets_push(stack, alone);
        assert(stack.push(alone) =~= seq![alone]);
    } else {
        let below = stack.drop_last();
        lemma_settled_drop_last(stack);
        assert(below.push(stack.last()) =~= stack);
        lemma_brackets_push(below, stack.last());
        match stack.last() {
            PartialNodeView::Sequence(children) => {
                let more = PartialNodeView::Sequence(children.push(new));
                lemma_settled_push(below, more);
                lemma_brackets_push(below, more);
            },
            PartialNodeView::Bracketed(_) => {
                lemma_settled_push(stack, alone);
                lemma_brackets_push(stack, alone);
            },
            PartialNodeView::Alternate(_) => {
                lemma_settled_push(stack, alone);
                lemma_brackets_push(stack, alone);
            },
            _ => {},
        }
    }
}

/// Closing a bracket on a settled stack goes by the innermost open bracket
/// alone: where that bracket is of the closing kind, the stack stays
/// settled, ends in a sequence and has one open bracket less.
proof fn lemma_close_bracket_scan(
    stack: Seq<PartialNodeView>,
    closing: Bracket,
    position: usize,
    last_node: NodeView,
)
    requires
        settled(stack),
        last_node is Sequence ==> boundary(stack),
    ensures
        match close_bracket_spec(stack, closing, position, last_node) {
            Ok(next) => brackets_of(stack).len() > 0 && brackets_of(stack).last() == closing
                && grown(next) && brackets_of(next) == brackets_of(stack).drop_last(),
            Err(error) => if brackets_of(stack).len() == 0 {
                error == (TreeError::CloseWithoutOpen { closing, position })
            } else {
                brackets_of(stack).last() != closing && error == (TreeError::MismatchedBrackets {
                    opening: brackets_of(stack).last(),
                    closing,
                    position,
                })
            },
        },
    decreases stack.len(),
{
    if stack.len() > 0 {
        let below = stack.drop_last();
        lemma_settled_drop_last(stack);
        match stack.last() {
            PartialNodeView::Bracketed(opening) => {
                lemma_append_child_grown(below, NodeView::Bracketed(opening, Box::new(last_node)));
                assert(brackets_of(stack).drop_last() =~= brackets_of(below));
            },
            frame => {
                match end_with_spec(frame, last_node) {
                    Ok(node) => {
                        lemma_close_bracket_scan(below, closing, position, node);
                    },
                    Err(_) => {},
                }
            },
        }
    }
}

/// Folding a run of literal characters into a settled stack leaves a settled
/// stack that ends in a sequence, with the same open brackets.
proof fn lemma_fold_run_grown(below: Seq<PartialNodeView>, run: Seq<Token>)
    requires
        settled(below),
    ensures
        fold_run_spec(below, run) matches Ok(folded) && grown(folded) && brackets_of(folded)
            == brackets_of(below),
{
    lemma_append_child_grown(below, NodeView::Tokens(run));
    if below.len() > 0 {
        lemma_settled_drop_last(below);
    }
}

/// A move of the automaton from a stack in order goes by the open brackets
/// alone, and leaves a stack in order.
pub proof fn lemma_step_scan(stack: Seq<PartialNodeView>, token: Token)
    requires
        orderly(stack),
    ensures
        match step_spec(stack, token) {
            Ok(next) => orderly(next) && scan_step(brackets_of(stack), token) == Ok::<
                Seq<Bracket>,
                TreeError,
            >(brackets_of(next)),
            Err(error) => scan_step(brackets_of(stack), token) == Err::<Seq<Bracket>, TreeError>(
                error,
            ),
        },
{
    let below = stack.drop_last();
    let opened = brackets_of(stack);
    let kind = bracket_of(token);
    let position = token.spec_meta().position;
    let bracket = PartialNodeView::Bracketed(kind);
    let marker = NodeView::Special(marker_of(token));
    assert(opened == brackets_of(below));
    match stack.last() {
        PartialNodeView::Empty => {
            match class_of(token) {
                TokenClass::OpenBracket => {
                    lemma_settled_push_bracket(below, kind);
                    lemma_orderly_push(below.push(bracket), PartialNodeView::Empty);
                },
                TokenClass::CloseBracket => {
                    lemma_close_bracket_scan(below, kind, position, NodeView::Empty);
                    let closed = close_bracket_spec(below, kind, position, NodeView::Empty);
                    if closed is Ok {
                        lemma_grown_orderly(closed.unwrap());
                    }
                },
                TokenClass::Augmentation => {
                    lemma_orderly_push(below, PartialNodeView::Sequence(seq![marker]));
                },
                TokenClass::Regular => {
                    lemma_orderly_push(below, PartialNodeView::Tokens(seq![token]));
                },
                TokenClass::Problematic => {},
                TokenClass::Alternation => {
                    let left = PartialNodeView::Alternate(NodeView::Empty);
                    lemma_settled_push(below, left);
                    lemma_brackets_push(below, left);
                    lemma_orderly_push(below.push(left), PartialNodeView::Empty);
                },
            }
        },
        PartialNodeView::Sequence(children) => {
            let kept = below.push(PartialNodeView::Sequence(children));
            assert(kept =~= stack);
            match class_of(token) {
                TokenClass::OpenBracket => {
                    lemma_settled_push(below, PartialNodeView::Sequence(children));
                    lemma_settled_push_bracket(kept, kind);
                    lemma_orderly_push(kept.push(bracket), PartialNodeView::Empty);
                },
                TokenClass::CloseBracket => {
                    lemma_close_bracket_scan(below, kind, position, reduce_spec(children));
                    let closed = close_bracket_spec(below, kind, position, reduce_spec(children));
                    if closed is Ok {
                        lemma_grown_orderly(closed.unwrap());
                    }
                },
                TokenClass::Augmentation => {
                    let augmented = NodeView::Augmented(
                        Box::new(children.last()),
                        Box::new(marker),
                    );
                    lemma_orderly_push(
                        below,
                        PartialNodeView::Sequence(children.drop_last().push(augmented)),
                    );
                },
                TokenClass::Regular => {
                    lemma_settled_push(below, PartialNodeView::Sequence(children));
                    lemma_orderly_push(kept, PartialNodeView::Tokens(seq![token]));
                },
                TokenClass::Problematic => {},
                TokenClass::Alternation => {
                    let left = PartialNodeView::Alternate(reduce_spec(children));
                    lemma_settled_push(below, left);
                    lemma_brackets_push(below, left);
                    lemma_orderly_push(below.push(left), PartialNodeView::Empty);
                },
            }
        },
        PartialNodeView::Tokens(run) => {
            match class_of(token) {
                TokenClass::OpenBracket => {
                    lemma_fold_run_grown(below, run);
                    let folded = fold_run_spec(below, run).unwrap();
                    lemma_settled_push_bracket(folded, kind);
                    lemma_orderly_push(folded.push(bracket), PartialNodeView::Empty);
                },
                TokenClass::CloseBracket => {
                    lemma_close_bracket_scan(below, kind, position, NodeView::Tokens(run));
                    let closed = close_bracket_spec(below, kind, position, NodeView::Tokens(run));
                    if closed is Ok {
                        lemma_grown_orderly(closed.unwrap());
                    }
                },
                TokenClass::Augmentation => {
                    if run.len() > 0 {
                        let rest = append_child_spec(below, NodeView::Tokens(run.drop_last()));
                        let augmented = NodeView::Augmented(
                            Box::new(NodeView::Tokens(seq![run.last()])),
                            Box::new(marker),
                        );
                        lemma_append_child_grown(below, NodeView::Tokens(run.drop_last()));
                        lemma_append_child_grown(rest, augmented);
                        lemma_grown_orderly(append_child_spec(rest, augmented));
                    } else {
                        lemma_append_child_grown(below, marker);
                        lemma_grown_orderly(append_child_spec(below, marker));
                    }
                },
                TokenClass::Regular => {
                    lemma_orderly_push(below, PartialNodeView::Tokens(run.push(token)));
                },
                TokenClass::Problematic => {},
                TokenClass::Alternation => {
                    lemma_fold_run_grown(below, run);
                    let folded = fold_run_spec(below, run).unwrap();
                    lemma_settled_drop_last(folded);
                    let children = folded.last()->Sequence_0;
                    let left = PartialNodeView::Alternate(reduce_spec(children));
                    assert(folded.drop_last().push(folded.last()) =~= folded);
                    lemma_brackets_push(folded.drop_last(), folded.last());
                    lemma_settled_push(folded.drop_last(), left);
                    lemma_brackets_push(folded.drop_last(), left);
                    lemma_orderly_push(folded.drop_last().push(left), PartialNodeView::Empty);
                },
            }
        },
        _ => {},
    }
}

/// Reading tokens from a stack in order goes by the open brackets alone, and
/// leaves a stack in order.
pub proof fn lemma_run_scan(stack: Seq<PartialNodeView>, tokens: Seq<Token>)
    requires
        orderly(stack),
    ensures
        match run_spec(stack, tokens) {
            Ok(next) => orderly(next) && scan(brackets_of(stack), tokens) == Ok::<
                Seq<Bracket>,
                TreeError,
            >(brackets_of(next)),
            Err(error) => scan(brackets_of(stack), tokens) == Err::<Seq<Bracket>, TreeError>(error),
        },
    decreases tokens.len(),
{
    if tokens.len() > 0 {
        lemma_step_scan(stack, tokens.first());
        match step_spec(stack, tokens.first()) {
            Ok(next) => {
                lemma_run_scan(next, tokens.drop_first());
            },
            Err(_) => {},
        }
    }
}

/// Ending the frames of a settled stack gives a node unless a bracket is
/// still open; the innermost open bracket is then reported.
proof fn lemma_finish_settled(stack: Seq<PartialNodeView>, node: NodeView)
    requires
        settled(stack),
        node is Sequence ==> boundary(stack),
    ensures
        match finish_spec(stack, node) {
            Ok(_) => brackets_of(stack).len() == 0,
            Err(error) => brackets_of(stack).len() > 0 && error == TreeError::UnclosedBracket(
                brackets_of(stack).last(),
            ),
        },
    decreases stack.len(),
{
    if stack.len() > 0 {
        lemma_settled_drop_last(stack);
        match end_with_spec(stack.last(), node) {
            Ok(next) => {
                lemma_finish_settled(stack.drop_last(), next);
            },
            Err(_) => {},
        }
    }
}

/// The automaton builds a syntax tree for exactly the sequences of tokens
/// whose structure is sound, and reports of the others what is wrong with
/// them.
pub proof fn lemma_tree_verdict(tokens: Seq<Token>)
    ensures
        match tree_spec(tokens) {
            Ok(_) => verdict(tokens) is None,
            Err(error) => verdict(tokens) == Some(error),
        },
{
    let start = seq![PartialNodeView::Empty];
    assert(start.drop_last() =~= Seq::<PartialNodeView>::empty());
    assert(brackets_of(Seq::<PartialNodeView>::empty()) =~= Seq::<Bracket>::empty());
    assert(brackets_of(start) =~= Seq::<Bracket>::empty());
    lemma_run_scan(start, tokens);
    match run_spec(start, tokens) {
        Ok(stack) => {
            assert(brackets_of(stack) == brackets_of(stack.drop_last()));
            match end_with_spec(stack.last(), NodeView::Empty) {
                Ok(node) => {
                    lemma_finish_settled(stack.drop_last(), node);
                },
                Err(_) => {},
            }
        },
        Err(_) => {},
    }
}

/// Reading tokens for their brackets fails only for the structure of the
/// pattern.
proof fn lemma_scan_structural(opened: Seq<Bracket>, tokens: Seq<Token>)
    ensures
        scan(opened, tokens) matches Err(error) ==> structural(error),
    decreases tokens.len(),
{
    if tokens.len() > 0 {
        match scan_step(opened, tokens.first()) {
            Ok(next) => {
                lemma_scan_structural(next, tokens.drop_first());
            },
            Err(_) => {},
        }
    }
}

/// Building a syntax tree fails only for the structure of the pattern: the
/// stack of the automaton never gets out of order.
pub proof fn lemma_tree_errors(tokens: Seq<Token>)
    ensures
        tree_spec(tokens) matches Err(error) ==> structural(error),
{
    lemma_tree_verdict(tokens);
    lemma_scan_structural(Seq::empty(), tokens);
}

/// Every sequence of tokens without a trailing escape, whose brackets are
/// balanced and each closed by one of its own kind, has a syntax tree; and
/// no other sequence has one.
pub proof fn lemma_tree_of_balanced(tokens: Seq<Token>)
    ensures
        tree_spec(tokens) is Ok <==> balanced(tokens),
{
    lemma_tree_verdict(tokens);
}

} // verus!

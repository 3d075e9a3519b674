//! The choice binds less than all that stands beside it: the tokens on
//! either side of a `|` are built as if they stood alone.
use vstd::prelude::*;

use crate::expression::{lemma_unions_add, ExpressionView};
use crate::parse::{
    alternatives_spec, lemma_parse_all_add, lemma_parse_alternate, lemma_parse_by_alternatives,
    parse_all_spec, parse_spec, Unimplemented,
};
use crate::tokens::Token;
use crate::tree::brackets::Bracket;
use crate::tree::classify::{class_of, TokenClass};
use crate::tree::order::{
    balanced, boundary, brackets_of, lemma_brackets_push, lemma_run_scan, lemma_settled_drop_last,
    lemma_step_scan, lemma_tree_verdict, orderly, scan, settled,
};
use crate::tree::{
    append_child_spec, bracket_of, close_bracket_spec, end_with_spec, finish_spec, fold_run_spec,
    marker_of, reduce_spec, run_spec, step_spec, tree_spec, NodeView, PartialNodeView, TreeError,
};

verus! {

/// Whether every frame of a stack is the left side of a choice.
pub open spec fn choices_only(stack: Seq<PartialNodeView>) -> bool {
    forall|i: int| 0 <= i < stack.len() ==> (#[trigger] stack[i]) is Alternate
}

/// The alternatives that wait in a stack as left sides of choices, the
/// outermost first.
pub open spec fn waiting_alternatives(stack: Seq<PartialNodeView>) -> Seq<NodeView>
    decreases stack.len(),
{
    if stack.len() == 0 {
        Seq::empty()
    } else {
        match stack.last() {
            PartialNodeView::Alternate(left) => waiting_alternatives(stack.drop_last())
                + alternatives_spec(left),
            _ => waiting_alternatives(stack.drop_last()),
        }
    }
}

/// A stack put on top of another, with its result.
pub open spec fn framed(base: Seq<PartialNodeView>, result: Result<Seq<PartialNodeView>, TreeError>)
     -> Result<Seq<PartialNodeView>, TreeError> {
    match result {
        Ok(stack) => Ok(base + stack),
        Err(error) => Err(error),
    }
}

/// Reading two sequences of tokens, one after the other, is reading the
/// first and then the second.
pub proof fn lemma_run_add(stack: Seq<PartialNodeView>, first: Seq<Token>, second: Seq<Token>)
    ensures
        run_spec(stack, first + second) == match run_spec(stack, first) {
            Ok(next) => run_spec(next, second),
            Err(error) => Err(error),
        },
    decreases first.len(),
{
    if first.len() == 0 {
        assert(first + second =~= second);
    } else {
        assert((first + second).first() == first.first());
        assert((first + second).drop_first() =~= first.drop_first() + second);
        match step_spec(stack, first.first()) {
            Ok(next) => {
                lemma_run_add(next, first.drop_first(), second);
            },
            Err(_) => {},
        }
    }
}

/// Adding a child goes by the top of the stack alone: what lies below, and
/// starts a new sequence above it, stays aside.
proof fn lemma_append_child_framed(
    base: Seq<PartialNodeView>,
    stack: Seq<PartialNodeView>,
    new: NodeView,
)
    requires
        boundary(base),
    ensures
        append_child_spec(base + stack, new) == base + append_child_spec(stack, new),
{
    let alone = PartialNodeView::Sequence(seq![new]);
    if stack.len() == 0 {
        assert(base + stack =~= base);
        assert(base.push(alone) =~= base + seq![alone]);
    } else {
        let below = stack.drop_last();
        assert((base + stack).last() == stack.last());
        assert((base + stack).drop_last() =~= base + below);
        match stack.last() {
            PartialNodeView::Empty => {
                assert((base + below).push(alone) =~= base + below.push(alone));
            },
            PartialNodeView::Sequence(children) => {
                let more = PartialNodeView::Sequence(children.push(new));
                assert((base + below).push(more) =~= base + below.push(more));
            },
            PartialNodeView::Tokens(run) => {
                let both = PartialNodeView::Sequence(seq![NodeView::Tokens(run), new]);
                assert((base + below).push(both) =~= base + below.push(both));
            },
            _ => {
                assert((base + stack).push(alone) =~= base + stack.push(alone));
            },
        }
    }
}

/// Folding a run goes by the top of the stack alone.
proof fn lemma_fold_run_framed(
    base: Seq<PartialNodeView>,
    below: Seq<PartialNodeView>,
    run: Seq<Token>,
)
    requires
        boundary(base),
    ensures
        fold_run_spec(base + below, run) == framed(base, fold_run_spec(below, run)),
        fold_run_spec(below, run) matches Ok(folded) ==> folded.len() > 0,
{
    let alone = PartialNodeView::Sequence(seq![NodeView::Tokens(run)]);
    if below.len() == 0 {
        assert(base + below =~= base);
        assert(base.push(alone) =~= base + seq![alone]);
    } else {
        assert((base + below).last() == below.last());
        assert((base + below).drop_last() =~= base + below.drop_last());
        match below.last() {
            PartialNodeView::Sequence(children) => {
                let more = PartialNodeView::Sequence(children.push(NodeView::Tokens(run)));
                assert((base + below.drop_last()).push(more) =~= base + below.drop_last().push(
                    more,
                ));
            },
            PartialNodeView::Bracketed(_) | PartialNodeView::Alternate(_) => {
                assert((base + below).push(alone) =~= base + below.push(alone));
            },
            _ => {},
        }
    }
}

/// Closing a bracket goes by the frames down to the innermost open bracket
/// alone.
proof fn lemma_close_bracket_framed(
    base: Seq<PartialNodeView>,
    stack: Seq<PartialNodeView>,
    closing: Bracket,
    position: usize,
    last_node: NodeView,
)
    requires
        boundary(base),
        brackets_of(stack).len() > 0,
    ensures
        close_bracket_spec(base + stack, closing, position, last_node) == framed(
            base,
            close_bracket_spec(stack, closing, position, last_node),
        ),
    decreases stack.len(),
{
    if stack.len() > 0 {
        let below = stack.drop_last();
        assert((base + stack).last() == stack.last());
        assert((base + stack).drop_last() =~= base + below);
        match stack.last() {
            PartialNodeView::Bracketed(opening) => {
                lemma_append_child_framed(
                    base,
                    below,
                    NodeView::Bracketed(opening, Box::new(last_node)),
                );
            },
            frame => {
                match end_with_spec(frame, last_node) {
                    Ok(node) => {
                        lemma_close_bracket_framed(base, below, closing, position, node);
                    },
                    Err(_) => {},
                }
            },
        }
    }
}

/// A move of the automaton that closes no bracket of what lies below leaves
/// that aside.
proof fn lemma_step_framed(base: Seq<PartialNodeView>, stack: Seq<PartialNodeView>, token: Token)
    requires
        boundary(base),
        stack.len() > 0,
        class_of(token) == TokenClass::CloseBracket ==> brackets_of(stack).len() > 0,
    ensures
        step_spec(base + stack, token) == framed(base, step_spec(stack, token)),
{
    let below = stack.drop_last();
    let position = token.spec_meta().position;
    let kind = bracket_of(token);
    let bracket = PartialNodeView::Bracketed(kind);
    let marker = NodeView::Special(marker_of(token));
    let fresh = PartialNodeView::Empty;
    assert((base + stack).last() == stack.last());
    assert((base + stack).drop_last() =~= base + below);
    match stack.last() {
        PartialNodeView::Empty => {
            match class_of(token) {
                TokenClass::OpenBracket => {
                    assert((base + below).push(bracket).push(fresh) =~= base + below.push(
                        bracket,
                    ).push(fresh));
                },
                TokenClass::CloseBracket => {
                    lemma_close_bracket_framed(base, below, kind, position, NodeView::Empty);
                },
                TokenClass::Augmentation => {
                    let alone = PartialNodeView::Sequence(seq![marker]);
                    assert((base + below).push(alone) =~= base + below.push(alone));
                },
                TokenClass::Regular => {
                    let run = PartialNodeView::Tokens(seq![token]);
                    assert((base + below).push(run) =~= base + below.push(run));
                },
                TokenClass::Problematic => {},
                TokenClass::Alternation => {
                    let left = PartialNodeView::Alternate(NodeView::Empty);
                    assert((base + below).push(left).push(fresh) =~= base + below.push(left).push(
                        fresh,
                    ));
                },
            }
        },
        PartialNodeView::Sequence(children) => {
            let kept = PartialNodeView::Sequence(children);
            match class_of(token) {
                TokenClass::OpenBracket => {
                    assert((base + below).push(kept).push(bracket).push(fresh) =~= base
                        + below.push(kept).push(bracket).push(fresh));
                },
                TokenClass::CloseBracket => {
                    lemma_close_bracket_framed(
                        base,
                        below,
                        kind,
                        position,
                        reduce_spec(children),
                    );
                },
                TokenClass::Augmentation => {
                    if children.len() > 0 {
                        let marked = PartialNodeView::Sequence(
                            children.drop_last().push(
                                NodeView::Augmented(Box::new(children.last()), Box::new(marker)),
                            ),
                        );
                        assert((base + below).push(marked) =~= base + below.push(marked));
                    }
                },
                TokenClass::Regular => {
                    let run = PartialNodeView::Tokens(seq![token]);
                    assert((base + below).push(kept).push(run) =~= base + below.push(kept).push(
                        run,
                    ));
                },
                TokenClass::Problematic => {},
                TokenClass::Alternation => {
                    let left = PartialNodeView::Alternate(reduce_spec(children));
                    assert((base + below).push(left).push(fresh) =~= base + below.push(left).push(
                        fresh,
                    ));
                },
            }
        },
        PartialNodeView::Tokens(run) => {
            match class_of(token) {
                TokenClass::OpenBracket => {
                    lemma_fold_run_framed(base, below, run);
                    match fold_run_spec(below, run) {
                        Ok(folded) => {
                            assert((base + folded).push(bracket).push(fresh) =~= base
                                + folded.push(bracket).push(fresh));
                        },
                        Err(_) => {},
                    }
                },
                TokenClass::CloseBracket => {
                    lemma_close_bracket_framed(base, below, kind, position, NodeView::Tokens(run));
                },
                TokenClass::Augmentation => {
                    if run.len() > 0 {
                        let rest = NodeView::Tokens(run.drop_last());
                        let augmented = NodeView::Augmented(
                            Box::new(NodeView::Tokens(seq![run.last()])),
                            Box::new(marker),
                        );
                        lemma_append_child_framed(base, below, rest);
                        lemma_append_child_framed(base, append_child_spec(below, rest), augmented);
                    } else {
                        lemma_append_child_framed(base, below, marker);
                    }
                },
                TokenClass::Regular => {
                    let more = PartialNodeView::Tokens(run.push(token));
                    assert((base + below).push(more) =~= base + below.push(more));
                },
                TokenClass::Problematic => {},
                TokenClass::Alternation => {
                    lemma_fold_run_framed(base, below, run);
                    match fold_run_spec(below, run) {
                        Ok(folded) => {
                            assert((base + folded).last() == folded.last());
                            assert((base + folded).drop_last() =~= base + folded.drop_last());
                            match folded.last() {
                                PartialNodeView::Sequence(children) => {
                                    let left = PartialNodeView::Alternate(
                                        reduce_spec(children),
                                    );
                                    assert((base + folded.drop_last()).push(left).push(fresh)
                                        =~= base + folded.drop_last().push(left).push(fresh));
                                },
                                _ => {},
                            }
                        },
                        Err(_) => {},
                    }
                },
            }
        },
        _ => {},
    }
}

/// Reading tokens that close no bracket of what lies below leaves that
/// aside.
pub proof fn lemma_run_framed(
    base: Seq<PartialNodeView>,
    stack: Seq<PartialNodeView>,
    tokens: Seq<Token>,
)
    requires
        boundary(base),
        orderly(stack),
        scan(brackets_of(stack), tokens) is Ok,
    ensures
        run_spec(stack, tokens) matches Ok(next) && run_spec(base + stack, tokens) == Ok::<
            Seq<PartialNodeView>,
            TreeError,
        >(base + next),
    decreases tokens.len(),
{
    lemma_run_scan(stack, tokens);
    if tokens.len() > 0 {
        lemma_step_scan(stack, tokens.first());
        lemma_step_framed(base, stack, tokens.first());
        let next = step_spec(stack, tokens.first()).unwrap();
        lemma_run_framed(base, next, tokens.drop_first());
    }
}

/// Ending the frames of a stack on top of another is ending the upper
/// frames, then the lower ones.
pub proof fn lemma_finish_framed(
    base: Seq<PartialNodeView>,
    stack: Seq<PartialNodeView>,
    node: NodeView,
)
    ensures
        finish_spec(base + stack, node) == match finish_spec(stack, node) {
            Ok(next) => finish_spec(base, next),
            Err(error) => Err(error),
        },
    decreases stack.len(),
{
    if stack.len() == 0 {
        assert(base + stack =~= base);
    } else {
        assert((base + stack).last() == stack.last());
        assert((base + stack).drop_last() =~= base + stack.drop_last());
        match end_with_spec(stack.last(), node) {
            Ok(next) => {
                lemma_finish_framed(base, stack.drop_last(), next);
            },
            Err(_) => {},
        }
    }
}

/// Ending a stack of left sides of choices gives the chain of them all, with
/// the node as its last alternative.
pub proof fn lemma_finish_choices(stack: Seq<PartialNodeView>, node: NodeView)
    requires
        choices_only(stack),
    ensures
        finish_spec(stack, node) matches Ok(root) && alternatives_spec(root)
            == waiting_alternatives(stack) + alternatives_spec(node) && (stack.len() > 0
            ==> root is Alternate),
    decreases stack.len(),
{
    if stack.len() == 0 {
        assert(waiting_alternatives(stack) + alternatives_spec(node) =~= alternatives_spec(node));
    } else {
        let below = stack.drop_last();
        assert(stack.last() == stack[stack.len() - 1]);
        assert forall|i: int| 0 <= i < below.len() implies (#[trigger] below[i]) is Alternate by {
            assert(below[i] == stack[i]);
        }
        let left = stack.last()->Alternate_0;
        let chosen = NodeView::Alternate(Box::new(left), Box::new(node));
        lemma_finish_choices(below, chosen);
        assert(alternatives_spec(chosen) == alternatives_spec(left) + alternatives_spec(node));
        assert(waiting_alternatives(below) + (alternatives_spec(left) + alternatives_spec(node))
            =~= (waiting_alternatives(below) + alternatives_spec(left)) + alternatives_spec(node));
    }
}

/// A stack without open brackets holds no open bracket.
proof fn lemma_no_bracket(stack: Seq<PartialNodeView>, at: int)
    requires
        brackets_of(stack).len() == 0,
        0 <= at < stack.len(),
    ensures
        !(stack[at] is Bracketed),
    decreases stack.len(),
{
    if at < stack.len() - 1 {
        assert(stack.drop_last()[at] == stack[at]);
        lemma_no_bracket(stack.drop_last(), at);
    }
}

/// A settled stack without open brackets, above which a new sequence
/// starts, holds left sides of choices only.
proof fn lemma_settled_choices(stack: Seq<PartialNodeView>)
    requires
        settled(stack),
        boundary(stack),
        brackets_of(stack).len() == 0,
    ensures
        choices_only(stack),
{
    assert forall|i: int| 0 <= i < stack.len() implies (#[trigger] stack[i]) is Alternate by {
        lemma_no_bracket(stack, i);
        if i + 1 < stack.len() {
            lemma_no_bracket(stack, i + 1);
        } else {
            assert(stack[i] == stack.last());
        }
    }
}

/// A stack of left sides of choices stays one under one more.
proof fn lemma_choices_push(stack: Seq<PartialNodeView>, left: NodeView)
    requires
        choices_only(stack),
    ensures
        choices_only(stack.push(PartialNodeView::Alternate(left))),
        boundary(stack.push(PartialNodeView::Alternate(left))),
        waiting_alternatives(stack.push(PartialNodeView::Alternate(left))) == waiting_alternatives(
            stack,
        ) + alternatives_spec(left),
{
    let more = stack.push(PartialNodeView::Alternate(left));
    assert(more.drop_last() =~= stack);
    assert forall|i: int| 0 <= i < more.len() implies (#[trigger] more[i]) is Alternate by {
        if i < stack.len() {
            assert(more[i] == stack[i]);
        }
    }
}

/// Where no bracket is open, a `|` turns all that was read since the last
/// `|` into the left side of a choice, which is the node that the end of the
/// input would have made of it.
proof fn lemma_bar_step(stack: Seq<PartialNodeView>, bar: Token)
    requires
        orderly(stack),
        brackets_of(stack).len() == 0,
        class_of(bar) == TokenClass::Alternation,
    ensures
        step_spec(stack, bar) matches Ok(next) && ({
            let below = next.drop_last().drop_last();
            let left = next.drop_last().last();
            &&& next.len() >= 2
            &&& next.last() is Empty
            &&& left is Alternate
            &&& choices_only(below)
            &&& finish_spec(stack, NodeView::Empty) == finish_spec(below, left->Alternate_0)
        }),
{
    let below = stack.drop_last();
    let fresh = PartialNodeView::Empty;
    assert(brackets_of(stack) == brackets_of(below));
    match stack.last() {
        PartialNodeView::Empty => {
            let left = PartialNodeView::Alternate(NodeView::Empty);
            let next = below.push(left).push(fresh);
            assert(next.drop_last() =~= below.push(left));
            assert(next.drop_last().drop_last() =~= below);
            lemma_settled_choices(below);
        },
        PartialNodeView::Sequence(children) => {
            let left = PartialNodeView::Alternate(reduce_spec(children));
            let next = below.push(left).push(fresh);
            assert(next.drop_last() =~= below.push(left));
            assert(next.drop_last().drop_last() =~= below);
            lemma_settled_choices(below);
        },
        PartialNodeView::Tokens(run) => {
            let tokens = NodeView::Tokens(run);
            assert(finish_spec(stack, NodeView::Empty) == finish_spec(below, tokens));
            if below.len() == 0 {
                let empty = Seq::<PartialNodeView>::empty();
                let folded = seq![PartialNodeView::Sequence(seq![tokens])];
                let left = PartialNodeView::Alternate(tokens);
                let next = folded.drop_last().push(left).push(fresh);
                assert(folded.drop_last() =~= empty);
                assert(next.drop_last() =~= empty.push(left));
                assert(next.drop_last().drop_last() =~= empty);
                assert(below =~= empty);
            } else {
                lemma_settled_drop_last(below);
                assert(below.drop_last().push(below.last()) =~= below);
                lemma_brackets_push(below.drop_last(), below.last());
                match below.last() {
                    PartialNodeView::Sequence(children) => {
                        let more = children.push(tokens);
                        let folded = below.drop_last().push(PartialNodeView::Sequence(more));
                        let left = PartialNodeView::Alternate(reduce_spec(more));
                        let next = folded.drop_last().push(left).push(fresh);
                        assert(folded.drop_last() =~= below.drop_last());
                        assert(next.drop_last() =~= below.drop_last().push(left));
                        assert(next.drop_last().drop_last() =~= below.drop_last());
                        lemma_settled_choices(below.drop_last());
                    },
                    _ => {
                        let folded = below.push(PartialNodeView::Sequence(seq![tokens]));
                        let left = PartialNodeView::Alternate(tokens);
                        let next = folded.drop_last().push(left).push(fresh);
                        assert(folded.drop_last() =~= below);
                        assert(next.drop_last() =~= below.push(left));
                        assert(next.drop_last().drop_last() =~= below);
                        lemma_no_bracket(below, below.len() - 1);
                        lemma_settled_choices(below);
                    },
                }
            }
        },
        _ => {},
    }
}

/// The choice binds less than all that stands beside it: where the tokens
/// on either side of a `|` are sound on their own, the whole has a syntax
/// tree, and its alternatives are those of the tree of the left side,
/// followed by those of the tree of the right side.
pub proof fn lemma_choice_splits(left: Seq<Token>, bar: Token, right: Seq<Token>)
    requires
        balanced(left),
        balanced(right),
        class_of(bar) == TokenClass::Alternation,
    ensures
        tree_spec(left + seq![bar] + right) matches Ok(whole) && tree_spec(left) matches Ok(first)
            && tree_spec(right) matches Ok(second) && whole is Alternate && alternatives_spec(
            whole,
        ) == alternatives_spec(first) + alternatives_spec(second),
{
    let start = seq![PartialNodeView::Empty];
    let none = Seq::<PartialNodeView>::empty();
    assert(start.drop_last() =~= none);
    assert(brackets_of(none) =~= Seq::<Bracket>::empty());
    assert(brackets_of(start) =~= Seq::<Bracket>::empty());
    lemma_tree_verdict(left);
    lemma_tree_verdict(right);
    lemma_run_scan(start, left);
    let read = run_spec(start, left).unwrap();
    lemma_bar_step(read, bar);
    let next = step_spec(read, bar).unwrap();
    let below = next.drop_last().drop_last();
    let chosen = next.drop_last().last()->Alternate_0;
    let base = below.push(PartialNodeView::Alternate(chosen));
    assert(base =~= next.drop_last());
    assert(next =~= base + start);
    lemma_choices_push(below, chosen);
    lemma_finish_choices(below, chosen);
    lemma_run_framed(base, start, right);
    let rest = run_spec(start, right).unwrap();
    lemma_finish_framed(base, rest, NodeView::Empty);
    let second = tree_spec(right).unwrap();
    lemma_finish_choices(base, second);
    lemma_run_add(start, left, seq![bar] + right);
    lemma_run_add(read, seq![bar], right);
    assert(left + seq![bar] + right =~= left + (seq![bar] + right));
    assert(seq![bar].drop_first() =~= Seq::<Token>::empty());
    assert(run_spec(next, Seq::<Token>::empty()) == Ok::<Seq<PartialNodeView>, TreeError>(next));
    assert(run_spec(read, seq![bar]) == Ok::<Seq<PartialNodeView>, TreeError>(next));
    assert((waiting_alternatives(below) + alternatives_spec(chosen)) + alternatives_spec(second)
        =~= waiting_alternatives(base) + alternatives_spec(second));
}

/// What a `|` means: where the tokens on either side are sound on their own
/// and have a meaning, the whole lists the witnesses of the left side
/// followed by those of the right side, and its one witness is that of the
/// left side.
pub proof fn lemma_choice_lists_both_sides(
    left: Seq<Token>,
    bar: Token,
    right: Seq<Token>,
    most: nat,
)
    requires
        balanced(left),
        balanced(right),
        class_of(bar) == TokenClass::Alternation,
        parse_spec(tree_spec(left).unwrap()) is Ok,
        parse_spec(tree_spec(right).unwrap()) is Ok,
    ensures
        tree_spec(left + seq![bar] + right) matches Ok(whole) && parse_spec(whole) matches Ok(
            choice,
        ) && ({
            let first = parse_spec(tree_spec(left).unwrap()).unwrap();
            let second = parse_spec(tree_spec(right).unwrap()).unwrap();
            &&& choice.enumerate_up_to(most) == first.enumerate_up_to(most)
                + second.enumerate_up_to(most)
            &&& choice.example() == first.example()
        }),
{
    lemma_choice_splits(left, bar, right);
    let whole = tree_spec(left + seq![bar] + right).unwrap();
    let first = tree_spec(left).unwrap();
    let second = tree_spec(right).unwrap();
    lemma_parse_by_alternatives(first, most);
    lemma_parse_by_alternatives(second, most);
    let firsts = parse_all_spec(alternatives_spec(first)).unwrap();
    let seconds = parse_all_spec(alternatives_spec(second)).unwrap();
    lemma_parse_all_add(alternatives_spec(first), alternatives_spec(second));
    lemma_parse_alternate(*whole->Alternate_0, *whole->Alternate_1);
    lemma_unions_add(firsts, seconds, most);
    assert(parse_spec(whole) == Ok::<ExpressionView, Unimplemented>(
        ExpressionView::Alternate(firsts + seconds),
    ));
    assert((firsts + seconds)[0] == firsts[0]);
}

} // verus!

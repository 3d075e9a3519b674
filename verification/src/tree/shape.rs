//! The shape of the trees that the automaton builds: every sequence in them
//! is fully reduced.
use vstd::prelude::*;

use crate::tokens::Token;
use crate::tree::brackets::Bracket;
use crate::tree::classify::{class_of, TokenClass};
use crate::tree::{
    append_child_spec, bracket_of, close_bracket_spec, end_with_spec, finish_spec,
    fold_run_spec, marker_of, reduce_spec, run_spec, step_spec, tree_spec, NodeView,
    PartialNodeView,
};

verus! {

/// Whether a syntax tree is fully reduced: every sequence in it holds at
/// least two children, none of which is a sequence itself.
pub open spec fn reduced(node: NodeView) -> bool
    decreases node,
{
    match node {
        NodeView::Empty => true,
        NodeView::Tokens(_) => true,
        NodeView::Special(_) => true,
        NodeView::Sequence(children) => children.len() >= 2 && forall|i: int|
            0 <= i < children.len() ==> member(#[trigger] children[i]),
        NodeView::Bracketed(_, content) => reduced(*content),
        NodeView::Augmented(content, marker) => reduced(*content) && reduced(*marker),
        NodeView::Alternate(left, right) => reduced(*left) && reduced(*right),
    }
}

/// Whether a node can be the child of a sequence: it is fully reduced and no
/// sequence itself.
pub open spec fn member(node: NodeView) -> bool
    decreases node,
{
    match node {
        NodeView::Sequence(_) => false,
        NodeView::Empty => true,
        NodeView::Tokens(_) => true,
        NodeView::Special(_) => true,
        NodeView::Bracketed(_, content) => reduced(*content),
        NodeView::Augmented(content, marker) => reduced(*content) && reduced(*marker),
        NodeView::Alternate(left, right) => reduced(*left) && reduced(*right),
    }
}

/// Whether every node of a list can be the child of a sequence.
pub open spec fn members(nodes: Seq<NodeView>) -> bool {
    forall|i: int| 0 <= i < nodes.len() ==> member(#[trigger] nodes[i])
}

/// Whether a frame holds only what a fully reduced tree can be made of.
pub open spec fn frame_reduced(frame: PartialNodeView) -> bool {
    match frame {
        PartialNodeView::Sequence(children) => members(children),
        PartialNodeView::Alternate(left) => reduced(left),
        _ => true,
    }
}

/// Whether every frame of a stack holds only what a fully reduced tree can
/// be made of.
pub open spec fn stack_reduced(stack: Seq<PartialNodeView>) -> bool {
    forall|i: int| 0 <= i < stack.len() ==> frame_reduced(#[trigger] stack[i])
}

/// What can be the child of a sequence is fully reduced.
proof fn lemma_member_reduced(node: NodeView)
    requires
        member(node),
    ensures
        reduced(node),
{
}

/// A fully reduced node that is no sequence can be the child of one.
proof fn lemma_reduced_member(node: NodeView)
    requires
        reduced(node),
        !(node is Sequence),
    ensures
        member(node),
{
}

/// A list of children as one node is fully reduced.
proof fn lemma_reduce_reduced(children: Seq<NodeView>)
    requires
        members(children),
    ensures
        reduced(reduce_spec(children)),
{
    if children.len() == 1 {
        lemma_member_reduced(children[0]);
    } else if children.len() >= 2 {
        let node = NodeView::Sequence(children);
        assert(node->Sequence_0 == children);
    }
}

/// The node that a frame becomes is fully reduced.
proof fn lemma_end_with_reduced(frame: PartialNodeView, terminator: NodeView)
    requires
        frame_reduced(frame),
        reduced(terminator),
    ensures
        end_with_spec(frame, terminator) matches Ok(node) ==> reduced(node),
{
    match frame {
        PartialNodeView::Sequence(children) => {
            if !(terminator is Sequence) {
                lemma_reduced_member(terminator);
                lemma_reduce_reduced(children);
                lemma_reduce_reduced(children.push(terminator));
            }
        },
        _ => {},
    }
}

/// A stack stays reduced when a reduced frame is pushed.
proof fn lemma_push_reduced(stack: Seq<PartialNodeView>, frame: PartialNodeView)
    requires
        stack_reduced(stack),
        frame_reduced(frame),
    ensures
        stack_reduced(stack.push(frame)),
{
}

/// A stack stays reduced when its top frame is taken off.
proof fn lemma_drop_last_reduced(stack: Seq<PartialNodeView>)
    requires
        stack_reduced(stack),
        stack.len() > 0,
    ensures
        stack_reduced(stack.drop_last()),
        frame_reduced(stack.last()),
{
    assert forall|i: int| 0 <= i < stack.drop_last().len() implies frame_reduced(
        #[trigger] stack.drop_last()[i],
    ) by {
        assert(stack.drop_last()[i] == stack[i]);
    }
}

/// Adding a child that a sequence can hold keeps the stack reduced.
proof fn lemma_append_child_reduced(stack: Seq<PartialNodeView>, new: NodeView)
    requires
        stack_reduced(stack),
        member(new),
    ensures
        stack_reduced(append_child_spec(stack, new)),
{
    let alone = PartialNodeView::Sequence(seq![new]);
    assert(frame_reduced(alone));
    if stack.len() == 0 {
        lemma_push_reduced(Seq::empty(), alone);
        assert(Seq::<PartialNodeView>::empty().push(alone) =~= seq![alone]);
    } else {
        let below = stack.drop_last();
        lemma_drop_last_reduced(stack);
        match stack.last() {
            PartialNodeView::Empty => {
                lemma_push_reduced(below, alone);
            },
            PartialNodeView::Sequence(children) => {
                lemma_push_reduced(below, PartialNodeView::Sequence(children.push(new)));
            },
            PartialNodeView::Tokens(run) => {
                lemma_push_reduced(
                    below,
                    PartialNodeView::Sequence(seq![NodeView::Tokens(run), new]),
                );
            },
            PartialNodeView::Bracketed(_) | PartialNodeView::Alternate(_) => {
                lemma_push_reduced(stack, alone);
            },
        }
    }
}

/// Closing a bracket keeps the stack reduced.
proof fn lemma_close_bracket_reduced(
    stack: Seq<PartialNodeView>,
    closing: Bracket,
    position: usize,
    last_node: NodeView,
)
    requires
        stack_reduced(stack),
        reduced(last_node),
    ensures
        close_bracket_spec(stack, closing, position, last_node) matches Ok(next) ==> stack_reduced(next),
    decreases stack.len(),
{
    if stack.len() > 0 {
        lemma_drop_last_reduced(stack);
        match stack.last() {
            PartialNodeView::Bracketed(opening) => {
                lemma_drop_last_reduced(stack);
                lemma_append_child_reduced(
                    stack.drop_last(),
                    NodeView::Bracketed(opening, Box::new(last_node)),
                );
            },
            frame => {
                lemma_end_with_reduced(frame, last_node);
                match end_with_spec(frame, last_node) {
                    Ok(node) => {
                        lemma_close_bracket_reduced(stack.drop_last(), closing, position, node);
                    },
                    Err(_) => {},
                }
            },
        }
    }
}

/// Folding a run of literal characters into its frame keeps the stack
/// reduced.
proof fn lemma_fold_run_reduced(below: Seq<PartialNodeView>, run: Seq<Token>)
    requires
        stack_reduced(below),
    ensures
        fold_run_spec(below, run) matches Ok(folded) ==> stack_reduced(folded),
{
    if below.len() > 0 {
        lemma_drop_last_reduced(below);
        match below.last() {
            PartialNodeView::Sequence(children) => {
                lemma_push_reduced(
                    below.drop_last(),
                    PartialNodeView::Sequence(children.push(NodeView::Tokens(run))),
                );
            },
            _ => {
                lemma_push_reduced(below, PartialNodeView::Sequence(seq![NodeView::Tokens(run)]));
            },
        }
    } else {
        let alone = PartialNodeView::Sequence(seq![NodeView::Tokens(run)]);
        lemma_push_reduced(below, alone);
        assert(below.push(alone) =~= seq![alone]);
    }
}

/// Every move of the automaton keeps the stack reduced.
pub proof fn lemma_step_reduced(stack: Seq<PartialNodeView>, token: Token)
    requires
        stack_reduced(stack),
    ensures
        step_spec(stack, token) matches Ok(next) ==> stack_reduced(next),
{
    if stack.len() > 0 {
        let below = stack.drop_last();
        let bracket = PartialNodeView::Bracketed(bracket_of(token));
        let marker = NodeView::Special(marker_of(token));
        lemma_drop_last_reduced(stack);
        match stack.last() {
            PartialNodeView::Empty => {
                match class_of(token) {
                    TokenClass::OpenBracket => {
                        lemma_push_reduced(below, bracket);
                        lemma_push_reduced(below.push(bracket), PartialNodeView::Empty);
                    },
                    TokenClass::CloseBracket => {
                        lemma_close_bracket_reduced(
                            below,
                            bracket_of(token),
                            token.spec_meta().position,
                            NodeView::Empty,
                        );
                    },
                    TokenClass::Augmentation => {
                        lemma_push_reduced(below, PartialNodeView::Sequence(seq![marker]));
                    },
                    TokenClass::Regular => {
                        lemma_push_reduced(below, PartialNodeView::Tokens(seq![token]));
                    },
                    TokenClass::Problematic => {},
                    TokenClass::Alternation => {
                        let left = PartialNodeView::Alternate(NodeView::Empty);
                        lemma_push_reduced(below, left);
                        lemma_push_reduced(below.push(left), PartialNodeView::Empty);
                    },
                }
            },
            PartialNodeView::Sequence(children) => {
                let kept = below.push(PartialNodeView::Sequence(children));
                assert(kept =~= stack);
                lemma_reduce_reduced(children);
                match class_of(token) {
                    TokenClass::OpenBracket => {
                        lemma_push_reduced(kept, bracket);
                        lemma_push_reduced(kept.push(bracket), PartialNodeView::Empty);
                    },
                    TokenClass::CloseBracket => {
                        lemma_close_bracket_reduced(
                            below,
                            bracket_of(token),
                            token.spec_meta().position,
                            reduce_spec(children),
                        );
                    },
                    TokenClass::Augmentation => {
                        if children.len() > 0 {
                            let augmented = NodeView::Augmented(
                                Box::new(children.last()),
                                Box::new(marker),
                            );
                            lemma_member_reduced(children.last());
                            let marked = children.drop_last().push(augmented);
                            assert(members(marked)) by {
                                assert forall|i: int| 0 <= i < marked.len() implies member(
                                    #[trigger] marked[i],
                                ) by {
                                    if i < children.len() - 1 {
                                        assert(marked[i] == children[i]);
                                    }
                                }
                            }
                            lemma_push_reduced(below, PartialNodeView::Sequence(marked));
                        }
                    },
                    TokenClass::Regular => {
                        lemma_push_reduced(kept, PartialNodeView::Tokens(seq![token]));
                    },
                    TokenClass::Problematic => {},
                    TokenClass::Alternation => {
                        let left = PartialNodeView::Alternate(reduce_spec(children));
                        lemma_push_reduced(below, left);
                        lemma_push_reduced(below.push(left), PartialNodeView::Empty);
                    },
                }
            },
            PartialNodeView::Tokens(run) => {
                match class_of(token) {
                    TokenClass::OpenBracket => {
                        lemma_fold_run_reduced(below, run);
                        match fold_run_spec(below, run) {
                            Ok(folded) => {
                                lemma_push_reduced(folded, bracket);
                                lemma_push_reduced(folded.push(bracket), PartialNodeView::Empty);
                            },
                            Err(_) => {},
                        }
                    },
                    TokenClass::CloseBracket => {
                        lemma_close_bracket_reduced(
                            below,
                            bracket_of(token),
                            token.spec_meta().position,
                            NodeView::Tokens(run),
                        );
                    },
                    TokenClass::Augmentation => {
                        if run.len() > 0 {
                            let rest = append_child_spec(below, NodeView::Tokens(run.drop_last()));
                            lemma_append_child_reduced(below, NodeView::Tokens(run.drop_last()));
                            lemma_append_child_reduced(
                                rest,
                                NodeView::Augmented(
                                    Box::new(NodeView::Tokens(seq![run.last()])),
                                    Box::new(marker),
                                ),
                            );
                        } else {
                            lemma_append_child_reduced(below, marker);
                        }
                    },
                    TokenClass::Regular => {
                        lemma_push_reduced(below, PartialNodeView::Tokens(run.push(token)));
                    },
                    TokenClass::Problematic => {},
                    TokenClass::Alternation => {
                        lemma_fold_run_reduced(below, run);
                        match fold_run_spec(below, run) {
                            Ok(folded) => {
                                if folded.len() > 0 {
                                    lemma_drop_last_reduced(folded);
                                    match folded.last() {
                                        PartialNodeView::Sequence(children) => {
                                            let left = PartialNodeView::Alternate(
                                                reduce_spec(children),
                                            );
                                            lemma_reduce_reduced(children);
                                            lemma_push_reduced(folded.drop_last(), left);
                                            lemma_push_reduced(
                                                folded.drop_last().push(left),
                                                PartialNodeView::Empty,
                                            );
                                        },
                                        _ => {},
                                    }
                                }
                            },
                            Err(_) => {},
                        }
                    },
                }
            },
            _ => {},
        }
    }
}

/// Reading tokens keeps the stack reduced.
pub proof fn lemma_run_reduced(stack: Seq<PartialNodeView>, tokens: Seq<Token>)
    requires
        stack_reduced(stack),
    ensures
        run_spec(stack, tokens) matches Ok(next) ==> stack_reduced(next),
    decreases tokens.len(),
{
    if tokens.len() > 0 {
        lemma_step_reduced(stack, tokens.first());
        match step_spec(stack, tokens.first()) {
            Ok(next) => {
                lemma_run_reduced(next, tokens.drop_first());
            },
            Err(_) => {},
        }
    }
}

/// Ending the frames of a reduced stack gives a fully reduced tree.
pub proof fn lemma_finish_reduced(stack: Seq<PartialNodeView>, node: NodeView)
    requires
        stack_reduced(stack),
        reduced(node),
    ensures
        finish_spec(stack, node) matches Ok(root) ==> reduced(root),
    decreases stack.len(),
{
    if stack.len() > 0 {
        lemma_drop_last_reduced(stack);
        lemma_end_with_reduced(stack.last(), node);
        match end_with_spec(stack.last(), node) {
            Ok(next) => {
                lemma_finish_reduced(stack.drop_last(), next);
            },
            Err(_) => {},
        }
    }
}

/// Every syntax tree that the automaton builds is fully reduced.
pub proof fn lemma_tree_reduced(tokens: Seq<Token>)
    ensures
        tree_spec(tokens) matches Ok(root) ==> reduced(root),
{
    let start = seq![PartialNodeView::Empty];
    lemma_run_reduced(start, tokens);
    match run_spec(start, tokens) {
        Ok(stack) => {
            lemma_finish_reduced(stack, NodeView::Empty);
        },
        Err(_) => {},
    }
}

} // verus!

//! Reserved characters never get lost on the way from the tokens to the
//! syntax tree: a pattern that uses one has a tree without a meaning, or no
//! tree at all.
use vstd::prelude::*;

use crate::parse::reserved;
use crate::tokens::Token;
use crate::tree::brackets::Bracket;
use crate::tree::classify::{class_of, TokenClass};
use crate::tree::{
    append_child_spec, bracket_of, close_bracket_spec, end_with_spec, finish_spec,
    fold_run_spec, marker_of, reduce_spec, run_spec, step_spec, tree_spec, NodeView,
    PartialNodeView,
};

verus! {

/// Whether a token is an unescaped square bracket, brace or question mark.
pub open spec fn reserved_token(token: Token) -> bool {
    token matches Token::Raw(c, _) && (c == '[' || c == ']' || c == '{' || c == '}' || c == '?')
}

/// Whether one of the nodes of a list holds a reserved shape.
pub open spec fn any_reserved(nodes: Seq<NodeView>) -> bool {
    exists|i: int| 0 <= i < nodes.len() && reserved(#[trigger] nodes[i])
}

/// Whether a frame holds a reserved shape already.
pub open spec fn frame_reserved(frame: PartialNodeView) -> bool {
    match frame {
        PartialNodeView::Empty => false,
        PartialNodeView::Tokens(_) => false,
        PartialNodeView::Sequence(children) => any_reserved(children),
        PartialNodeView::Bracketed(bracket) => bracket != Bracket::Parentheses,
        PartialNodeView::Alternate(left) => reserved(left),
    }
}

/// Whether one of the frames of a stack holds a reserved shape already.
pub open spec fn stack_reserved(stack: Seq<PartialNodeView>) -> bool {
    exists|i: int| 0 <= i < stack.len() && frame_reserved(#[trigger] stack[i])
}

/// A sequence holds a reserved shape where one of its children does.
proof fn lemma_sequence_reserved(children: Seq<NodeView>)
    ensures
        reserved(NodeView::Sequence(children)) == any_reserved(children),
{
    let node = NodeView::Sequence(children);
    assert(node->Sequence_0 == children);
}

/// A list with one more node holds a reserved shape where the list or the
/// node does.
proof fn lemma_any_reserved_push(nodes: Seq<NodeView>, node: NodeView)
    ensures
        any_reserved(nodes.push(node)) == (any_reserved(nodes) || reserved(node)),
{
    let more = nodes.push(node);
    if any_reserved(nodes) {
        let i = choose|i: int| 0 <= i < nodes.len() && reserved(#[trigger] nodes[i]);
        assert(reserved(more[i]));
    }
    if reserved(node) {
        assert(reserved(more[nodes.len() as int]));
    }
    if any_reserved(more) {
        let i = choose|i: int| 0 <= i < more.len() && reserved(#[trigger] more[i]);
        if i < nodes.len() {
            assert(reserved(nodes[i]));
        }
    }
}

/// A list without its last node, together with that node, holds what the
/// list holds.
proof fn lemma_any_reserved_last(nodes: Seq<NodeView>)
    requires
        nodes.len() > 0,
    ensures
        any_reserved(nodes) == (any_reserved(nodes.drop_last()) || reserved(nodes.last())),
{
    assert(nodes.drop_last().push(nodes.last()) =~= nodes);
    lemma_any_reserved_push(nodes.drop_last(), nodes.last());
}

/// A stack with one more frame holds a reserved shape where the stack or the
/// frame does.
proof fn lemma_stack_reserved_push(stack: Seq<PartialNodeView>, frame: PartialNodeView)
    ensures
        stack_reserved(stack.push(frame)) == (stack_reserved(stack) || frame_reserved(frame)),
{
    let more = stack.push(frame);
    if stack_reserved(stack) {
        let i = choose|i: int| 0 <= i < stack.len() && frame_reserved(#[trigger] stack[i]);
        assert(frame_reserved(more[i]));
    }
    if frame_reserved(frame) {
        assert(frame_reserved(more[stack.len() as int]));
    }
    if stack_reserved(more) {
        let i = choose|i: int| 0 <= i < more.len() && frame_reserved(#[trigger] more[i]);
        if i < stack.len() {
            assert(frame_reserved(stack[i]));
        }
    }
}

/// A stack without its top frame, together with that frame, holds what the
/// stack holds.
proof fn lemma_stack_reserved_last(stack: Seq<PartialNodeView>)
    requires
        stack.len() > 0,
    ensures
        stack_reserved(stack) == (stack_reserved(stack.drop_last()) || frame_reserved(
            stack.last(),
        )),
{
    assert(stack.drop_last().push(stack.last()) =~= stack);
    lemma_stack_reserved_push(stack.drop_last(), stack.last());
}

/// One stack on top of another holds a reserved shape where one of the two
/// does.
proof fn lemma_stack_reserved_add(below: Seq<PartialNodeView>, above: Seq<PartialNodeView>)
    ensures
        stack_reserved(below + above) == (stack_reserved(below) || stack_reserved(above)),
    decreases above.len(),
{
    if above.len() == 0 {
        assert(below + above =~= below);
        assert(!stack_reserved(above));
    } else {
        assert(below + above =~= (below + above.drop_last()).push(above.last()));
        lemma_stack_reserved_add(below, above.drop_last());
        lemma_stack_reserved_push(below + above.drop_last(), above.last());
        lemma_stack_reserved_last(above);
    }
}

/// A list of children as one node holds a reserved shape where one of the
/// children does.
proof fn lemma_reduce_reserved(children: Seq<NodeView>)
    ensures
        reserved(reduce_spec(children)) == any_reserved(children),
{
    if children.len() == 1 {
        if reserved(children[0]) {
            assert(any_reserved(children));
        }
    } else if children.len() > 1 {
        lemma_sequence_reserved(children);
    }
}

/// The node that a frame becomes holds the reserved shapes of the frame and
/// of what ended it.
proof fn lemma_end_with_reserved(frame: PartialNodeView, terminator: NodeView)
    ensures
        end_with_spec(frame, terminator) matches Ok(node) ==> (reserved(node) == (frame_reserved(
            frame,
        ) || reserved(terminator))),
{
    match frame {
        PartialNodeView::Sequence(children) => {
            lemma_reduce_reserved(children);
            lemma_reduce_reserved(children.push(terminator));
            lemma_any_reserved_push(children, terminator);
        },
        _ => {},
    }
}

/// A list of one node holds a reserved shape where the node does.
proof fn lemma_any_reserved_one(node: NodeView)
    ensures
        any_reserved(seq![node]) == reserved(node),
{
    lemma_any_reserved_push(Seq::empty(), node);
    assert(!any_reserved(Seq::<NodeView>::empty()));
    assert(Seq::<NodeView>::empty().push(node) =~= seq![node]);
}

/// A stack of one frame holds a reserved shape where the frame does.
proof fn lemma_stack_reserved_one(frame: PartialNodeView)
    ensures
        stack_reserved(seq![frame]) == frame_reserved(frame),
{
    lemma_stack_reserved_push(Seq::empty(), frame);
    assert(!stack_reserved(Seq::<PartialNodeView>::empty()));
    assert(Seq::<PartialNodeView>::empty().push(frame) =~= seq![frame]);
}

/// Adding a child keeps the reserved shapes of the stack and of the child.
proof fn lemma_append_child_reserved(stack: Seq<PartialNodeView>, new: NodeView)
    ensures
        stack_reserved(append_child_spec(stack, new)) == (stack_reserved(stack) || reserved(new)),
{
    lemma_any_reserved_one(new);
    if stack.len() == 0 {
        lemma_stack_reserved_one(PartialNodeView::Sequence(seq![new]));
        assert(!stack_reserved(stack));
    } else {
        let below = stack.drop_last();
        lemma_stack_reserved_last(stack);
        match stack.last() {
            PartialNodeView::Empty => {
                lemma_stack_reserved_push(below, PartialNodeView::Sequence(seq![new]));
            },
            PartialNodeView::Sequence(children) => {
                lemma_any_reserved_push(children, new);
                lemma_stack_reserved_push(below, PartialNodeView::Sequence(children.push(new)));
            },
            PartialNodeView::Tokens(run) => {
                lemma_any_reserved_one(NodeView::Tokens(run));
                lemma_any_reserved_push(seq![NodeView::Tokens(run)], new);
                assert(seq![NodeView::Tokens(run)].push(new) =~= seq![NodeView::Tokens(run), new]);
                lemma_stack_reserved_push(
                    below,
                    PartialNodeView::Sequence(seq![NodeView::Tokens(run), new]),
                );
            },
            PartialNodeView::Bracketed(_) | PartialNodeView::Alternate(_) => {
                lemma_stack_reserved_push(stack, PartialNodeView::Sequence(seq![new]));
            },
        }
    }
}

/// Closing a bracket keeps the reserved shapes of the stack and of what was
/// read, and a bracket other than a parenthesis is one itself.
proof fn lemma_close_bracket_reserved(
    stack: Seq<PartialNodeView>,
    closing: Bracket,
    position: usize,
    last_node: NodeView,
)
    ensures
        close_bracket_spec(stack, closing, position, last_node) matches Ok(next) ==> (stack_reserved(next) == (
        stack_reserved(stack) || reserved(last_node) || closing != Bracket::Parentheses)),
    decreases stack.len(),
{
    if stack.len() > 0 {
        lemma_stack_reserved_last(stack);
        match stack.last() {
            PartialNodeView::Bracketed(opening) => {
                lemma_append_child_reserved(
                    stack.drop_last(),
                    NodeView::Bracketed(opening, Box::new(last_node)),
                );
            },
            frame => {
                lemma_end_with_reserved(frame, last_node);
                match end_with_spec(frame, last_node) {
                    Ok(node) => {
                        lemma_close_bracket_reserved(stack.drop_last(), closing, position, node);
                    },
                    Err(_) => {},
                }
            },
        }
    }
}

/// Folding a run of literal characters into its frame keeps the reserved
/// shapes of the stack.
proof fn lemma_fold_run_reserved(below: Seq<PartialNodeView>, run: Seq<Token>)
    ensures
        fold_run_spec(below, run) matches Ok(folded) ==> (stack_reserved(folded) == stack_reserved(
            below,
        )),
{
    if below.len() > 0 {
        lemma_stack_reserved_last(below);
        lemma_any_reserved_one(NodeView::Tokens(run));
        match below.last() {
            PartialNodeView::Sequence(children) => {
                lemma_any_reserved_push(children, NodeView::Tokens(run));
                lemma_stack_reserved_push(
                    below.drop_last(),
                    PartialNodeView::Sequence(children.push(NodeView::Tokens(run))),
                );
            },
            _ => {
                lemma_stack_reserved_push(
                    below,
                    PartialNodeView::Sequence(seq![NodeView::Tokens(run)]),
                );
            },
        }
    } else {
        lemma_any_reserved_one(NodeView::Tokens(run));
        lemma_stack_reserved_one(PartialNodeView::Sequence(seq![NodeView::Tokens(run)]));
        assert(!stack_reserved(below));
    }
}

/// A move of the automaton keeps the reserved shapes of the stack, and a
/// reserved token leaves one.
pub proof fn lemma_step_reserved(stack: Seq<PartialNodeView>, token: Token)
    requires
        stack_reserved(stack) || reserved_token(token),
    ensures
        step_spec(stack, token) matches Ok(next) ==> stack_reserved(next),
{
    if stack.len() > 0 {
        let below = stack.drop_last();
        let opened = below.push(PartialNodeView::Bracketed(bracket_of(token)));
        lemma_stack_reserved_last(stack);
        match stack.last() {
            PartialNodeView::Empty => {
                match class_of(token) {
                    TokenClass::OpenBracket => {
                        lemma_stack_reserved_push(
                            below,
                            PartialNodeView::Bracketed(bracket_of(token)),
                        );
                        lemma_stack_reserved_push(opened, PartialNodeView::Empty);
                    },
                    TokenClass::CloseBracket => {
                        lemma_close_bracket_reserved(
                            below,
                            bracket_of(token),
                            token.spec_meta().position,
                            NodeView::Empty,
                        );
                    },
                    TokenClass::Augmentation => {
                        lemma_any_reserved_one(NodeView::Special(marker_of(token)));
                        lemma_stack_reserved_push(
                            below,
                            PartialNodeView::Sequence(seq![NodeView::Special(marker_of(token))]),
                        );
                    },
                    TokenClass::Regular => {
                        lemma_stack_reserved_push(below, PartialNodeView::Tokens(seq![token]));
                    },
                    TokenClass::Problematic => {},
                    TokenClass::Alternation => {
                        let left = below.push(PartialNodeView::Alternate(NodeView::Empty));
                        lemma_stack_reserved_push(below, PartialNodeView::Alternate(NodeView::Empty));
                        lemma_stack_reserved_push(left, PartialNodeView::Empty);
                    },
                }
            },
            PartialNodeView::Sequence(children) => {
                let kept = below.push(PartialNodeView::Sequence(children));
                lemma_stack_reserved_push(below, PartialNodeView::Sequence(children));
                match class_of(token) {
                    TokenClass::OpenBracket => {
                        let opened = kept.push(PartialNodeView::Bracketed(bracket_of(token)));
                        lemma_stack_reserved_push(
                            kept,
                            PartialNodeView::Bracketed(bracket_of(token)),
                        );
                        lemma_stack_reserved_push(opened, PartialNodeView::Empty);
                    },
                    TokenClass::CloseBracket => {
                        lemma_reduce_reserved(children);
                        lemma_close_bracket_reserved(
                            below,
                            bracket_of(token),
                            token.spec_meta().position,
                            reduce_spec(children),
                        );
                    },
                    TokenClass::Augmentation => {
                        if children.len() > 0 {
                            let augmented = NodeView::Augmented(
                                Box::new(children.last()),
                                Box::new(NodeView::Special(marker_of(token))),
                            );
                            lemma_any_reserved_last(children);
                            lemma_any_reserved_push(children.drop_last(), augmented);
                            lemma_stack_reserved_push(
                                below,
                                PartialNodeView::Sequence(children.drop_last().push(augmented)),
                            );
                        }
                    },
                    TokenClass::Regular => {
                        lemma_stack_reserved_push(kept, PartialNodeView::Tokens(seq![token]));
                    },
                    TokenClass::Problematic => {},
                    TokenClass::Alternation => {
                        let left = PartialNodeView::Alternate(reduce_spec(children));
                        lemma_reduce_reserved(children);
                        lemma_stack_reserved_push(below, left);
                        lemma_stack_reserved_push(below.push(left), PartialNodeView::Empty);
                    },
                }
            },
            PartialNodeView::Tokens(run) => {
                match class_of(token) {
                    TokenClass::OpenBracket => {
                        lemma_fold_run_reserved(below, run);
                        match fold_run_spec(below, run) {
                            Ok(folded) => {
                                let opened = folded.push(
                                    PartialNodeView::Bracketed(bracket_of(token)),
                                );
                                lemma_stack_reserved_push(
                                    folded,
                                    PartialNodeView::Bracketed(bracket_of(token)),
                                );
                                lemma_stack_reserved_push(opened, PartialNodeView::Empty);
                            },
                            Err(_) => {},
                        }
                    },
                    TokenClass::CloseBracket => {
                        lemma_close_bracket_reserved(
                            below,
                            bracket_of(token),
                            token.spec_meta().position,
                            NodeView::Tokens(run),
                        );
                    },
                    TokenClass::Augmentation => {
                        if run.len() > 0 {
                            let rest = append_child_spec(below, NodeView::Tokens(run.drop_last()));
                            lemma_append_child_reserved(below, NodeView::Tokens(run.drop_last()));
                            lemma_append_child_reserved(
                                rest,
                                NodeView::Augmented(
                                    Box::new(NodeView::Tokens(seq![run.last()])),
                                    Box::new(NodeView::Special(marker_of(token))),
                                ),
                            );
                        } else {
                            lemma_append_child_reserved(
                                below,
                                NodeView::Special(marker_of(token)),
                            );
                        }
                    },
                    TokenClass::Regular => {
                        lemma_stack_reserved_push(below, PartialNodeView::Tokens(run.push(token)));
                    },
                    TokenClass::Problematic => {},
                    TokenClass::Alternation => {
                        lemma_fold_run_reserved(below, run);
                        match fold_run_spec(below, run) {
                            Ok(folded) => {
                                if folded.len() > 0 {
                                    lemma_stack_reserved_last(folded);
                                    match folded.last() {
                                        PartialNodeView::Sequence(children) => {
                                            let left = PartialNodeView::Alternate(
                                                reduce_spec(children),
                                            );
                                            lemma_reduce_reserved(children);
                                            lemma_stack_reserved_push(folded.drop_last(), left);
                                            lemma_stack_reserved_push(
                                                folded.drop_last().push(left),
                                                PartialNodeView::Empty,
                                            );
                                        },
                                        _ => {},
                                    }
                                }
                            },
                            Err(_) => {},
                        }
                    },
                }
            },
            _ => {},
        }
    }
}

/// Reading tokens keeps the reserved shapes of the stack, and a reserved
/// token among them leaves one.
pub proof fn lemma_run_reserved(stack: Seq<PartialNodeView>, tokens: Seq<Token>)
    requires
        stack_reserved(stack) || exists|i: int|
            0 <= i < tokens.len() && reserved_token(#[trigger] tokens[i]),
    ensures
        run_spec(stack, tokens) matches Ok(next) ==> stack_reserved(next),
    decreases tokens.len(),
{
    if tokens.len() > 0 {
        match step_spec(stack, tokens.first()) {
            Ok(next) => {
                if stack_reserved(stack) || reserved_token(tokens.first()) {
                    lemma_step_reserved(stack, tokens.first());
                } else {
                    let i = choose|i: int|
                        0 <= i < tokens.len() && reserved_token(#[trigger] tokens[i]);
                    assert(reserved_token(tokens.drop_first()[i - 1]));
                }
                lemma_run_reserved(next, tokens.drop_first());
            },
            Err(_) => {},
        }
    }
}

/// Ending the frames of a stack keeps its reserved shapes.
pub proof fn lemma_finish_reserved(stack: Seq<PartialNodeView>, node: NodeView)
    requires
        stack_reserved(stack) || reserved(node),
    ensures
        finish_spec(stack, node) matches Ok(root) ==> reserved(root),
    decreases stack.len(),
{
    if stack.len() > 0 {
        lemma_stack_reserved_last(stack);
        lemma_end_with_reserved(stack.last(), node);
        match end_with_spec(stack.last(), node) {
            Ok(next) => {
                lemma_finish_reserved(stack.drop_last(), next);
            },
            Err(_) => {},
        }
    }
}

/// The syntax tree of tokens with a reserved token among them, if there is
/// one, holds a reserved shape.
pub proof fn lemma_tree_reserved(tokens: Seq<Token>)
    requires
        exists|i: int| 0 <= i < tokens.len() && reserved_token(#[trigger] tokens[i]),
    ensures
        tree_spec(tokens) matches Ok(root) ==> reserved(root),
{
    let start = seq![PartialNodeView::Empty];
    lemma_run_reserved(start, tokens);
    match run_spec(start, tokens) {
        Ok(stack) => {
            lemma_finish_reserved(stack, NodeView::Empty);
        },
        Err(_) => {},
    }
}

} // verus!

//! The tree builder: a stack automaton from tokens to a syntax tree.
//!
//! A postfix marker binds to what stands right before it, what follows one
//! another is a sequence, and a choice binds least: its sides reach to the
//! bracket that encloses them, or to the ends of the pattern.
use vstd::prelude::*;

use crate::tokens::Token;
use crate::tree::brackets::{bracket_type_of, Bracket};
use crate::tree::classify::{class_of, TokenClass};
use crate::tree::order::{lemma_tree_verdict, verdict};
use crate::tree::shape::{lemma_tree_reduced, reduced};
use crate::tree::special::{special_of, Special};

pub mod brackets;
pub mod classify;
pub mod lemmas;
pub mod order;
pub mod precedence;
pub mod shape;
pub mod special;

verus! {

/// The structure of a pattern, before it is given a meaning.
#[derive(Debug, PartialEq, Eq)]
pub enum Node {
    /// Nothing at all.
    Empty,
    /// Nodes that follow one another.
    Sequence(Vec<Node>),
    /// A run of literal characters.
    Tokens(Vec<Token>),
    /// What a matched pair of brackets encloses.
    Bracketed(Bracket, Box<Node>),
    /// A marker character that stands alone.
    Special(Special),
    /// A node with the postfix marker that follows it.
    Augmented(Box<Node>, Box<Node>),
    /// A choice between the left node and the right node.
    Alternate(Box<Node>, Box<Node>),
}

/// A syntax tree as a mathematical value.
pub enum NodeView {
    Empty,
    Sequence(Seq<NodeView>),
    Tokens(Seq<Token>),
    Bracketed(Bracket, Box<NodeView>),
    Special(Special),
    Augmented(Box<NodeView>, Box<NodeView>),
    Alternate(Box<NodeView>, Box<NodeView>),
}

impl View for Node {
    type V = NodeView;

    open spec fn view(&self) -> NodeView
        decreases self,
    {
        match self {
            Node::Empty => NodeView::Empty,
            Node::Sequence(children) => NodeView::Sequence(
                Seq::new(
                    children.len() as nat,
                    |i: int|
                        if 0 <= i < children.len() {
                            children[i]@
                        } else {
                            NodeView::Empty
                        },
                ),
            ),
            Node::Tokens(tokens) => NodeView::Tokens(tokens@),
            Node::Bracketed(bracket, content) => NodeView::Bracketed(*bracket, Box::new((**content)@)),
            Node::Special(special) => NodeView::Special(*special),
            Node::Augmented(content, marker) => NodeView::Augmented(
                Box::new((**content)@),
                Box::new((**marker)@),
            ),
            Node::Alternate(left, right) => NodeView::Alternate(
                Box::new((**left)@),
                Box::new((**right)@),
            ),
        }
    }
}

impl Default for Node {
    /// The empty node.
    fn default() -> (node: Node)
        ensures
            node@ == NodeView::Empty,
    {
        Node::Empty
    }
}

/// The views of a list of syntax trees, one for one.
pub open spec fn node_views(nodes: Seq<Node>) -> Seq<NodeView> {
    Seq::new(nodes.len(), |i: int| nodes[i]@)
}

/// A sequence node is viewed as the sequence of its children's views.
pub broadcast proof fn lemma_sequence_view(children: Vec<Node>)
    ensures
        #[trigger] Node::Sequence(children)@ == NodeView::Sequence(node_views(children@)),
{
    assert(Node::Sequence(children)@->Sequence_0 =~= node_views(children@));
}

/// A frame of the builder's stack: a node that still waits for its end.
#[derive(Debug, PartialEq, Eq)]
pub enum PartialNode {
    /// A fresh frame that holds nothing yet.
    Empty,
    /// A sequence that may still grow.
    Sequence(Vec<Node>),
    /// A run of literal characters that may still grow.
    Tokens(Vec<Token>),
    /// An open bracket that waits for what it encloses.
    Bracketed(Bracket),
    /// The left side of a choice that waits for its right side.
    Alternate(Box<Node>),
}

/// A frame as a mathematical value.
pub enum PartialNodeView {
    Empty,
    Sequence(Seq<NodeView>),
    Tokens(Seq<Token>),
    Bracketed(Bracket),
    Alternate(NodeView),
}

impl View for PartialNode {
    type V = PartialNodeView;

    open spec fn view(&self) -> PartialNodeView {
        match self {
            PartialNode::Empty => PartialNodeView::Empty,
            PartialNode::Sequence(children) => PartialNodeView::Sequence(node_views(children@)),
            PartialNode::Tokens(tokens) => PartialNodeView::Tokens(tokens@),
            PartialNode::Bracketed(bracket) => PartialNodeView::Bracketed(*bracket),
            PartialNode::Alternate(left) => PartialNodeView::Alternate((**left)@),
        }
    }
}

impl Default for PartialNode {
    /// The fresh frame.
    fn default() -> (frame: PartialNode)
        ensures
            frame@ == PartialNodeView::Empty,
    {
        PartialNode::Empty
    }
}

/// The views of the frames of a stack, bottom first.
pub open spec fn stack_view(stack: Seq<PartialNode>) -> Seq<PartialNodeView> {
    Seq::new(stack.len(), |i: int| stack[i]@)
}

/// Viewing commutes with adding a node at the end.
pub broadcast proof fn lemma_node_views_push(nodes: Seq<Node>, node: Node)
    ensures
        #[trigger] node_views(nodes.push(node)) == node_views(nodes).push(node@),
{
    assert(node_views(nodes.push(node)) =~= node_views(nodes).push(node@));
}

/// Viewing commutes with taking a part of a list of nodes.
pub broadcast proof fn lemma_node_views_subrange(nodes: Seq<Node>, from: int, to: int)
    requires
        0 <= from <= to <= nodes.len(),
    ensures
        #[trigger] node_views(nodes.subrange(from, to)) == node_views(nodes).subrange(from, to),
{
    assert(node_views(nodes.subrange(from, to)) =~= node_views(nodes).subrange(from, to));
}

/// No nodes have no views.
pub broadcast proof fn lemma_node_views_empty()
    ensures
        #[trigger] node_views(Seq::<Node>::empty()) == Seq::<NodeView>::empty(),
{
    assert(node_views(Seq::<Node>::empty()) =~= Seq::<NodeView>::empty());
}

/// Viewing commutes with pushing a frame.
pub broadcast proof fn lemma_stack_view_push(stack: Seq<PartialNode>, frame: PartialNode)
    ensures
        #[trigger] stack_view(stack.push(frame)) == stack_view(stack).push(frame@),
{
    assert(stack_view(stack.push(frame)) =~= stack_view(stack).push(frame@));
}

/// Viewing commutes with taking a part of a stack.
pub broadcast proof fn lemma_stack_view_subrange(stack: Seq<PartialNode>, from: int, to: int)
    requires
        0 <= from <= to <= stack.len(),
    ensures
        #[trigger] stack_view(stack.subrange(from, to)) == stack_view(stack).subrange(from, to),
{
    assert(stack_view(stack.subrange(from, to)) =~= stack_view(stack).subrange(from, to));
}

/// Viewing commutes with putting one stack on top of another.
pub broadcast proof fn lemma_stack_view_add(below: Seq<PartialNode>, above: Seq<PartialNode>)
    ensures
        #[trigger] stack_view(below + above) == stack_view(below) + stack_view(above),
{
    assert(stack_view(below + above) =~= stack_view(below) + stack_view(above));
}

/// No frames have no views.
pub broadcast proof fn lemma_stack_view_empty()
    ensures
        #[trigger] stack_view(Seq::<PartialNode>::empty()) == Seq::<PartialNodeView>::empty(),
{
    assert(stack_view(Seq::<PartialNode>::empty()) =~= Seq::<PartialNodeView>::empty());
}

/// How the views of lists of nodes and of stacks follow the lists themselves.
pub broadcast group group_views {
    lemma_sequence_view,
    lemma_node_views_push,
    lemma_node_views_subrange,
    lemma_node_views_empty,
    lemma_stack_view_push,
    lemma_stack_view_subrange,
    lemma_stack_view_add,
    lemma_stack_view_empty,
}

/// Why a sequence of tokens has no syntax tree.
#[derive(Debug, PartialEq, Eq, Clone, Copy, Structural)]
pub enum TreeError {
    /// An escape at the very end of the pattern, with nothing to escape.
    UnexpectedEscape(Token),
    /// A bracket was closed by a bracket of another kind, which stands at
    /// `position`.
    MismatchedBrackets { opening: Bracket, closing: Bracket, position: usize },
    /// A closing bracket, which stands at `position`, with no open bracket
    /// before it.
    CloseWithoutOpen { closing: Bracket, position: usize },
    /// A bracket that was still open at the end of the pattern.
    UnclosedBracket(Bracket),
    /// A postfix marker after a sequence that holds nothing to mark. This
    /// and the errors below tell of a stack that is out of order: building a
    /// tree from tokens never gives them.
    NothingToAugment,
    /// A sequence was to become the direct child of a sequence.
    NestedSequence,
    /// A run of literal characters was to take a node as its end.
    NestedInTokens,
    /// A frame lay where the automaton never leaves one of its kind.
    UnexpectedFrame,
    /// The stack held no frame at all when a token arrived.
    StackUnderflow,
}

/// The result of building a node, with the node as a mathematical value.
pub open spec fn node_result_view(result: Result<Node, TreeError>) -> Result<NodeView, TreeError> {
    match result {
        Ok(node) => Ok(node@),
        Err(error) => Err(error),
    }
}

/// The result of a move of the automaton, with the stack as a mathematical value.
pub open spec fn stack_result_view(result: Result<Vec<PartialNode>, TreeError>) -> Result<
    Seq<PartialNodeView>,
    TreeError,
> {
    match result {
        Ok(stack) => Ok(stack_view(stack@)),
        Err(error) => Err(error),
    }
}

/// A list of children as a node: none is the empty node, one is that child
/// itself, more are a sequence.
pub open spec fn reduce_spec(children: Seq<NodeView>) -> NodeView {
    if children.len() == 0 {
        NodeView::Empty
    } else if children.len() == 1 {
        children[0]
    } else {
        NodeView::Sequence(children)
    }
}

/// The node that a frame becomes when `terminator` ends it.
///
/// A fresh frame becomes the terminator. A sequence takes the terminator,
/// unless it is empty, as its last child and is then reduced; it refuses a
/// sequence. A run of tokens can only end in nothing. An open bracket cannot
/// end this way at all. The left side of a choice takes the terminator as its
/// right side.
pub open spec fn end_with_spec(partial: PartialNodeView, terminator: NodeView) -> Result<
    NodeView,
    TreeError,
> {
    match partial {
        PartialNodeView::Empty => Ok(terminator),
        PartialNodeView::Sequence(children) => if terminator is Sequence {
            Err(TreeError::NestedSequence)
        } else if terminator is Empty {
            Ok(reduce_spec(children))
        } else {
            Ok(reduce_spec(children.push(terminator)))
        },
        PartialNodeView::Tokens(tokens) => if terminator is Empty {
            Ok(NodeView::Tokens(tokens))
        } else {
            Err(TreeError::NestedInTokens)
        },
        PartialNodeView::Bracketed(bracket) => Err(TreeError::UnclosedBracket(bracket)),
        PartialNodeView::Alternate(left) => Ok(NodeView::Alternate(Box::new(left), Box::new(terminator))),
    }
}

/// Turns a list of children into one node.
fn reduce(children: Vec<Node>) -> (node: Node)
    ensures
        node@ == reduce_spec(node_views(children@)),
{
    broadcast use lemma_sequence_view;

    let mut children = children;
    if children.len() == 1 {
        match children.pop() {
            Some(only) => only,
            None => Node::Empty,
        }
    } else if children.len() == 0 {
        Node::Empty
    } else {
        Node::Sequence(children)
    }
}

impl PartialNode {
    /// Ends this frame with `terminator` and hands back the finished node.
    pub fn end_with(self, terminator: Node) -> (result: Result<Node, TreeError>)
        ensures
            node_result_view(result) == end_with_spec(self@, terminator@),
    {
        match self {
            PartialNode::Empty => Ok(terminator),
            PartialNode::Sequence(children) => {
                let mut children = children;
                match terminator {
                    Node::Sequence(_) => Err(TreeError::NestedSequence),
                    Node::Empty => Ok(reduce(children)),
                    other => {
                        broadcast use lemma_node_views_push;

                        children.push(other);
                        Ok(reduce(children))
                    },
                }
            },
            PartialNode::Tokens(tokens) => match terminator {
                Node::Empty => Ok(Node::Tokens(tokens)),
                _ => Err(TreeError::NestedInTokens),
            },
            PartialNode::Bracketed(bracket) => Err(TreeError::UnclosedBracket(bracket)),
            PartialNode::Alternate(left) => Ok(Node::Alternate(left, Box::new(terminator))),
        }
    }
}

/// The stack after `new` was added as a child of its top frame.
///
/// A fresh frame becomes a sequence of the child alone; a sequence takes the
/// child at its end; a run of tokens becomes a sequence of the run and the
/// child. An open bracket and the left side of a choice stay as they are,
/// and so does the empty stack: a new sequence starts above them.
pub open spec fn append_child_spec(stack: Seq<PartialNodeView>, new: NodeView) -> Seq<
    PartialNodeView,
> {
    if stack.len() == 0 {
        seq![PartialNodeView::Sequence(seq![new])]
    } else {
        let below = stack.drop_last();
        match stack.last() {
            PartialNodeView::Empty => below.push(PartialNodeView::Sequence(seq![new])),
            PartialNodeView::Sequence(children) => below.push(
                PartialNodeView::Sequence(children.push(new)),
            ),
            PartialNodeView::Tokens(run) => below.push(
                PartialNodeView::Sequence(seq![NodeView::Tokens(run), new]),
            ),
            PartialNodeView::Bracketed(_) | PartialNodeView::Alternate(_) => stack.push(
                PartialNodeView::Sequence(seq![new]),
            ),
        }
    }
}

/// A sequence frame that holds `first` alone.
fn sequence_of(first: Node) -> (frame: PartialNode)
    ensures
        frame@ == PartialNodeView::Sequence(seq![first@]),
{
    broadcast use group_views;

    let mut children: Vec<Node> = Vec::new();
    children.push(first);
    frame_of(children)
}

/// A sequence frame that holds `children`.
fn frame_of(children: Vec<Node>) -> (frame: PartialNode)
    ensures
        frame@ == PartialNodeView::Sequence(node_views(children@)),
{
    PartialNode::Sequence(children)
}

/// Adds `new` as a child of the top frame of the stack.
pub fn append_child(stack: &mut Vec<PartialNode>, new: Node)
    ensures
        stack_view(final(stack)@) == append_child_spec(stack_view(old(stack)@), new@),
{
    broadcast use group_views;

    let ghost before = stack_view(stack@);
    match stack.pop() {
        None => {
            stack.push(sequence_of(new));
        },
        Some(PartialNode::Empty) => {
            stack.push(sequence_of(new));
        },
        Some(PartialNode::Sequence(children)) => {
            let mut children = children;
            children.push(new);
            stack.push(frame_of(children));
        },
        Some(PartialNode::Tokens(run)) => {
            let mut children: Vec<Node> = Vec::new();
            children.push(Node::Tokens(run));
            children.push(new);
            assert(node_views(children@) =~= seq![NodeView::Tokens(run@), new@]);
            stack.push(frame_of(children));
        },
        Some(boundary) => {
            assert(before.last() == boundary@);
            stack.push(boundary);
            assert(stack_view(stack@) =~= before);
            stack.push(sequence_of(new));
        },
    }
}

/// The stack after a closing bracket of kind `closing`, which stands at
/// `position`, met `stack`, with `last_node` as what was read since the
/// innermost frame.
///
/// The frames are ended from the top down, each with the node that the
/// frames above it gave, until an open bracket is met. That bracket must be
/// of the closing kind; it then encloses the node, and the result is added
/// as a child to what lies below.
pub open spec fn close_bracket_spec(
    stack: Seq<PartialNodeView>,
    closing: Bracket,
    position: usize,
    last_node: NodeView,
) -> Result<Seq<PartialNodeView>, TreeError>
    decreases stack.len(),
{
    if stack.len() == 0 {
        Err(TreeError::CloseWithoutOpen { closing, position })
    } else {
        match stack.last() {
            PartialNodeView::Bracketed(opening) => if opening == closing {
                Ok(
                    append_child_spec(
                        stack.drop_last(),
                        NodeView::Bracketed(opening, Box::new(last_node)),
                    ),
                )
            } else {
                Err(TreeError::MismatchedBrackets { opening, closing, position })
            },
            frame => match end_with_spec(frame, last_node) {
                Ok(node) => close_bracket_spec(stack.drop_last(), closing, position, node),
                Err(error) => Err(error),
            },
        }
    }
}

/// Closes the innermost open bracket with a bracket of kind
/// `closing_bracket`, which stands at `position`, where `last_node` is what
/// was read inside it since the innermost frame.
pub fn close_bracket(
    stack: Vec<PartialNode>,
    closing_bracket: Bracket,
    position: usize,
    last_node: Node,
) -> (result: Result<Vec<PartialNode>, TreeError>)
    ensures
        stack_result_view(result) == close_bracket_spec(
            stack_view(stack@),
            closing_bracket,
            position,
            last_node@,
        ),
{
    broadcast use group_views;

    let mut frames = stack;
    let mut node = last_node;
    loop
        invariant
            close_bracket_spec(stack_view(frames@), closing_bracket, position, node@)
                == close_bracket_spec(stack_view(stack@), closing_bracket, position, last_node@),
        decreases frames@.len(),
    {
        let ghost before = stack_view(frames@);
        match frames.pop() {
            None => {
                return Err(TreeError::CloseWithoutOpen { closing: closing_bracket, position });
            },
            Some(PartialNode::Bracketed(opening)) => {
                assert(before.last() == PartialNodeView::Bracketed(opening));
                assert(stack_view(frames@) =~= before.drop_last());
                if opening == closing_bracket {
                    let enclosed = Node::Bracketed(opening, Box::new(node));
                    assert(enclosed@ == NodeView::Bracketed(opening, Box::new(node@)));
                    append_child(&mut frames, enclosed);
                    return Ok(frames);
                } else {
                    return Err(
                        TreeError::MismatchedBrackets {
                            opening,
                            closing: closing_bracket,
                            position,
                        },
                    );
                }
            },
            Some(frame) => {
                assert(before.last() == frame@);
                assert(stack_view(frames@) =~= before.drop_last());
                match frame.end_with(node) {
                    Ok(next) => {
                        node = next;
                    },
                    Err(error) => {
                        return Err(error);
                    },
                }
            },
        }
    }
}

/// The kind of bracket that a token of the class of brackets names.
pub open spec fn bracket_of(token: Token) -> Bracket
    recommends
        bracket_type_of(token) is Some,
{
    bracket_type_of(token).unwrap().0
}

/// The marker that a token of the class of markers names.
pub open spec fn marker_of(token: Token) -> Special
    recommends
        special_of(token) is Some,
{
    special_of(token).unwrap()
}

/// A move of the automaton from a fresh top frame, which was taken off
/// already: `below` is the rest of the stack.
pub open spec fn step_empty_spec(below: Seq<PartialNodeView>, token: Token) -> Result<
    Seq<PartialNodeView>,
    TreeError,
> {
    match class_of(token) {
        TokenClass::OpenBracket => Ok(
            below.push(PartialNodeView::Bracketed(bracket_of(token))).push(PartialNodeView::Empty),
        ),
        TokenClass::CloseBracket => close_bracket_spec(
            below,
            bracket_of(token),
            token.spec_meta().position,
            NodeView::Empty,
        ),
        TokenClass::Augmentation => Ok(
            below.push(PartialNodeView::Sequence(seq![NodeView::Special(marker_of(token))])),
        ),
        TokenClass::Regular => Ok(below.push(PartialNodeView::Tokens(seq![token]))),
        TokenClass::Problematic => Err(TreeError::UnexpectedEscape(token)),
        TokenClass::Alternation => Ok(
            below.push(PartialNodeView::Alternate(NodeView::Empty)).push(PartialNodeView::Empty),
        ),
    }
}

/// A move of the automaton from a sequence of `children` as top frame, which
/// was taken off already: `below` is the rest of the stack. A `|` takes the
/// whole sequence, reduced to one node, as the left side of the choice.
pub open spec fn step_sequence_spec(
    below: Seq<PartialNodeView>,
    children: Seq<NodeView>,
    token: Token,
) -> Result<Seq<PartialNodeView>, TreeError> {
    match class_of(token) {
        TokenClass::OpenBracket => Ok(
            below.push(PartialNodeView::Sequence(children)).push(
                PartialNodeView::Bracketed(bracket_of(token)),
            ).push(PartialNodeView::Empty),
        ),
        TokenClass::CloseBracket => close_bracket_spec(
            below,
            bracket_of(token),
            token.spec_meta().position,
            reduce_spec(children),
        ),
        TokenClass::Augmentation => if children.len() == 0 {
            Err(TreeError::NothingToAugment)
        } else {
            Ok(
                below.push(
                    PartialNodeView::Sequence(
                        children.drop_last().push(
                            NodeView::Augmented(
                                Box::new(children.last()),
                                Box::new(NodeView::Special(marker_of(token))),
                            ),
                        ),
                    ),
                ),
            )
        },
        TokenClass::Regular => Ok(
            below.push(PartialNodeView::Sequence(children)).push(PartialNodeView::Tokens(seq![token])),
        ),
        TokenClass::Problematic => Err(TreeError::UnexpectedEscape(token)),
        TokenClass::Alternation => Ok(
            below.push(PartialNodeView::Alternate(reduce_spec(children))).push(
                PartialNodeView::Empty,
            ),
        ),
    }
}

/// The stack after the run of literal characters `run` was folded into the
/// frame that encloses it, which is the top of `below`: a sequence takes the
/// run as its last child; above an open bracket or the left side of a choice,
/// and on no stack at all, the run starts a sequence. No other frame can
/// enclose a run.
pub open spec fn fold_run_spec(below: Seq<PartialNodeView>, run: Seq<Token>) -> Result<
    Seq<PartialNodeView>,
    TreeError,
> {
    if below.len() == 0 {
        Ok(seq![PartialNodeView::Sequence(seq![NodeView::Tokens(run)])])
    } else {
        match below.last() {
            PartialNodeView::Empty => Err(TreeError::UnexpectedFrame),
            PartialNodeView::Tokens(_) => Err(TreeError::UnexpectedFrame),
            PartialNodeView::Sequence(children) => Ok(
                below.drop_last().push(PartialNodeView::Sequence(children.push(NodeView::Tokens(run)))),
            ),
            PartialNodeView::Bracketed(_) | PartialNodeView::Alternate(_) => Ok(
                below.push(PartialNodeView::Sequence(seq![NodeView::Tokens(run)])),
            ),
        }
    }
}

/// A move of the automaton from a run of literal characters as top frame,
/// which was taken off already: `below` is the rest of the stack.
///
/// Before an open bracket and before a `|` the run is folded into the frame
/// that encloses it. A `|` then takes all of that sequence as the left side
/// of the choice, so that the choice binds less than what stands beside it.
pub open spec fn step_tokens_spec(below: Seq<PartialNodeView>, run: Seq<Token>, token: Token) -> Result<
    Seq<PartialNodeView>,
    TreeError,
> {
    match class_of(token) {
        TokenClass::OpenBracket => match fold_run_spec(below, run) {
            Ok(folded) => Ok(
                folded.push(PartialNodeView::Bracketed(bracket_of(token))).push(PartialNodeView::Empty),
            ),
            Err(error) => Err(error),
        },
        TokenClass::CloseBracket => close_bracket_spec(
            below,
            bracket_of(token),
            token.spec_meta().position,
            NodeView::Tokens(run),
        ),
        TokenClass::Augmentation => if run.len() > 0 {
            Ok(
                append_child_spec(
                    append_child_spec(below, NodeView::Tokens(run.drop_last())),
                    NodeView::Augmented(
                        Box::new(NodeView::Tokens(seq![run.last()])),
                        Box::new(NodeView::Special(marker_of(token))),
                    ),
                ),
            )
        } else {
            Ok(append_child_spec(below, NodeView::Special(marker_of(token))))
        },
        TokenClass::Regular => Ok(below.push(PartialNodeView::Tokens(run.push(token)))),
        TokenClass::Problematic => Err(TreeError::UnexpectedEscape(token)),
        TokenClass::Alternation => match fold_run_spec(below, run) {
            Ok(folded) => match folded.last() {
                PartialNodeView::Sequence(children) => Ok(
                    folded.drop_last().push(PartialNodeView::Alternate(reduce_spec(children))).push(
                        PartialNodeView::Empty,
                    ),
                ),
                _ => Err(TreeError::UnexpectedFrame),
            },
            Err(error) => Err(error),
        },
    }
}

/// One move of the automaton: the stack after `token` was read.
///
/// The move goes by the top frame and by the class of the token. An open
/// bracket and the left side of a choice never are the top frame when a token
/// arrives: a working frame always lies above them.
pub open spec fn step_spec(stack: Seq<PartialNodeView>, token: Token) -> Result<
    Seq<PartialNodeView>,
    TreeError,
> {
    if stack.len() == 0 {
        Err(TreeError::StackUnderflow)
    } else {
        match stack.last() {
            PartialNodeView::Empty => step_empty_spec(stack.drop_last(), token),
            PartialNodeView::Sequence(children) => step_sequence_spec(
                stack.drop_last(),
                children,
                token,
            ),
            PartialNodeView::Tokens(run) => step_tokens_spec(stack.drop_last(), run, token),
            PartialNodeView::Bracketed(_) | PartialNodeView::Alternate(_) => Err(
                TreeError::UnexpectedFrame,
            ),
        }
    }
}

/// The stack after all of `tokens` were read in order, or the error of the
/// first move that has none.
pub open spec fn run_spec(stack: Seq<PartialNodeView>, tokens: Seq<Token>) -> Result<
    Seq<PartialNodeView>,
    TreeError,
>
    decreases tokens.len(),
{
    if tokens.len() == 0 {
        Ok(stack)
    } else {
        match step_spec(stack, tokens.first()) {
            Ok(next) => run_spec(next, tokens.drop_first()),
            Err(error) => Err(error),
        }
    }
}

/// The node that is left when the frames of `stack` are ended from the top
/// down, the topmost with `node` and each other with what the one above it
/// became.
pub open spec fn finish_spec(stack: Seq<PartialNodeView>, node: NodeView) -> Result<
    NodeView,
    TreeError,
>
    decreases stack.len(),
{
    if stack.len() == 0 {
        Ok(node)
    } else {
        match end_with_spec(stack.last(), node) {
            Ok(next) => finish_spec(stack.drop_last(), next),
            Err(error) => Err(error),
        }
    }
}

/// The syntax tree of a sequence of tokens: the automaton starts on one fresh
/// frame, reads every token, and ends the frames that are left with nothing.
pub open spec fn tree_spec(tokens: Seq<Token>) -> Result<NodeView, TreeError> {
    match run_spec(seq![PartialNodeView::Empty], tokens) {
        Ok(stack) => finish_spec(stack, NodeView::Empty),
        Err(error) => Err(error),
    }
}

/// The kind of bracket that a token of the class of brackets names.
fn bracket(token: Token) -> (bracket: Bracket)
    requires
        bracket_type_of(token) is Some,
    ensures
        bracket == bracket_of(token),
{
    match Bracket::try_from(token) {
        Ok(bracket) => bracket,
        Err(_) => unreached(),
    }
}

/// The node of the marker that a token of the class of markers names.
fn marker(token: Token) -> (marker: Node)
    requires
        special_of(token) is Some,
    ensures
        marker@ == NodeView::Special(marker_of(token)),
{
    match Special::try_from(token) {
        Ok(special) => Node::Special(special),
        Err(_) => unreached(),
    }
}

/// A frame that holds the run of the one token `token`.
fn run_of(token: Token) -> (frame: PartialNode)
    ensures
        frame@ == PartialNodeView::Tokens(seq![token]),
{
    let mut run: Vec<Token> = Vec::new();
    run.push(token);
    PartialNode::Tokens(run)
}

/// Pushes an open bracket and the fresh frame in which its content is read.
fn open_bracket(stack: &mut Vec<PartialNode>, bracket: Bracket)
    ensures
        stack_view(final(stack)@) == stack_view(old(stack)@).push(
            PartialNodeView::Bracketed(bracket),
        ).push(PartialNodeView::Empty),
{
    broadcast use group_views;

    stack.push(PartialNode::Bracketed(bracket));
    stack.push(PartialNode::Empty);
}

/// Pushes the left side of a choice and the fresh frame in which its right
/// side is read.
fn open_alternate(stack: &mut Vec<PartialNode>, left: Node)
    ensures
        stack_view(final(stack)@) == stack_view(old(stack)@).push(
            PartialNodeView::Alternate(left@),
        ).push(PartialNodeView::Empty),
{
    broadcast use group_views;

    stack.push(PartialNode::Alternate(Box::new(left)));
    stack.push(PartialNode::Empty);
}

/// Moves on from a fresh top frame, which the caller took off the stack.
fn step_empty(stack: Vec<PartialNode>, token: Token) -> (result: Result<Vec<PartialNode>, TreeError>)
    ensures
        stack_result_view(result) == step_empty_spec(stack_view(stack@), token),
{
    broadcast use group_views;

    let mut frames = stack;
    match token.classify() {
        TokenClass::OpenBracket => {
            let bracket = bracket(token);
            open_bracket(&mut frames, bracket);
            Ok(frames)
        },
        TokenClass::CloseBracket => {
            let bracket = bracket(token);
            close_bracket(frames, bracket, token.position(), Node::Empty)
        },
        TokenClass::Augmentation => {
            let marker = marker(token);
            frames.push(sequence_of(marker));
            Ok(frames)
        },
        TokenClass::Regular => {
            frames.push(run_of(token));
            Ok(frames)
        },
        TokenClass::Problematic => Err(TreeError::UnexpectedEscape(token)),
        TokenClass::Alternation => {
            open_alternate(&mut frames, Node::Empty);
            Ok(frames)
        },
    }
}

/// Moves on from a sequence as top frame, which the caller took off the stack.
fn step_sequence(stack: Vec<PartialNode>, children: Vec<Node>, token: Token) -> (result: Result<
    Vec<PartialNode>,
    TreeError,
>)
    ensures
        stack_result_view(result) == step_sequence_spec(
            stack_view(stack@),
            node_views(children@),
            token,
        ),
{
    broadcast use group_views;

    let mut frames = stack;
    let mut children = children;
    match token.classify() {
        TokenClass::OpenBracket => {
            let bracket = bracket(token);
            frames.push(frame_of(children));
            open_bracket(&mut frames, bracket);
            Ok(frames)
        },
        TokenClass::CloseBracket => {
            let bracket = bracket(token);
            close_bracket(frames, bracket, token.position(), reduce(children))
        },
        TokenClass::Augmentation => {
            let ghost before = node_views(children@);
            match children.pop() {
                None => Err(TreeError::NothingToAugment),
                Some(previous) => {
                    let marker = marker(token);
                    assert(node_views(children@) =~= before.drop_last());
                    let augmented = Node::Augmented(Box::new(previous), Box::new(marker));
                    assert(augmented@ == NodeView::Augmented(Box::new(previous@), Box::new(marker@)));
                    children.push(augmented);
                    frames.push(frame_of(children));
                    Ok(frames)
                },
            }
        },
        TokenClass::Regular => {
            frames.push(frame_of(children));
            frames.push(run_of(token));
            Ok(frames)
        },
        TokenClass::Problematic => Err(TreeError::UnexpectedEscape(token)),
        TokenClass::Alternation => {
            open_alternate(&mut frames, reduce(children));
            Ok(frames)
        },
    }
}

/// Folds a finished run of literal characters into the frame that encloses it.
fn fold_run(stack: Vec<PartialNode>, run: Vec<Token>) -> (result: Result<Vec<PartialNode>, TreeError>)
    ensures
        stack_result_view(result) == fold_run_spec(stack_view(stack@), run@),
{
    broadcast use group_views;

    let mut frames = stack;
    let ghost before = stack_view(frames@);
    match frames.pop() {
        None => {
            let tokens = Node::Tokens(run);
            assert(tokens@ == NodeView::Tokens(run@));
            frames.push(sequence_of(tokens));
            assert(stack_view(frames@) =~= seq![PartialNodeView::Sequence(seq![tokens@])]);
            Ok(frames)
        },
        Some(PartialNode::Empty) => Err(TreeError::UnexpectedFrame),
        Some(PartialNode::Tokens(_)) => Err(TreeError::UnexpectedFrame),
        Some(PartialNode::Sequence(children)) => {
            let mut children = children;
            assert(stack_view(frames@) =~= before.drop_last());
            let tokens = Node::Tokens(run);
            assert(tokens@ == NodeView::Tokens(run@));
            children.push(tokens);
            frames.push(frame_of(children));
            Ok(frames)
        },
        Some(container) => {
            frames.push(container);
            assert(stack_view(frames@) =~= before);
            let tokens = Node::Tokens(run);
            assert(tokens@ == NodeView::Tokens(run@));
            frames.push(sequence_of(tokens));
            Ok(frames)
        },
    }
}

/// Moves on from a run of literal characters as top frame, which the caller
/// took off the stack.
fn step_tokens(stack: Vec<PartialNode>, run: Vec<Token>, token: Token) -> (result: Result<
    Vec<PartialNode>,
    TreeError,
>)
    ensures
        stack_result_view(result) == step_tokens_spec(stack_view(stack@), run@, token),
{
    broadcast use group_views;

    let mut frames = stack;
    let mut run = run;
    match token.classify() {
        TokenClass::OpenBracket => {
            let mut folded = match fold_run(frames, run) {
                Ok(folded) => folded,
                Err(error) => {
                    return Err(error);
                },
            };
            let bracket = bracket(token);
            open_bracket(&mut folded, bracket);
            Ok(folded)
        },
        TokenClass::CloseBracket => {
            let bracket = bracket(token);
            let tokens = Node::Tokens(run);
            assert(tokens@ == NodeView::Tokens(run@));
            close_bracket(frames, bracket, token.position(), tokens)
        },
        TokenClass::Augmentation => {
            let ghost before = run@;
            let marker = marker(token);
            match run.pop() {
                Some(augmentee) => {
                    assert(run@ =~= before.drop_last());
                    let rest = Node::Tokens(run);
                    assert(rest@ == NodeView::Tokens(before.drop_last()));
                    append_child(&mut frames, rest);
                    let mut single: Vec<Token> = Vec::new();
                    single.push(augmentee);
                    let target = Node::Tokens(single);
                    assert(target@ == NodeView::Tokens(seq![before.last()]));
                    let augmented = Node::Augmented(Box::new(target), Box::new(marker));
                    assert(augmented@ == NodeView::Augmented(Box::new(target@), Box::new(marker@)));
                    append_child(&mut frames, augmented);
                },
                None => {
                    append_child(&mut frames, marker);
                },
            }
            Ok(frames)
        },
        TokenClass::Regular => {
            run.push(token);
            frames.push(PartialNode::Tokens(run));
            Ok(frames)
        },
        TokenClass::Problematic => Err(TreeError::UnexpectedEscape(token)),
        TokenClass::Alternation => {
            let mut folded = match fold_run(frames, run) {
                Ok(folded) => folded,
                Err(error) => {
                    return Err(error);
                },
            };
            let ghost before = stack_view(folded@);
            match folded.pop() {
                Some(PartialNode::Sequence(children)) => {
                    assert(before.last() == PartialNodeView::Sequence(node_views(children@)));
                    assert(stack_view(folded@) =~= before.drop_last());
                    open_alternate(&mut folded, reduce(children));
                    Ok(folded)
                },
                Some(other) => {
                    assert(before.last() == other@);
                    Err(TreeError::UnexpectedFrame)
                },
                None => {
                    assert(before.len() > 0);
                    Err(TreeError::UnexpectedFrame)
                },
            }
        },
    }
}

/// Makes one move of the automaton: reads `token` on top of `stack`.
pub fn step(stack: Vec<PartialNode>, token: Token) -> (result: Result<Vec<PartialNode>, TreeError>)
    ensures
        stack_result_view(result) == step_spec(stack_view(stack@), token),
{
    broadcast use group_views;

    let mut frames = stack;
    let ghost before = stack_view(frames@);
    match frames.pop() {
        None => Err(TreeError::StackUnderflow),
        Some(top) => {
            assert(stack_view(frames@) =~= before.drop_last());
            assert(before.last() == top@);
            match top {
                PartialNode::Empty => step_empty(frames, token),
                PartialNode::Sequence(children) => step_sequence(frames, children, token),
                PartialNode::Tokens(run) => step_tokens(frames, run, token),
                PartialNode::Bracketed(_) => Err(TreeError::UnexpectedFrame),
                PartialNode::Alternate(_) => Err(TreeError::UnexpectedFrame),
            }
        },
    }
}

/// Ends the frames of `stack` from the top down, the topmost with nothing.
fn finish(stack: Vec<PartialNode>) -> (result: Result<Node, TreeError>)
    ensures
        node_result_view(result) == finish_spec(stack_view(stack@), NodeView::Empty),
{
    broadcast use group_views;

    let mut frames = stack;
    let mut node = Node::Empty;
    loop
        invariant
            finish_spec(stack_view(frames@), node@) == finish_spec(
                stack_view(stack@),
                NodeView::Empty,
            ),
        decreases frames@.len(),
    {
        let ghost before = stack_view(frames@);
        match frames.pop() {
            None => {
                return Ok(node);
            },
            Some(frame) => {
                assert(stack_view(frames@) =~= before.drop_last());
                assert(before.last() == frame@);
                match frame.end_with(node) {
                    Ok(next) => {
                        node = next;
                    },
                    Err(error) => {
                        return Err(error);
                    },
                }
            },
        }
    }
}

/// Builds the syntax tree of a sequence of tokens.
///
/// The tokens are read in one pass by a stack automaton, and the frames that
/// are left at the end are folded into one node. The first move that cannot
/// be made, or the first frame that cannot be ended, gives the error. The
/// tree that comes out is fully reduced. There is a tree unless the tokens
/// hold a trailing escape or a bracket without its match; the error then
/// names the first token that breaks the structure, or the innermost bracket
/// that was left open.
pub fn tree(tokens: Vec<Token>) -> (result: Result<Node, TreeError>)
    ensures
        node_result_view(result) == tree_spec(tokens@),
        result matches Ok(node) ==> reduced(node@),
        match result {
            Ok(_) => verdict(tokens@) is None,
            Err(error) => verdict(tokens@) == Some(error),
        },
{
    broadcast use group_views;

    proof {
        lemma_tree_reduced(tokens@);
        lemma_tree_verdict(tokens@);
    }

    let mut stack: Vec<PartialNode> = Vec::new();
    stack.push(PartialNode::Empty);
    assert(stack_view(stack@) =~= seq![PartialNodeView::Empty]);
    assert(tokens@.skip(0) =~= tokens@);
    let mut index: usize = 0;
    while index < tokens.len()
        invariant
            index <= tokens.len(),
            run_spec(stack_view(stack@), tokens@.skip(index as int)) == run_spec(
                seq![PartialNodeView::Empty],
                tokens@,
            ),
        decreases tokens.len() - index,
    {
        assert(tokens@.skip(index as int).drop_first() =~= tokens@.skip(index + 1));
        match step(stack, tokens[index]) {
            Ok(next) => {
                stack = next;
            },
            Err(error) => {
                proof {
                    lemma_tree_verdict(tokens@);
                }
                return Err(error);
            },
        }
        index = index + 1;
    }
    finish(stack)
}

} // verus!

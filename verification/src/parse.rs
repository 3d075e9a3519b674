//! The semantic parser: from a syntax tree to the expression that it means.
use vstd::prelude::*;

use crate::expression::{expression_views, Expression, ExpressionView};
use crate::text::push_char;
use crate::tokens::Token;
use crate::tree::brackets::Bracket;
use crate::tree::special::Special;
use crate::tree::{node_views, Node, NodeView};

verus! {

/// A shape of the syntax tree that the grammar reserves and that has no
/// meaning yet.
#[derive(Debug, PartialEq, Eq, Clone, Copy, Structural)]
pub enum Unimplemented {
    /// Brackets other than parentheses.
    Bracketed(Bracket),
    /// A marker character that stands alone.
    Special(Special),
    /// A postfix marker other than the star; `None` where what stands in the
    /// marker's place is no marker at all.
    Augmentation(Option<Special>),
}

/// The characters of a run of tokens.
pub open spec fn text_of(tokens: Seq<Token>) -> Seq<char> {
    Seq::new(tokens.len(), |i: int| tokens[i].to_char())
}

/// The marker that stands in a node, if the node is a marker alone.
pub open spec fn special_in(node: NodeView) -> Option<Special> {
    match node {
        NodeView::Special(special) => Some(special),
        _ => None,
    }
}

/// The alternatives of a chain of choices, from left to right. A node that
/// is no choice is its own single alternative.
pub open spec fn alternatives_spec(node: NodeView) -> Seq<NodeView>
    decreases node,
{
    match node {
        NodeView::Alternate(left, right) => alternatives_spec(*left) + alternatives_spec(*right),
        other => seq![other],
    }
}

/// The expression that a syntax tree means, or the first reserved shape that
/// is met in it from left to right.
///
/// Nothing means the empty string, a run of tokens the string of its
/// characters, a sequence the sequence of what its children mean.
/// Parentheses only group. A node followed by a star means its repetition.
/// A chain of choices means one choice between all its alternatives.
pub open spec fn parse_spec(node: NodeView) -> Result<ExpressionView, Unimplemented>
    decreases node, 0int,
{
    match node {
        NodeView::Empty => Ok(ExpressionView::Literal(Seq::empty())),
        NodeView::Sequence(children) => match parse_all_spec(children) {
            Ok(parts) => Ok(ExpressionView::Sequence(parts)),
            Err(error) => Err(error),
        },
        NodeView::Tokens(tokens) => Ok(ExpressionView::Literal(text_of(tokens))),
        NodeView::Bracketed(bracket, content) => match bracket {
            Bracket::Parentheses => parse_spec(*content),
            _ => Err(Unimplemented::Bracketed(bracket)),
        },
        NodeView::Special(special) => Err(Unimplemented::Special(special)),
        NodeView::Augmented(content, marker) => match parse_spec(*content) {
            Ok(inner) => if *marker == NodeView::Special(Special::Star) {
                Ok(ExpressionView::Star(Box::new(inner)))
            } else {
                Err(Unimplemented::Augmentation(special_in(*marker)))
            },
            Err(error) => Err(error),
        },
        NodeView::Alternate(left, right) => match parse_alternatives_spec(*left) {
            Ok(first) => match parse_alternatives_spec(*right) {
                Ok(second) => Ok(ExpressionView::Alternate(first + second)),
                Err(error) => Err(error),
            },
            Err(error) => Err(error),
        },
    }
}

/// What the nodes of a list mean, one for one, or the first error among them.
pub open spec fn parse_all_spec(nodes: Seq<NodeView>) -> Result<Seq<ExpressionView>, Unimplemented>
    decreases nodes, 0int,
{
    if nodes.len() == 0 {
        Ok(Seq::empty())
    } else {
        match parse_all_spec(nodes.drop_last()) {
            Ok(parts) => match parse_spec(nodes.last()) {
                Ok(part) => Ok(parts.push(part)),
                Err(error) => Err(error),
            },
            Err(error) => Err(error),
        }
    }
}

/// What the alternatives of a chain of choices mean, from left to right, or
/// the first error among them.
pub open spec fn parse_alternatives_spec(node: NodeView) -> Result<
    Seq<ExpressionView>,
    Unimplemented,
>
    decreases node, 1int,
{
    match node {
        NodeView::Alternate(left, right) => match parse_alternatives_spec(*left) {
            Ok(first) => match parse_alternatives_spec(*right) {
                Ok(second) => Ok(first + second),
                Err(error) => Err(error),
            },
            Err(error) => Err(error),
        },
        other => match parse_spec(other) {
            Ok(only) => Ok(seq![only]),
            Err(error) => Err(error),
        },
    }
}

/// The result of parsing, with the expression as a mathematical value.
pub open spec fn expression_result_view(result: Result<Expression, Unimplemented>) -> Result<
    ExpressionView,
    Unimplemented,
> {
    match result {
        Ok(expression) => Ok(expression@),
        Err(error) => Err(error),
    }
}

/// The string of the characters of a run of tokens.
fn text(tokens: &Vec<Token>) -> (text: String)
    ensures
        text@ == text_of(tokens@),
{
    let mut text = String::new();
    let mut index: usize = 0;
    while index < tokens.len()
        invariant
            index <= tokens.len(),
            text@ == text_of(tokens@.take(index as int)),
        decreases tokens.len() - index,
    {
        push_char(&mut text, tokens[index].to_char());
        index = index + 1;
        assert(text@ =~= text_of(tokens@.take(index as int)));
    }
    assert(tokens@.take(index as int) =~= tokens@);
    text
}

/// An error among the first `count` nodes of a list is the error of the
/// whole list.
pub proof fn lemma_parse_all_error(nodes: Seq<NodeView>, count: int)
    requires
        0 <= count <= nodes.len(),
        parse_all_spec(nodes.take(count)) is Err,
    ensures
        parse_all_spec(nodes) == parse_all_spec(nodes.take(count)),
    decreases nodes.len() - count,
{
    if count < nodes.len() {
        assert(nodes.take(count + 1).drop_last() =~= nodes.take(count));
        lemma_parse_all_error(nodes, count + 1);
    } else {
        assert(nodes.take(count) =~= nodes);
    }
}

/// What two lists of nodes mean, one after the other, is what the first
/// means followed by what the second means; an error in the first comes
/// before an error in the second.
pub proof fn lemma_parse_all_add(first: Seq<NodeView>, second: Seq<NodeView>)
    ensures
        parse_all_spec(first + second) == match parse_all_spec(first) {
            Ok(parts) => match parse_all_spec(second) {
                Ok(more) => Ok(parts + more),
                Err(error) => Err(error),
            },
            Err(error) => Err(error),
        },
    decreases second.len(),
{
    if second.len() == 0 {
        assert(first + second =~= first);
        match parse_all_spec(first) {
            Ok(parts) => {
                assert(parts + Seq::<ExpressionView>::empty() =~= parts);
            },
            Err(_) => {},
        }
    } else {
        assert((first + second).drop_last() =~= first + second.drop_last());
        assert((first + second).last() == second.last());
        lemma_parse_all_add(first, second.drop_last());
        match (parse_all_spec(first), parse_all_spec(second.drop_last()), parse_spec(second.last())) {
            (Ok(parts), Ok(more), Ok(part)) => {
                assert((parts + more).push(part) =~= parts + more.push(part));
            },
            _ => {},
        }
    }
}

/// A chain of choices means what its alternatives mean, taken in their
/// order from left to right.
pub proof fn lemma_parse_alternatives_flat(node: NodeView)
    ensures
        parse_alternatives_spec(node) == parse_all_spec(alternatives_spec(node)),
    decreases node,
{
    match node {
        NodeView::Alternate(left, right) => {
            lemma_parse_alternatives_flat(*left);
            lemma_parse_alternatives_flat(*right);
            lemma_parse_all_add(alternatives_spec(*left), alternatives_spec(*right));
        },
        other => {
            let alone = seq![other];
            assert(alone.drop_last() =~= Seq::<NodeView>::empty());
            assert(parse_all_spec(alone.drop_last()) == Ok::<Seq<ExpressionView>, Unimplemented>(
                Seq::empty(),
            ));
            assert(alternatives_spec(node) == alone);
            match parse_spec(other) {
                Ok(only) => {
                    assert(Seq::<ExpressionView>::empty().push(only) =~= seq![only]);
                },
                Err(_) => {},
            }
        },
    }
}

/// A choice means the choice between what its alternatives mean, taken in
/// their order from left to right.
pub proof fn lemma_parse_alternate(left: NodeView, right: NodeView)
    ensures
        parse_spec(NodeView::Alternate(Box::new(left), Box::new(right))) == match parse_all_spec(
            alternatives_spec(NodeView::Alternate(Box::new(left), Box::new(right))),
        ) {
            Ok(choices) => Ok::<ExpressionView, Unimplemented>(ExpressionView::Alternate(choices)),
            Err(error) => Err(error),
        },
{
    lemma_parse_alternatives_flat(left);
    lemma_parse_alternatives_flat(right);
    lemma_parse_all_add(alternatives_spec(left), alternatives_spec(right));
}

/// What a syntax tree means is the choice between what its alternatives
/// mean: it lists the witnesses of each of them in turn, and its one witness
/// is that of the first.
pub proof fn lemma_parse_by_alternatives(node: NodeView, most: nat)
    requires
        parse_spec(node) is Ok,
    ensures
        parse_all_spec(alternatives_spec(node)) matches Ok(choices) && choices.len() > 0
            && parse_spec(node).unwrap().enumerate_up_to(most) == ExpressionView::unions(
            choices,
            most,
        ) && parse_spec(node).unwrap().example() == choices[0].example(),
{
    lemma_parse_alternatives_flat(node);
    lemma_parse_wf(node);
    match node {
        NodeView::Alternate(left, right) => {
            lemma_parse_alternate(*left, *right);
        },
        other => {
            let only = parse_spec(other).unwrap();
            let choices = seq![only];
            assert(choices.drop_last() =~= Seq::<ExpressionView>::empty());
            assert(ExpressionView::unions(choices.drop_last(), most) =~= Seq::<Seq<char>>::empty());
            assert(ExpressionView::unions(choices, most) =~= only.enumerate_up_to(most));
        },
    }
}

/// Whether a syntax tree holds a shape that the grammar reserves: brackets
/// other than parentheses, a marker that stands alone, or a postfix marker
/// other than the star.
pub open spec fn reserved(node: NodeView) -> bool
    decreases node,
{
    match node {
        NodeView::Empty => false,
        NodeView::Tokens(_) => false,
        NodeView::Sequence(children) => exists|i: int|
            0 <= i < children.len() && reserved(#[trigger] children[i]),
        NodeView::Bracketed(bracket, content) => bracket != Bracket::Parentheses || reserved(
            *content,
        ),
        NodeView::Special(_) => true,
        NodeView::Augmented(content, marker) => reserved(*content) || *marker != NodeView::Special(
            Special::Star,
        ),
        NodeView::Alternate(left, right) => reserved(*left) || reserved(*right),
    }
}

/// A syntax tree has a meaning unless it holds a reserved shape.
pub proof fn lemma_parse_fails_on_reserved(node: NodeView)
    ensures
        parse_spec(node) is Err <==> reserved(node),
    decreases node, 0int,
{
    match node {
        NodeView::Sequence(children) => {
            lemma_parse_all_fails_on_reserved(children);
        },
        NodeView::Bracketed(_, content) => {
            lemma_parse_fails_on_reserved(*content);
        },
        NodeView::Augmented(content, _) => {
            lemma_parse_fails_on_reserved(*content);
        },
        NodeView::Alternate(left, right) => {
            lemma_parse_alternatives_fail_on_reserved(*left);
            lemma_parse_alternatives_fail_on_reserved(*right);
        },
        _ => {},
    }
}

/// The nodes of a list have a meaning unless one of them holds a reserved
/// shape.
pub proof fn lemma_parse_all_fails_on_reserved(nodes: Seq<NodeView>)
    ensures
        parse_all_spec(nodes) is Err <==> exists|i: int|
            0 <= i < nodes.len() && reserved(#[trigger] nodes[i]),
    decreases nodes, 0int,
{
    if nodes.len() > 0 {
        let front = nodes.drop_last();
        lemma_parse_all_fails_on_reserved(front);
        lemma_parse_fails_on_reserved(nodes.last());
        if parse_all_spec(nodes) is Err {
            if parse_all_spec(front) is Err {
                let i = choose|i: int| 0 <= i < front.len() && reserved(#[trigger] front[i]);
                assert(reserved(nodes[i]));
            } else {
                assert(reserved(nodes[nodes.len() - 1]));
            }
        }
        if exists|i: int| 0 <= i < nodes.len() && reserved(#[trigger] nodes[i]) {
            let i = choose|i: int| 0 <= i < nodes.len() && reserved(#[trigger] nodes[i]);
            if i < nodes.len() - 1 {
                assert(reserved(front[i]));
            }
        }
    }
}

/// The alternatives of a chain of choices have a meaning unless the chain
/// holds a reserved shape.
pub proof fn lemma_parse_alternatives_fail_on_reserved(node: NodeView)
    ensures
        parse_alternatives_spec(node) is Err <==> reserved(node),
    decreases node, 1int,
{
    match node {
        NodeView::Alternate(left, right) => {
            lemma_parse_alternatives_fail_on_reserved(*left);
            lemma_parse_alternatives_fail_on_reserved(*right);
        },
        other => {
            lemma_parse_fails_on_reserved(other);
        },
    }
}

/// An expression that a syntax tree means has an alternative in every choice.
pub proof fn lemma_parse_wf(node: NodeView)
    ensures
        parse_spec(node) matches Ok(expression) ==> expression.wf(),
    decreases node, 0int,
{
    match node {
        NodeView::Sequence(children) => {
            lemma_parse_all_wf(children);
        },
        NodeView::Bracketed(_, content) => {
            lemma_parse_wf(*content);
        },
        NodeView::Augmented(content, _) => {
            lemma_parse_wf(*content);
        },
        NodeView::Alternate(left, right) => {
            lemma_parse_alternatives_wf(*left);
            lemma_parse_alternatives_wf(*right);
        },
        _ => {},
    }
}

/// What the nodes of a list mean is as many expressions, each with an
/// alternative in every choice.
pub proof fn lemma_parse_all_wf(nodes: Seq<NodeView>)
    ensures
        parse_all_spec(nodes) matches Ok(parts) ==> parts.len() == nodes.len() && forall|i: int|
            0 <= i < parts.len() ==> (#[trigger] parts[i]).wf(),
    decreases nodes, 0int,
{
    if nodes.len() > 0 {
        lemma_parse_all_wf(nodes.drop_last());
        lemma_parse_wf(nodes.last());
    }
}

/// A chain of choices has at least one alternative, and what each means has
/// an alternative in every choice.
pub proof fn lemma_parse_alternatives_wf(node: NodeView)
    ensures
        parse_alternatives_spec(node) matches Ok(choices) ==> choices.len() > 0 && forall|i: int|
            0 <= i < choices.len() ==> (#[trigger] choices[i]).wf(),
    decreases node, 1int,
{
    match node {
        NodeView::Alternate(left, right) => {
            lemma_parse_alternatives_wf(*left);
            lemma_parse_alternatives_wf(*right);
        },
        other => {
            lemma_parse_wf(other);
        },
    }
}

/// Resolves a syntax tree into the expression that it means.
///
/// Fails on the first shape, from left to right, that the grammar reserves
/// and that has no meaning yet: brackets other than parentheses, a marker
/// that stands alone, a postfix marker other than the star.
pub fn parse(node: &Node) -> (result: Result<Expression, Unimplemented>)
    ensures
        expression_result_view(result) == parse_spec(node@),
        result matches Ok(expression) ==> expression@.wf(),
        result is Err <==> reserved(node@),
    decreases node, 0int,
{
    broadcast use {crate::tree::group_views, crate::expression::group_views};

    proof {
        lemma_parse_wf(node@);
        lemma_parse_fails_on_reserved(node@);
    }
    match node {
        Node::Empty => Ok(Expression::Literal(String::new())),
        Node::Sequence(children) => {
            let mut parts: Vec<Expression> = Vec::new();
            let mut index: usize = 0;
            assert(expression_views(parts@) =~= Seq::empty());
            while index < children.len()
                invariant
                    index <= children.len(),
                    node@ == NodeView::Sequence(node_views(children@)),
                    forall|k: int|
                        0 <= k < children.len() ==> decreases_to!(node => #[trigger] children[k]),
                    parse_all_spec(node_views(children@).take(index as int)) == Ok::<
                        Seq<ExpressionView>,
                        Unimplemented,
                    >(expression_views(parts@)),
                decreases children.len() - index,
            {
                assert(node_views(children@).take(index + 1).drop_last() =~= node_views(
                    children@,
                ).take(index as int));
                assert(node_views(children@).take(index + 1).last() == children[index as int]@);
                match parse(&children[index]) {
                    Ok(part) => {
                        assert(expression_views(parts@.push(part)) =~= expression_views(parts@).push(
                            part@,
                        ));
                        parts.push(part);
                    },
                    Err(error) => {
                        proof {
                            lemma_parse_all_error(node_views(children@), index + 1);
                        }
                        return Err(error);
                    },
                }
                index = index + 1;
            }
            assert(node_views(children@).take(index as int) =~= node_views(children@));
            Ok(Expression::Sequence(parts))
        },
        Node::Tokens(tokens) => Ok(Expression::Literal(text(tokens))),
        Node::Bracketed(bracket, content) => match bracket {
            Bracket::Parentheses => parse(content),
            Bracket::Braces => Err(Unimplemented::Bracketed(Bracket::Braces)),
            Bracket::Square => Err(Unimplemented::Bracketed(Bracket::Square)),
        },
        Node::Special(special) => Err(Unimplemented::Special(*special)),
        Node::Augmented(content, marker) => {
            let inner = match parse(content) {
                Ok(inner) => inner,
                Err(error) => {
                    return Err(error);
                },
            };
            assert(node@ == NodeView::Augmented(Box::new((**content)@), Box::new((**marker)@)));
            match &**marker {
                Node::Special(Special::Star) => Ok(Expression::Star(Box::new(inner))),
                Node::Special(special) => Err(Unimplemented::Augmentation(Some(*special))),
                _ => Err(Unimplemented::Augmentation(None)),
            }
        },
        Node::Alternate(left, right) => {
            let mut choices: Vec<Expression> = Vec::new();
            assert(expression_views(choices@) =~= Seq::empty());
            match parse_alternatives(left, &mut choices) {
                Ok(()) => {},
                Err(error) => {
                    return Err(error);
                },
            }
            match parse_alternatives(right, &mut choices) {
                Ok(()) => {},
                Err(error) => {
                    return Err(error);
                },
            }
            Ok(Expression::Alternate(choices))
        },
    }
}

/// Resolves the alternatives of a chain of choices, from left to right, and
/// adds what they mean to `choices`.
fn parse_alternatives(node: &Node, choices: &mut Vec<Expression>) -> (result: Result<
    (),
    Unimplemented,
>)
    ensures
        match parse_alternatives_spec(node@) {
            Ok(found) => result is Ok && expression_views(final(choices)@) == expression_views(
                old(choices)@,
            ) + found,
            Err(error) => result == Err::<(), Unimplemented>(error),
        },
    decreases node, 1int,
{
    broadcast use {crate::tree::group_views, crate::expression::group_views};

    match node {
        Node::Alternate(left, right) => {
            match parse_alternatives(left, choices) {
                Ok(()) => {},
                Err(error) => {
                    return Err(error);
                },
            }
            match parse_alternatives(right, choices) {
                Ok(()) => {
                    assert(expression_views(choices@) =~= expression_views(old(choices)@) + (
                    parse_alternatives_spec(left@).unwrap() + parse_alternatives_spec(
                        right@,
                    ).unwrap()));
                    Ok(())
                },
                Err(error) => Err(error),
            }
        },
        other => match parse(other) {
            Ok(only) => {
                assert(expression_views(choices@.push(only)) =~= expression_views(choices@) + seq![
                    only@,
                ]);
                choices.push(only);
                Ok(())
            },
            Err(error) => Err(error),
        },
    }
}

/// Resolving is repeatable: whatever two calls of `parse` return for one
/// syntax tree is the same, as a mathematical value.
pub proof fn lemma_parse_repeatable(
    node: &Node,
    first: Result<Expression, Unimplemented>,
    second: Result<Expression, Unimplemented>,
)
    requires
        call_ensures(parse, (node,), first),
        call_ensures(parse, (node,), second),
    ensures
        expression_result_view(first) == expression_result_view(second),
{
}

} // verus!

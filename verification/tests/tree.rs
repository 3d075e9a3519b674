use regex_examples::tokens::{tokenise, Token, TokenMeta};
use regex_examples::tree::brackets::Bracket;
use regex_examples::tree::classify::TokenClass;
use regex_examples::tree::special::Special;
use regex_examples::tree::{append_child, close_bracket, step, tree, Node, PartialNode, TreeError};

fn raw(c: char, position: usize) -> Token {
    Token::Raw(c, TokenMeta { position })
}

fn run(tokens: Vec<Token>) -> Node {
    Node::Tokens(tokens)
}

fn star() -> Box<Node> {
    Box::new(Node::Special(Special::Star))
}

fn build(pattern: &str) -> Result<Node, TreeError> {
    tree(tokenise(pattern))
}

#[test]
fn test_tree_single_token() {
    assert_eq!(build("a"), Ok(run(vec![raw('a', 0)])));
}

#[test]
fn test_tree_star_takes_the_last_token() {
    assert_eq!(
        build("ab*"),
        Ok(Node::Sequence(vec![
            run(vec![raw('a', 0)]),
            Node::Augmented(Box::new(run(vec![raw('b', 1)])), star()),
        ]))
    );
}

#[test]
fn test_tree_alternate_with_empty_right() {
    assert_eq!(
        build("a|"),
        Ok(Node::Alternate(Box::new(run(vec![raw('a', 0)])), Box::new(Node::Empty)))
    );
}

#[test]
fn test_tree_alternate_with_empty_left() {
    assert_eq!(
        build("|a"),
        Ok(Node::Alternate(Box::new(Node::Empty), Box::new(run(vec![raw('a', 1)]))))
    );
}

#[test]
fn test_tree_bracketed_alternate() {
    assert_eq!(
        build("(|a)"),
        Ok(Node::Bracketed(
            Bracket::Parentheses,
            Box::new(Node::Alternate(Box::new(Node::Empty), Box::new(run(vec![raw('a', 2)]))))
        ))
    );
}

#[test]
fn test_tree_nested_brackets_with_star() {
    assert_eq!(
        build("((|a)*)"),
        Ok(Node::Bracketed(
            Bracket::Parentheses,
            Box::new(Node::Augmented(
                Box::new(Node::Bracketed(
                    Bracket::Parentheses,
                    Box::new(Node::Alternate(
                        Box::new(Node::Empty),
                        Box::new(run(vec![raw('a', 3)]))
                    ))
                )),
                star()
            ))
        ))
    );
}

#[test]
fn test_tree_escaped_bracket_is_literal() {
    assert_eq!(
        build("(|a\\))"),
        Ok(Node::Bracketed(
            Bracket::Parentheses,
            Box::new(Node::Alternate(
                Box::new(Node::Empty),
                Box::new(run(vec![raw('a', 2), Token::Escaped(')', TokenMeta { position: 3 })]))
            ))
        ))
    );
}

#[test]
fn test_tree_bare_star_in_square_brackets() {
    assert_eq!(
        build("[*]"),
        Ok(Node::Bracketed(Bracket::Square, Box::new(Node::Special(Special::Star))))
    );
}

#[test]
fn tree_of_nothing_is_empty() {
    assert_eq!(build(""), Ok(Node::Empty));
}

#[test]
fn tree_of_literals_is_one_run() {
    assert_eq!(
        build("a^.$"),
        Ok(run(vec![raw('a', 0), raw('^', 1), raw('.', 2), raw('$', 3)]))
    );
}

#[test]
fn tree_chain_of_alternates_leans_right() {
    assert_eq!(
        build("a|b|c"),
        Ok(Node::Alternate(
            Box::new(run(vec![raw('a', 0)])),
            Box::new(Node::Alternate(
                Box::new(run(vec![raw('b', 2)])),
                Box::new(run(vec![raw('c', 4)]))
            ))
        ))
    );
}

#[test]
fn tree_bracket_followed_by_tokens_is_a_sequence() {
    assert_eq!(
        build("(a|b)c"),
        Ok(Node::Sequence(vec![
            Node::Bracketed(
                Bracket::Parentheses,
                Box::new(Node::Alternate(
                    Box::new(run(vec![raw('a', 1)])),
                    Box::new(run(vec![raw('b', 3)]))
                ))
            ),
            run(vec![raw('c', 5)]),
        ]))
    );
}

#[test]
fn tree_star_on_single_token_keeps_the_empty_run() {
    assert_eq!(
        build("a*"),
        Ok(Node::Sequence(vec![
            run(vec![]),
            Node::Augmented(Box::new(run(vec![raw('a', 0)])), star()),
        ]))
    );
}

#[test]
fn tree_question_mark_is_an_augmentation() {
    assert_eq!(
        build("(a)?"),
        Ok(Node::Augmented(
            Box::new(Node::Bracketed(Bracket::Parentheses, Box::new(run(vec![raw('a', 1)])))),
            Box::new(Node::Special(Special::Question))
        ))
    );
}

#[test]
fn tree_bare_marker_stands_alone() {
    assert_eq!(build("*"), Ok(Node::Special(Special::Star)));
    assert_eq!(build("?"), Ok(Node::Special(Special::Question)));
}

#[test]
fn tree_sequence_before_alternation_is_reduced() {
    assert_eq!(
        build("(a)|b"),
        Ok(Node::Alternate(
            Box::new(Node::Bracketed(Bracket::Parentheses, Box::new(run(vec![raw('a', 1)])))),
            Box::new(run(vec![raw('b', 4)]))
        ))
    );
}

#[test]
fn tree_two_brackets_in_a_row() {
    assert_eq!(
        build("(a){b}"),
        Ok(Node::Sequence(vec![
            Node::Bracketed(Bracket::Parentheses, Box::new(run(vec![raw('a', 1)]))),
            Node::Bracketed(Bracket::Braces, Box::new(run(vec![raw('b', 4)]))),
        ]))
    );
}

#[test]
fn tree_empty_brackets() {
    assert_eq!(build("()"), Ok(Node::Bracketed(Bracket::Parentheses, Box::new(Node::Empty))));
}

#[test]
fn tree_trailing_escape_is_unexpected() {
    assert_eq!(
        build("a\\"),
        Err(TreeError::UnexpectedEscape(Token::TrailingEscapeCharacter(TokenMeta { position: 1 })))
    );
    assert_eq!(
        build("\\"),
        Err(TreeError::UnexpectedEscape(Token::TrailingEscapeCharacter(TokenMeta { position: 0 })))
    );
    assert_eq!(
        build("(a)\\"),
        Err(TreeError::UnexpectedEscape(Token::TrailingEscapeCharacter(TokenMeta { position: 3 })))
    );
}

#[test]
fn tree_unclosed_bracket() {
    assert_eq!(build("(a"), Err(TreeError::UnclosedBracket(Bracket::Parentheses)));
    assert_eq!(build("[*"), Err(TreeError::UnclosedBracket(Bracket::Square)));
}

#[test]
fn tree_close_without_open() {
    assert_eq!(
        build("a)"),
        Err(TreeError::CloseWithoutOpen { closing: Bracket::Parentheses, position: 1 })
    );
    assert_eq!(
        build("}"),
        Err(TreeError::CloseWithoutOpen { closing: Bracket::Braces, position: 0 })
    );
    assert_eq!(
        build("(a)b|c)"),
        Err(TreeError::CloseWithoutOpen { closing: Bracket::Parentheses, position: 6 })
    );
}

#[test]
fn tree_unclosed_and_unmatched_are_told_apart() {
    assert_ne!(build("(a"), build("a)"));
}

#[test]
fn tree_mismatched_brackets() {
    assert_eq!(
        build("(a]"),
        Err(TreeError::MismatchedBrackets {
            opening: Bracket::Parentheses,
            closing: Bracket::Square,
            position: 2
        })
    );
    assert_eq!(
        build("[(a|b})]"),
        Err(TreeError::MismatchedBrackets {
            opening: Bracket::Parentheses,
            closing: Bracket::Braces,
            position: 5
        })
    );
}

#[test]
fn tree_tokens_before_a_bracket_start_a_sequence() {
    assert_eq!(
        build("a(b)"),
        Ok(Node::Sequence(vec![
            run(vec![raw('a', 0)]),
            Node::Bracketed(Bracket::Parentheses, Box::new(run(vec![raw('b', 2)]))),
        ]))
    );
    assert_eq!(
        build("a(b)c"),
        Ok(Node::Sequence(vec![
            run(vec![raw('a', 0)]),
            Node::Bracketed(Bracket::Parentheses, Box::new(run(vec![raw('b', 2)]))),
            run(vec![raw('c', 4)]),
        ]))
    );
}

#[test]
fn step_on_no_stack_underflows() {
    assert_eq!(step(vec![], raw('a', 0)), Err(TreeError::StackUnderflow));
}

#[test]
fn step_never_starts_from_a_bracket_or_a_choice() {
    assert_eq!(
        step(vec![PartialNode::Bracketed(Bracket::Square)], raw('a', 0)),
        Err(TreeError::UnexpectedFrame)
    );
    assert_eq!(
        step(vec![PartialNode::Alternate(Box::new(Node::Empty))], raw('a', 0)),
        Err(TreeError::UnexpectedFrame)
    );
}

#[test]
fn step_marker_after_an_empty_sequence() {
    assert_eq!(
        step(vec![PartialNode::Sequence(vec![])], raw('*', 0)),
        Err(TreeError::NothingToAugment)
    );
}

#[test]
fn step_bracket_after_tokens_needs_an_enclosing_frame() {
    let tokens = || PartialNode::Tokens(vec![raw('a', 0)]);
    assert_eq!(
        step(vec![PartialNode::Empty, tokens()], raw('(', 1)),
        Err(TreeError::UnexpectedFrame)
    );
    assert_eq!(
        step(vec![tokens(), tokens()], raw('(', 1)),
        Err(TreeError::UnexpectedFrame)
    );
    assert_eq!(
        step(vec![PartialNode::Bracketed(Bracket::Braces), tokens()], raw('(', 1)),
        Ok(vec![
            PartialNode::Bracketed(Bracket::Braces),
            PartialNode::Sequence(vec![run(vec![raw('a', 0)])]),
            PartialNode::Bracketed(Bracket::Parentheses),
            PartialNode::Empty,
        ])
    );
    assert_eq!(
        step(vec![PartialNode::Sequence(vec![Node::Empty]), tokens()], raw('[', 1)),
        Ok(vec![
            PartialNode::Sequence(vec![Node::Empty, run(vec![raw('a', 0)])]),
            PartialNode::Bracketed(Bracket::Square),
            PartialNode::Empty,
        ])
    );
}

#[test]
fn step_moves_from_a_fresh_frame() {
    assert_eq!(
        step(vec![PartialNode::Empty], raw('a', 0)),
        Ok(vec![PartialNode::Tokens(vec![raw('a', 0)])])
    );
    assert_eq!(
        step(vec![PartialNode::Empty], raw('{', 0)),
        Ok(vec![PartialNode::Bracketed(Bracket::Braces), PartialNode::Empty])
    );
    assert_eq!(
        step(vec![PartialNode::Empty], raw('|', 0)),
        Ok(vec![PartialNode::Alternate(Box::new(Node::Empty)), PartialNode::Empty])
    );
    assert_eq!(
        step(vec![PartialNode::Empty], raw('?', 0)),
        Ok(vec![PartialNode::Sequence(vec![Node::Special(Special::Question)])])
    );
}

#[test]
fn step_extends_a_run_of_tokens() {
    assert_eq!(
        step(vec![PartialNode::Tokens(vec![raw('a', 0)])], Token::Escaped('*', TokenMeta { position: 1 })),
        Ok(vec![PartialNode::Tokens(vec![
            raw('a', 0),
            Token::Escaped('*', TokenMeta { position: 1 })
        ])])
    );
}

#[test]
fn end_with_closes_each_kind_of_frame() {
    let a = || run(vec![raw('a', 0)]);
    assert_eq!(PartialNode::Empty.end_with(a()), Ok(a()));
    assert_eq!(PartialNode::Sequence(vec![]).end_with(Node::Empty), Ok(Node::Empty));
    assert_eq!(PartialNode::Sequence(vec![a()]).end_with(Node::Empty), Ok(a()));
    assert_eq!(PartialNode::Sequence(vec![]).end_with(a()), Ok(a()));
    assert_eq!(
        PartialNode::Sequence(vec![a()]).end_with(Node::Special(Special::Dot)),
        Ok(Node::Sequence(vec![a(), Node::Special(Special::Dot)]))
    );
    assert_eq!(
        PartialNode::Sequence(vec![a(), a()]).end_with(Node::Empty),
        Ok(Node::Sequence(vec![a(), a()]))
    );
    assert_eq!(PartialNode::Tokens(vec![raw('a', 0)]).end_with(Node::Empty), Ok(a()));
    assert_eq!(
        PartialNode::Alternate(Box::new(a())).end_with(Node::Empty),
        Ok(Node::Alternate(Box::new(a()), Box::new(Node::Empty)))
    );
}

#[test]
fn end_with_refuses_what_cannot_nest() {
    let a = || run(vec![raw('a', 0)]);
    assert_eq!(
        PartialNode::Sequence(vec![a()]).end_with(Node::Sequence(vec![a(), a()])),
        Err(TreeError::NestedSequence)
    );
    assert_eq!(
        PartialNode::Tokens(vec![raw('a', 0)]).end_with(a()),
        Err(TreeError::NestedInTokens)
    );
    assert_eq!(
        PartialNode::Bracketed(Bracket::Braces).end_with(Node::Empty),
        Err(TreeError::UnclosedBracket(Bracket::Braces))
    );
}

#[test]
fn append_child_to_each_kind_of_frame() {
    let a = || run(vec![raw('a', 0)]);
    let b = || run(vec![raw('b', 1)]);

    let mut stack = vec![];
    append_child(&mut stack, a());
    assert_eq!(stack, vec![PartialNode::Sequence(vec![a()])]);

    let mut stack = vec![PartialNode::Empty];
    append_child(&mut stack, a());
    assert_eq!(stack, vec![PartialNode::Sequence(vec![a()])]);

    let mut stack = vec![PartialNode::Sequence(vec![a()])];
    append_child(&mut stack, b());
    assert_eq!(stack, vec![PartialNode::Sequence(vec![a(), b()])]);

    let mut stack = vec![PartialNode::Tokens(vec![raw('a', 0)])];
    append_child(&mut stack, b());
    assert_eq!(stack, vec![PartialNode::Sequence(vec![a(), b()])]);

    let mut stack = vec![PartialNode::Bracketed(Bracket::Square)];
    append_child(&mut stack, a());
    assert_eq!(
        stack,
        vec![PartialNode::Bracketed(Bracket::Square), PartialNode::Sequence(vec![a()])]
    );

    let mut stack = vec![PartialNode::Sequence(vec![]), PartialNode::Alternate(Box::new(a()))];
    append_child(&mut stack, b());
    assert_eq!(
        stack,
        vec![
            PartialNode::Sequence(vec![]),
            PartialNode::Alternate(Box::new(a())),
            PartialNode::Sequence(vec![b()]),
        ]
    );
}

#[test]
fn close_bracket_encloses_what_was_read() {
    let a = || run(vec![raw('a', 1)]);
    assert_eq!(
        close_bracket(
            vec![PartialNode::Bracketed(Bracket::Parentheses)],
            Bracket::Parentheses,
            2,
            a()
        ),
        Ok(vec![PartialNode::Sequence(vec![Node::Bracketed(
            Bracket::Parentheses,
            Box::new(a())
        )])])
    );
    assert_eq!(
        close_bracket(
            vec![
                PartialNode::Sequence(vec![Node::Empty]),
                PartialNode::Alternate(Box::new(Node::Empty)),
                PartialNode::Bracketed(Bracket::Square),
                PartialNode::Alternate(Box::new(a())),
            ],
            Bracket::Square,
            7,
            Node::Empty
        ),
        Ok(vec![
            PartialNode::Sequence(vec![Node::Empty]),
            PartialNode::Alternate(Box::new(Node::Empty)),
            PartialNode::Sequence(vec![Node::Bracketed(
                Bracket::Square,
                Box::new(Node::Alternate(Box::new(a()), Box::new(Node::Empty)))
            )]),
        ])
    );
}

#[test]
fn close_bracket_fails_without_a_matching_open() {
    assert_eq!(
        close_bracket(vec![], Bracket::Square, 0, Node::Empty),
        Err(TreeError::CloseWithoutOpen { closing: Bracket::Square, position: 0 })
    );
    assert_eq!(
        close_bracket(vec![PartialNode::Empty], Bracket::Square, 4, Node::Empty),
        Err(TreeError::CloseWithoutOpen { closing: Bracket::Square, position: 4 })
    );
    assert_eq!(
        close_bracket(vec![PartialNode::Bracketed(Bracket::Braces)], Bracket::Square, 9, Node::Empty),
        Err(TreeError::MismatchedBrackets {
            opening: Bracket::Braces,
            closing: Bracket::Square,
            position: 9
        })
    );
    assert_eq!(
        close_bracket(
            vec![PartialNode::Bracketed(Bracket::Square), PartialNode::Tokens(vec![raw('a', 0)])],
            Bracket::Square,
            3,
            Node::Special(Special::Star)
        ),
        Err(TreeError::NestedInTokens)
    );
}

#[test]
fn tree_choice_binds_less_than_what_stands_beside_it() {
    let bracketed = |c: char, position: usize| {
        Node::Bracketed(Bracket::Parentheses, Box::new(run(vec![raw(c, position)])))
    };
    assert_eq!(
        build("(a)b|c"),
        Ok(Node::Alternate(
            Box::new(Node::Sequence(vec![bracketed('a', 1), run(vec![raw('b', 3)])])),
            Box::new(run(vec![raw('c', 5)]))
        ))
    );
    assert_eq!(
        build("a|(b)c"),
        Ok(Node::Alternate(
            Box::new(run(vec![raw('a', 0)])),
            Box::new(Node::Sequence(vec![bracketed('b', 3), run(vec![raw('c', 5)])]))
        ))
    );
    assert_eq!(
        build("a|b*"),
        Ok(Node::Alternate(
            Box::new(run(vec![raw('a', 0)])),
            Box::new(Node::Sequence(vec![
                run(vec![]),
                Node::Augmented(Box::new(run(vec![raw('b', 2)])), star()),
            ]))
        ))
    );
    assert_eq!(
        build("(a)b|(c)(d)"),
        Ok(Node::Alternate(
            Box::new(Node::Sequence(vec![bracketed('a', 1), run(vec![raw('b', 3)])])),
            Box::new(Node::Sequence(vec![bracketed('c', 6), bracketed('d', 9)]))
        ))
    );
    assert_eq!(
        build("(a)b|(c)d"),
        Ok(Node::Alternate(
            Box::new(Node::Sequence(vec![bracketed('a', 1), run(vec![raw('b', 3)])])),
            Box::new(Node::Sequence(vec![bracketed('c', 6), run(vec![raw('d', 8)])]))
        ))
    );
    assert_eq!(
        build("(a|b*|c)d"),
        Ok(Node::Sequence(vec![
            Node::Bracketed(
                Bracket::Parentheses,
                Box::new(Node::Alternate(
                    Box::new(run(vec![raw('a', 1)])),
                    Box::new(Node::Alternate(
                        Box::new(Node::Sequence(vec![
                            run(vec![]),
                            Node::Augmented(Box::new(run(vec![raw('b', 3)])), star()),
                        ])),
                        Box::new(run(vec![raw('c', 6)]))
                    ))
                ))
            ),
            run(vec![raw('d', 8)]),
        ]))
    );
}

#[test]
fn default_node_and_frame_are_empty() {
    assert_eq!(Node::default(), Node::Empty);
    assert_eq!(PartialNode::default(), PartialNode::Empty);
}

const PATTERNS: [&str; 24] = [
    "", "a", "ab*", "a|", "|a", "(|a)", "((|a)*)", "[*]", "a*b*", "(a)(b)", "(a)|b", "a|b*",
    "(a)b|c", "(a)b|(c)(d)", "a(b)", "(a", "a)", "(a]", "a\\", "**", "|||", "(())", "(a|b)*c?",
    "{[(a)]}*|x",
];

fn is_reduced(node: &Node) -> bool {
    match node {
        Node::Empty | Node::Tokens(_) | Node::Special(_) => true,
        Node::Sequence(children) => {
            children.len() >= 2
                && children.iter().all(|child| !matches!(child, Node::Sequence(_)) && is_reduced(child))
        }
        Node::Bracketed(_, content) => is_reduced(content),
        Node::Augmented(content, marker) => is_reduced(content) && is_reduced(marker),
        Node::Alternate(left, right) => is_reduced(left) && is_reduced(right),
    }
}

#[test]
fn tree_is_fully_reduced() {
    for pattern in PATTERNS {
        if let Ok(node) = build(pattern) {
            assert!(is_reduced(&node), "{pattern}");
        }
    }
}

fn first_fault(pattern: &str) -> Option<TreeError> {
    let mut opened: Vec<Bracket> = vec![];
    for token in tokenise(pattern) {
        let position = token.position();
        match token.classify() {
            TokenClass::Problematic => return Some(TreeError::UnexpectedEscape(token)),
            TokenClass::OpenBracket => opened.push(Bracket::try_from(token).expect("a bracket")),
            TokenClass::CloseBracket => {
                let closing = Bracket::try_from(token).expect("a bracket");
                match opened.pop() {
                    None => return Some(TreeError::CloseWithoutOpen { closing, position }),
                    Some(opening) if opening != closing => {
                        return Some(TreeError::MismatchedBrackets { opening, closing, position })
                    }
                    Some(_) => {}
                }
            }
            _ => {}
        }
    }
    opened.pop().map(TreeError::UnclosedBracket)
}

#[test]
fn tree_fails_only_where_the_structure_is_broken() {
    let more = [
        "a(b)c(d)e", "a|b|c", "(a|b)|c", "a*|b*", "a*(b|c)*", "x(y|z)*|w", "((a)b|c)d", "a|(b|(c|d))",
        "[a]{b}(c)", "(a[b{c}d]e)", "a(b", "a(b]", "a)b(", "(a|b", "a|b)", "\\(a\\)", "(a)\\",
    ];
    for pattern in PATTERNS.iter().chain(more.iter()) {
        match (build(pattern), first_fault(pattern)) {
            (Ok(_), None) => {}
            (Err(error), Some(fault)) => assert_eq!(error, fault, "{pattern}"),
            (built, fault) => panic!("{pattern}: {built:?} against {fault:?}"),
        }
    }
}

use regex_examples::expression::{cross, repetitions, Expression, REPETITIONS};
use regex_examples::parse::parse as resolve;
use regex_examples::parse::Unimplemented;
use regex_examples::tokens::{tokenise, Token, TokenMeta};
use regex_examples::tree::brackets::Bracket;
use regex_examples::tree::special::Special;
use regex_examples::tree::{tree, Node, TreeError};
use regex_examples::{enumerate, example, parse, Error};

fn strings(items: &[&str]) -> Vec<String> {
    items.iter().map(|item| item.to_string()).collect()
}

fn literal(text: &str) -> Expression {
    Expression::Literal(text.to_string())
}

fn run_of(text: &str) -> Node {
    Node::Tokens(
        text.chars().enumerate().map(|(position, c)| Token::Raw(c, TokenMeta { position })).collect(),
    )
}

#[test]
fn example_of_plain_text_is_the_text() {
    for text in ["", "a", "hello world", "a^.$b", "naïve+"] {
        assert_eq!(example(text.to_string()), Ok(text.to_string()));
        assert_eq!(enumerate(text.to_string()), Ok(vec![text.to_string()]));
    }
}

#[test]
fn example_is_among_the_enumerated() {
    for pattern in ["", "ab", "a|b", "a*", "(a|b)c", "(a|b)*", "(x)(y|z)*|w", "((a))", "a\\*|b\\|"] {
        let witness = example(pattern.to_string()).expect("the pattern has an expression");
        let witnesses = enumerate(pattern.to_string()).expect("the pattern has an expression");
        assert!(witnesses.contains(&witness));
    }
}

#[test]
fn enumerate_alternatives_in_source_order() {
    assert_eq!(enumerate("a|b".to_string()), Ok(strings(&["a", "b"])));
    assert_eq!(enumerate("a|b|c".to_string()), Ok(strings(&["a", "b", "c"])));
    assert_eq!(enumerate("c|(b|a)|d".to_string()), Ok(strings(&["c", "b", "a", "d"])));
}

#[test]
fn enumerate_literal() {
    assert_eq!(enumerate("ab".to_string()), Ok(strings(&["ab"])));
}

#[test]
fn enumerate_star_stops_at_two_repetitions() {
    assert_eq!(enumerate("a*".to_string()), Ok(strings(&["", "a", "aa"])));
}

#[test]
fn enumerate_bracketed_alternatives_in_sequence() {
    assert_eq!(enumerate("(a|b)c".to_string()), Ok(strings(&["ac", "bc"])));
}

#[test]
fn enumerate_crosses_the_parts_of_a_sequence() {
    assert_eq!(enumerate("(a|b)(c|d)".to_string()), Ok(strings(&["ac", "ad", "bc", "bd"])));
    assert_eq!(
        enumerate("(a|b)(c|d|e)".to_string()),
        Ok(strings(&["ac", "ad", "ae", "bc", "bd", "be"]))
    );
}

#[test]
fn enumerate_star_of_alternatives() {
    assert_eq!(
        enumerate("(a|b)*".to_string()),
        Ok(strings(&["", "a", "b", "aa", "ab", "ba", "bb"]))
    );
}

#[test]
fn enumerate_choice_binds_less_than_repetition_and_sequence() {
    assert_eq!(enumerate("a|b*".to_string()), Ok(strings(&["a", "", "b", "bb"])));
    assert_eq!(enumerate("a*|b".to_string()), Ok(strings(&["", "a", "aa", "b"])));
    assert_eq!(enumerate("(a)b|c".to_string()), Ok(strings(&["ab", "c"])));
    assert_eq!(enumerate("a|(b)c".to_string()), Ok(strings(&["a", "bc"])));
    assert_eq!(enumerate("(a)b|(c)d".to_string()), Ok(strings(&["ab", "cd"])));
    assert_eq!(enumerate("x(y|z)w".to_string()), Ok(strings(&["xyw", "xzw"])));
    assert_eq!(enumerate("a(b)".to_string()), Ok(strings(&["ab"])));
    assert_eq!(example("a|b*".to_string()), Ok("a".to_string()));
    assert_eq!(example("a(b|c)*d".to_string()), Ok("abd".to_string()));
}

#[test]
fn choice_lists_the_left_side_then_the_right_side() {
    let sides = ["", "a", "ab*", "(a|b)c", "a(b)", "(a)b", "x*y*", "a|b", "(a|(b|c))d", "\\|"];
    for left in sides {
        for right in sides {
            let whole = enumerate(format!("{left}|{right}")).expect("the pattern has an expression");
            let mut both = enumerate(left.to_string()).expect("the left side has an expression");
            both.extend(enumerate(right.to_string()).expect("the right side has an expression"));
            assert_eq!(whole, both, "{left}|{right}");
            assert_eq!(example(format!("{left}|{right}")), example(left.to_string()));
        }
    }
}

#[test]
fn enumerate_empty_alternative() {
    assert_eq!(enumerate("a|".to_string()), Ok(strings(&["a", ""])));
    assert_eq!(enumerate("|a".to_string()), Ok(strings(&["", "a"])));
}

#[test]
fn enumerate_may_list_a_witness_twice() {
    assert_eq!(enumerate("a|a".to_string()), Ok(strings(&["a", "a"])));
}

#[test]
fn example_takes_the_first_alternative_and_one_repetition() {
    assert_eq!(example("a|b".to_string()), Ok("a".to_string()));
    assert_eq!(example("a*".to_string()), Ok("a".to_string()));
    assert_eq!(example("(x|y)z*".to_string()), Ok("xz".to_string()));
    assert_eq!(example("(b|a)*c".to_string()), Ok("bc".to_string()));
}

#[test]
fn example_of_escaped_characters() {
    assert_eq!(example("a\\*".to_string()), Ok("a*".to_string()));
    assert_eq!(example("\\(\\)\\\\".to_string()), Ok("()\\".to_string()));
}

#[test]
fn trailing_escape_is_a_structural_error() {
    let expected = Error::Tree(TreeError::UnexpectedEscape(Token::TrailingEscapeCharacter(
        TokenMeta { position: 1 },
    )));
    assert_eq!(example("a\\".to_string()), Err(expected));
    assert_eq!(enumerate("a\\".to_string()), Err(expected));
}

#[test]
fn unclosed_and_unmatched_brackets_are_structural_errors() {
    assert_eq!(
        example("(a".to_string()),
        Err(Error::Tree(TreeError::UnclosedBracket(Bracket::Parentheses)))
    );
    assert_eq!(
        example("a)".to_string()),
        Err(Error::Tree(TreeError::CloseWithoutOpen {
            closing: Bracket::Parentheses,
            position: 1
        }))
    );
    assert_eq!(
        enumerate("(a]".to_string()),
        Err(Error::Tree(TreeError::MismatchedBrackets {
            opening: Bracket::Parentheses,
            closing: Bracket::Square,
            position: 2
        }))
    );
}

#[test]
fn reserved_shapes_are_unimplemented() {
    assert_eq!(
        example("[a]".to_string()),
        Err(Error::Unimplemented(Unimplemented::Bracketed(Bracket::Square)))
    );
    assert_eq!(
        example("{a}".to_string()),
        Err(Error::Unimplemented(Unimplemented::Bracketed(Bracket::Braces)))
    );
    assert_eq!(
        example("a?".to_string()),
        Err(Error::Unimplemented(Unimplemented::Augmentation(Some(Special::Question))))
    );
    assert_eq!(
        enumerate("*".to_string()),
        Err(Error::Unimplemented(Unimplemented::Special(Special::Star)))
    );
    assert_eq!(
        enumerate("?".to_string()),
        Err(Error::Unimplemented(Unimplemented::Special(Special::Question)))
    );
}

#[test]
fn anchors_and_the_dot_are_literal_characters() {
    assert_eq!(example("^".to_string()), Ok("^".to_string()));
    assert_eq!(example("$".to_string()), Ok("$".to_string()));
    assert_eq!(example(".".to_string()), Ok(".".to_string()));
}

#[test]
fn first_reserved_shape_from_the_left_is_reported() {
    assert_eq!(
        example("[a]{b}".to_string()),
        Err(Error::Unimplemented(Unimplemented::Bracketed(Bracket::Square)))
    );
    assert_eq!(
        example("{a}|[b]".to_string()),
        Err(Error::Unimplemented(Unimplemented::Bracketed(Bracket::Braces)))
    );
    assert_eq!(
        example("[a]?".to_string()),
        Err(Error::Unimplemented(Unimplemented::Bracketed(Bracket::Square)))
    );
}

#[test]
fn parse_pattern_gives_the_expression() {
    assert_eq!(parse("".to_string()), Ok(literal("")));
    assert_eq!(parse("ab".to_string()), Ok(literal("ab")));
    assert_eq!(
        parse("a|b|c".to_string()),
        Ok(Expression::Alternate(vec![literal("a"), literal("b"), literal("c")]))
    );
    assert_eq!(
        parse("(a)*".to_string()),
        Ok(Expression::Star(Box::new(literal("a"))))
    );
    assert_eq!(
        parse("ab*".to_string()),
        Ok(Expression::Sequence(vec![literal("a"), Expression::Star(Box::new(literal("b")))]))
    );
}

#[test]
fn parse_node_resolves_each_shape() {
    assert_eq!(resolve(&Node::Empty), Ok(literal("")));
    assert_eq!(resolve(&run_of("abc")), Ok(literal("abc")));
    assert_eq!(
        resolve(&Node::Tokens(vec![Token::TrailingEscapeCharacter(TokenMeta { position: 0 })])),
        Ok(literal("\\"))
    );
    assert_eq!(
        resolve(&Node::Sequence(vec![run_of("a"), Node::Empty])),
        Ok(Expression::Sequence(vec![literal("a"), literal("")]))
    );
    assert_eq!(
        resolve(&Node::Bracketed(Bracket::Parentheses, Box::new(run_of("a")))),
        Ok(literal("a"))
    );
    assert_eq!(
        resolve(&Node::Alternate(
            Box::new(Node::Alternate(Box::new(run_of("a")), Box::new(run_of("b")))),
            Box::new(Node::Alternate(Box::new(run_of("c")), Box::new(run_of("d"))))
        )),
        Ok(Expression::Alternate(vec![literal("a"), literal("b"), literal("c"), literal("d")]))
    );
}

#[test]
fn parse_node_reports_each_reserved_shape() {
    assert_eq!(
        resolve(&Node::Bracketed(Bracket::Braces, Box::new(Node::Empty))),
        Err(Unimplemented::Bracketed(Bracket::Braces))
    );
    assert_eq!(resolve(&Node::Special(Special::Caret)), Err(Unimplemented::Special(Special::Caret)));
    assert_eq!(
        resolve(&Node::Augmented(Box::new(run_of("a")), Box::new(Node::Special(Special::Dot)))),
        Err(Unimplemented::Augmentation(Some(Special::Dot)))
    );
    assert_eq!(
        resolve(&Node::Augmented(Box::new(run_of("a")), Box::new(run_of("*")))),
        Err(Unimplemented::Augmentation(None))
    );
    assert_eq!(
        resolve(&Node::Augmented(
            Box::new(Node::Special(Special::Dollar)),
            Box::new(Node::Special(Special::Question))
        )),
        Err(Unimplemented::Special(Special::Dollar))
    );
}

#[test]
fn parse_node_twice_gives_equal_expressions() {
    for pattern in ["", "ab", "a|b|c", "(a|b)*c", "[a]", "a?"] {
        let node = tree(tokenise(pattern)).expect("the pattern has a tree");
        assert_eq!(resolve(&node), resolve(&node));
    }
}

#[test]
fn optional_lists_the_inner_witnesses_then_nothing() {
    let optional = Expression::Optional(Box::new(Expression::Alternate(vec![
        literal("a"),
        literal("b"),
    ])));
    assert_eq!(optional.enumerate(), strings(&["a", "b", ""]));
    assert_eq!(optional.example(), "a".to_string());
}

#[test]
fn empty_sequence_is_the_empty_string() {
    let sequence = Expression::Sequence(vec![]);
    assert_eq!(sequence.enumerate(), strings(&[""]));
    assert_eq!(sequence.example(), String::new());
}

#[test]
fn choice_without_alternatives_lists_nothing() {
    assert_eq!(Expression::Alternate(vec![]).enumerate(), Vec::<String>::new());
    let sequence = Expression::Sequence(vec![literal("a"), Expression::Alternate(vec![])]);
    assert_eq!(sequence.enumerate(), Vec::<String>::new());
}

#[test]
fn cross_pairs_every_left_with_every_right() {
    assert_eq!(
        cross(&strings(&["a", "b"]), &strings(&["x", "y", "z"])),
        strings(&["ax", "ay", "az", "bx", "by", "bz"])
    );
    assert_eq!(cross(&strings(&["a", "b"]), &vec![]), Vec::<String>::new());
    assert_eq!(cross(&vec![], &strings(&["a", "b"])), Vec::<String>::new());
    assert_eq!(cross(&strings(&[""]), &strings(&["a", "b"])), strings(&["a", "b"]));
}

#[test]
fn repetitions_list_fewer_strings_first() {
    let items = strings(&["x", "y"]);
    assert_eq!(repetitions(&items, 0), strings(&[""]));
    assert_eq!(repetitions(&items, 1), strings(&["", "x", "y"]));
    assert_eq!(repetitions(&items, 2), strings(&["", "x", "y", "xx", "xy", "yx", "yy"]));
    assert_eq!(repetitions(&strings(&["a"]), 4), strings(&["", "a", "aa", "aaa", "aaaa"]));
    assert_eq!(repetitions(&vec![], 3), strings(&[""]));
}

#[test]
fn enumerate_up_to_a_number_of_repetitions() {
    let star = parse("a*".to_string()).expect("the pattern has an expression");
    assert_eq!(star.enumerate_up_to(0), strings(&[""]));
    assert_eq!(star.enumerate_up_to(1), strings(&["", "a"]));
    assert_eq!(star.enumerate_up_to(2), star.enumerate());
    assert_eq!(star.enumerate_up_to(3), strings(&["", "a", "aa", "aaa"]));

    let choice = parse("(a|b)*c".to_string()).expect("the pattern has an expression");
    assert_eq!(choice.enumerate_up_to(1), strings(&["c", "ac", "bc"]));

    let nested = parse("((a)*)*".to_string()).expect("the pattern has an expression");
    assert_eq!(nested.enumerate_up_to(1), strings(&["", "", "a"]));
}

#[test]
fn default_number_of_repetitions_is_two() {
    assert_eq!(REPETITIONS, 2);
    for pattern in ["", "ab", "a|b", "a*", "(a|b)*c", "((a)*)*"] {
        let expression = parse(pattern.to_string()).expect("the pattern has an expression");
        assert_eq!(expression.enumerate(), expression.enumerate_up_to(2));
    }
}

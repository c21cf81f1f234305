use latex_rs::ast::Node;
use latex_rs::expand::expand_macros;
use latex_rs::ast::TextStyle;
use latex_rs::parser::{parse, ParseError};

#[test]
fn test_simple_text() {
    let ast = parse("Hello").unwrap();
    assert_eq!(ast, Node::Sequence(vec![Node::Text("Hello".into())]));
}

#[test]
fn test_grouping() {
    let ast = parse("{Hi there}").unwrap();
    assert_eq!(
        ast,
        Node::Sequence(vec![Node::Sequence(vec![
            Node::Text("Hi".into()),
            Node::Text("there".into()),
        ])])
    );
}

#[test]
fn test_macro() {
    let ast = parse(r"\textbf{Bold}").unwrap();
    assert_eq!(
        ast,
        Node::Sequence(vec![Node::Macro {
            name: "textbf".into(),
            args: vec![Node::Sequence(vec![Node::Text("Bold".into())])],
        }])
    );
}

#[test]
fn group_keeps_its_shape() {
    assert_eq!(
        parse("{A B}"),
        Ok(Node::Sequence(vec![Node::Sequence(vec![
            Node::Text("A".into()),
            Node::Text("B".into()),
        ])]))
    );
}

#[test]
fn styling_command_collapses_after_expansion() {
    let ast = parse("\\textbf{Bold}").unwrap();
    assert_eq!(
        expand_macros(&ast),
        Node::Sequence(vec![Node::StyledText("Bold".into(), TextStyle::Bold)])
    );
    let ast = parse("\\emph{two words}").unwrap();
    assert_eq!(
        expand_macros(&ast),
        Node::Sequence(vec![Node::StyledText("two words".into(), TextStyle::Italic)])
    );
}

#[test]
fn unclosed_group_fails() {
    assert_eq!(parse("{A"), Err(ParseError::UnclosedGroup { pos: 0 }));
    assert_eq!(parse("{"), Err(ParseError::UnclosedGroup { pos: 0 }));
    assert_eq!(parse("\\textbf{"), Err(ParseError::UnclosedGroup { pos: 1 }));
}

#[test]
fn innermost_unclosed_group_is_reported() {
    // tokens: { a { b  -> the second left brace is token 2
    assert_eq!(parse("{a {b"), Err(ParseError::UnclosedGroup { pos: 2 }));
    // the inner group is closed, the outer is not
    assert_eq!(parse("{a {b}"), Err(ParseError::UnclosedGroup { pos: 0 }));
}

#[test]
fn unmatched_right_brace_leaves_trailing_tokens() {
    assert_eq!(parse("}"), Err(ParseError::TrailingTokens { pos: 0 }));
    assert_eq!(parse("a } b"), Err(ParseError::TrailingTokens { pos: 1 }));
    assert_eq!(parse("{a}}"), Err(ParseError::TrailingTokens { pos: 3 }));
}

#[test]
fn error_token_is_unexpected() {
    assert_eq!(parse("\\"), Err(ParseError::UnexpectedToken { pos: 0 }));
    assert_eq!(parse("a \\1"), Err(ParseError::UnexpectedToken { pos: 1 }));
    assert_eq!(parse("{a \\1"), Err(ParseError::UnexpectedToken { pos: 2 }));
}

#[test]
fn first_error_from_the_left_decides() {
    assert_eq!(parse("} \\1"), Err(ParseError::TrailingTokens { pos: 0 }));
    assert_eq!(parse("\\1 }"), Err(ParseError::UnexpectedToken { pos: 0 }));
    assert_eq!(parse("{ \\1 }"), Err(ParseError::UnexpectedToken { pos: 1 }));
}

#[test]
fn empty_source_is_an_empty_sequence() {
    assert_eq!(parse(""), Ok(Node::Sequence(vec![])));
    assert_eq!(parse(" % nothing\n"), Ok(Node::Sequence(vec![])));
    assert_eq!(parse("{}"), Ok(Node::Sequence(vec![Node::Sequence(vec![])])));
}

#[test]
fn command_takes_the_group_behind_it() {
    assert_eq!(
        parse("\\a \\b{x}{y} z"),
        Ok(Node::Sequence(vec![
            Node::Macro { name: "a".into(), args: vec![] },
            Node::Macro {
                name: "b".into(),
                args: vec![Node::Sequence(vec![Node::Text("x".into())])],
            },
            Node::Sequence(vec![Node::Text("y".into())]),
            Node::Text("z".into()),
        ]))
    );
    // whitespace between the command and the brace does not part them
    assert_eq!(
        parse("\\b {x}"),
        Ok(Node::Sequence(vec![Node::Macro {
            name: "b".into(),
            args: vec![Node::Sequence(vec![Node::Text("x".into())])],
        }]))
    );
    // a command at the end has no argument
    assert_eq!(
        parse("x \\b"),
        Ok(Node::Sequence(vec![
            Node::Text("x".into()),
            Node::Macro { name: "b".into(), args: vec![] },
        ]))
    );
}

#[test]
fn nesting_is_kept_as_deep_as_the_braces() {
    assert_eq!(
        parse("{{a}{{b}}}"),
        Ok(Node::Sequence(vec![Node::Sequence(vec![
            Node::Sequence(vec![Node::Text("a".into())]),
            Node::Sequence(vec![Node::Sequence(vec![Node::Text("b".into())])]),
        ])]))
    );
    assert_eq!(
        parse("\\a{\\b{c}}"),
        Ok(Node::Sequence(vec![Node::Macro {
            name: "a".into(),
            args: vec![Node::Sequence(vec![Node::Macro {
                name: "b".into(),
                args: vec![Node::Sequence(vec![Node::Text("c".into())])],
            }])],
        }]))
    );
}

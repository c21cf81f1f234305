use latex_rs::lexer::{lex, Token};

/// The tokens of `input` without their spans.
fn kinds(input: &str) -> Vec<Token> {
    lex(input).into_iter().map(|(t, _, _)| t).collect()
}

#[test]
fn test_text() {
    assert_eq!(kinds("Hello"), vec![Token::Text("Hello".into())]);
}

#[test]
fn test_command() {
    assert_eq!(kinds("\\textbf"), vec![Token::Command("textbf".into())]);
}

#[test]
fn test_braces() {
    assert_eq!(kinds("{ }"), vec![Token::LBrace, Token::RBrace]);
}

#[test]
fn test_mixed() {
    let input = "\\emph{Word} and text";
    let expected = vec![
        Token::Command("emph".into()),
        Token::LBrace,
        Token::Text("Word".into()),
        Token::RBrace,
        Token::Text("and".into()),
        Token::Text("text".into()),
    ];
    assert_eq!(kinds(input), expected);
}

#[test]
fn test_comment() {
    // Text before comment, comment skipped, then More
    assert_eq!(
        kinds("Text % comment\nMore"),
        vec![Token::Text("Text".into()), Token::Text("More".into()),]
    );
}

#[test]
fn empty_input_gives_no_tokens() {
    assert_eq!(lex(""), vec![]);
    assert_eq!(lex("  \t\n "), vec![]);
    assert_eq!(lex("% only a comment"), vec![]);
}

#[test]
fn spans_are_byte_offsets() {
    assert_eq!(
        lex("ab {c}"),
        vec![
            (Token::Text("ab".into()), 0, 2),
            (Token::LBrace, 3, 4),
            (Token::Text("c".into()), 4, 5),
            (Token::RBrace, 5, 6),
        ]
    );
    assert_eq!(
        lex("\\emph x"),
        vec![(Token::Command("emph".into()), 0, 5), (Token::Text("x".into()), 6, 7)]
    );
}

#[test]
fn spans_count_bytes_of_wide_characters() {
    // e-acute takes two bytes, the euro sign three, the clef four
    assert_eq!(
        lex("\u{e9}t\u{e9} \u{20ac} \u{1d11e}{"),
        vec![
            (Token::Text("\u{e9}t\u{e9}".into()), 0, 5),
            (Token::Text("\u{20ac}".into()), 6, 9),
            (Token::Text("\u{1d11e}".into()), 10, 14),
            (Token::LBrace, 14, 15),
        ]
    );
}

#[test]
fn lone_backslash_is_an_error_token() {
    assert_eq!(lex("\\"), vec![(Token::Error, 0, 1)]);
    assert_eq!(
        lex("a\\1"),
        vec![
            (Token::Text("a".into()), 0, 1),
            (Token::Error, 1, 2),
            (Token::Text("1".into()), 2, 3),
        ]
    );
    assert_eq!(kinds("\\\\"), vec![Token::Error, Token::Error]);
    assert_eq!(kinds("\\{"), vec![Token::Error, Token::LBrace]);
    assert_eq!(kinds("\\ x"), vec![Token::Error, Token::Text("x".into())]);
    assert_eq!(kinds("\\\u{e9}"), vec![Token::Error, Token::Text("\u{e9}".into())]);
}

#[test]
fn command_name_takes_letters_only() {
    assert_eq!(
        kinds("\\text1"),
        vec![Token::Command("text".into()), Token::Text("1".into())]
    );
    assert_eq!(
        kinds("\\a\\b"),
        vec![Token::Command("a".into()), Token::Command("b".into())]
    );
    assert_eq!(
        kinds("\\Emph_x"),
        vec![Token::Command("Emph".into()), Token::Text("_x".into())]
    );
    assert_eq!(
        kinds("\\z\u{e9}"),
        vec![Token::Command("z".into()), Token::Text("\u{e9}".into())]
    );
}

#[test]
fn percent_comment_runs_to_the_line_end() {
    assert_eq!(kinds("a%b {c} \\d\ne"), vec![Token::Text("a".into()), Token::Text("e".into())]);
    assert_eq!(kinds("% x\n% y\nz"), vec![Token::Text("z".into())]);
    assert_eq!(lex("a%b"), vec![(Token::Text("a".into()), 0, 1)]);
}

#[test]
fn double_slash_starts_a_comment_only_at_a_token_start() {
    assert_eq!(kinds("// note {\nx"), vec![Token::Text("x".into())]);
    assert_eq!(kinds("a // b\nc"), vec![Token::Text("a".into()), Token::Text("c".into())]);
    assert_eq!(kinds("//"), vec![]);
    // inside a text token the slashes are text
    assert_eq!(kinds("a//b c"), vec![Token::Text("a//b".into()), Token::Text("c".into())]);
    assert_eq!(kinds("/a"), vec![Token::Text("/a".into())]);
    assert_eq!(kinds("/"), vec![Token::Text("/".into())]);
    assert_eq!(kinds("}//x"), vec![Token::RBrace]);
}

#[test]
fn unicode_whitespace_separates_tokens() {
    assert_eq!(
        kinds("a\u{a0}b\u{2003}c\u{3000}d\u{85}e\u{1680}f\u{2028}g\u{205f}h\u{b}i\u{c}j\rk"),
        vec![
            Token::Text("a".into()),
            Token::Text("b".into()),
            Token::Text("c".into()),
            Token::Text("d".into()),
            Token::Text("e".into()),
            Token::Text("f".into()),
            Token::Text("g".into()),
            Token::Text("h".into()),
            Token::Text("i".into()),
            Token::Text("j".into()),
            Token::Text("k".into()),
        ]
    );
    // the zero width space is no whitespace
    assert_eq!(kinds("a\u{200b}b"), vec![Token::Text("a\u{200b}b".into())]);
}

#[test]
fn text_stops_at_special_characters() {
    assert_eq!(
        kinds("ab{cd}ef\\gh%ij"),
        vec![
            Token::Text("ab".into()),
            Token::LBrace,
            Token::Text("cd".into()),
            Token::RBrace,
            Token::Text("ef".into()),
            Token::Command("gh".into()),
        ]
    );
}

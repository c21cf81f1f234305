use latex_rs::ast::{Node, TextStyle};
use latex_rs::expand::{collect_plain_text, expand_macros};

#[test]
fn flattens_sequence() {
    let nested = Node::Sequence(vec![
        Node::Text("A".into()),
        Node::Sequence(vec![Node::Text("B".into()), Node::Text("C".into())]),
        Node::Text("D".into()),
    ]);
    let expected = Node::Sequence(vec![
        Node::Text("A".into()),
        Node::Text("B".into()),
        Node::Text("C".into()),
        Node::Text("D".into()),
    ]);
    assert_eq!(expand_macros(&nested), expected);
}

#[test]
fn recurses_into_macros() {
    let mac = Node::Macro {
        name: "cmd".into(),
        args: vec![Node::Sequence(vec![Node::Text("X".into())])],
    };
    let expanded = expand_macros(&mac);
    // Should flatten the inner Seq in args but keep top-level Macro
    match expanded {
        Node::Macro { name, args } => {
            assert_eq!(name, "cmd");
            assert_eq!(args, vec![Node::Text("X".into())]);
        }
        _ => panic!("Expected Macro node"),
    }
}

/// Whether no sequence or macro of `node` holds a sequence directly.
fn flat(node: &Node) -> bool {
    match node {
        Node::Text(_) | Node::StyledText(_, _) => true,
        Node::Sequence(children) => children
            .iter()
            .all(|c| !matches!(c, Node::Sequence(_)) && flat(c)),
        Node::Macro { args, .. } => args
            .iter()
            .all(|c| !matches!(c, Node::Sequence(_)) && flat(c)),
    }
}

fn sample() -> Node {
    Node::Sequence(vec![
        Node::Text("a".into()),
        Node::Sequence(vec![
            Node::Sequence(vec![Node::Text("b".into()), Node::Sequence(vec![])]),
            Node::Macro {
                name: "emph".into(),
                args: vec![Node::Sequence(vec![
                    Node::Text("c".into()),
                    Node::Sequence(vec![Node::Text("d".into())]),
                ])],
            },
        ]),
        Node::Macro {
            name: "section".into(),
            args: vec![
                Node::Sequence(vec![Node::Text("e".into()), Node::Text("f".into())]),
                Node::Text("g".into()),
            ],
        },
        Node::Macro { name: "textbf".into(), args: vec![] },
    ])
}

#[test]
fn deep_nesting_collapses_fully() {
    assert_eq!(
        expand_macros(&sample()),
        Node::Sequence(vec![
            Node::Text("a".into()),
            Node::Text("b".into()),
            Node::StyledText("c d".into(), TextStyle::Italic),
            Node::Macro {
                name: "section".into(),
                args: vec![
                    Node::Text("e".into()),
                    Node::Text("f".into()),
                    Node::Text("g".into()),
                ],
            },
            Node::Macro { name: "textbf".into(), args: vec![] },
        ])
    );
}

#[test]
fn expansion_is_flat() {
    assert!(!flat(&sample()));
    assert!(flat(&expand_macros(&sample())));
}

#[test]
fn second_expansion_changes_nothing() {
    let once = expand_macros(&sample());
    let twice = expand_macros(&once);
    assert_eq!(twice, once);
}

#[test]
fn styling_command_with_spliced_arguments_is_not_stable() {
    // two arguments, so the command stays; they splice to one
    let tree = Node::Macro {
        name: "textbf".into(),
        args: vec![Node::Sequence(vec![]), Node::Text("x".into())],
    };
    let once = expand_macros(&tree);
    assert_eq!(
        once,
        Node::Macro { name: "textbf".into(), args: vec![Node::Text("x".into())] }
    );
    assert_eq!(expand_macros(&once), Node::StyledText("x".into(), TextStyle::Bold));
}

#[test]
fn leaves_stay() {
    assert_eq!(expand_macros(&Node::Text("a  b".into())), Node::Text("a  b".into()));
    assert_eq!(
        expand_macros(&Node::StyledText("a".into(), TextStyle::Normal)),
        Node::StyledText("a".into(), TextStyle::Normal)
    );
    assert_eq!(expand_macros(&Node::Sequence(vec![])), Node::Sequence(vec![]));
}

#[test]
fn styling_commands_give_their_style() {
    let arg = || vec![Node::Text("x".into())];
    assert_eq!(
        expand_macros(&Node::Macro { name: "textbf".into(), args: arg() }),
        Node::StyledText("x".into(), TextStyle::Bold)
    );
    assert_eq!(
        expand_macros(&Node::Macro { name: "emph".into(), args: arg() }),
        Node::StyledText("x".into(), TextStyle::Italic)
    );
    // names are matched exactly
    assert_eq!(
        expand_macros(&Node::Macro { name: "Textbf".into(), args: arg() }),
        Node::Macro { name: "Textbf".into(), args: arg() }
    );
    assert_eq!(
        expand_macros(&Node::Macro { name: "textbff".into(), args: arg() }),
        Node::Macro { name: "textbff".into(), args: arg() }
    );
}

#[test]
fn styling_command_needs_exactly_one_argument() {
    assert_eq!(
        expand_macros(&Node::Macro { name: "emph".into(), args: vec![] }),
        Node::Macro { name: "emph".into(), args: vec![] }
    );
    assert_eq!(
        expand_macros(&Node::Macro {
            name: "emph".into(),
            args: vec![Node::Text("a".into()), Node::Text("b".into())],
        }),
        Node::Macro {
            name: "emph".into(),
            args: vec![Node::Text("a".into()), Node::Text("b".into())],
        }
    );
}

#[test]
fn collapsed_text_joins_leaves_with_single_spaces() {
    let tree = Node::Macro {
        name: "textbf".into(),
        args: vec![Node::Sequence(vec![
            Node::Text("a".into()),
            Node::Sequence(vec![Node::Text("b".into()), Node::Text("c".into())]),
            Node::Macro { name: "emph".into(), args: vec![Node::Text("d".into())] },
        ])],
    };
    assert_eq!(expand_macros(&tree), Node::StyledText("a b c d".into(), TextStyle::Bold));
}

#[test]
fn macro_inside_collapsed_text_gives_nothing() {
    let tree = Node::Macro {
        name: "textbf".into(),
        args: vec![Node::Sequence(vec![
            Node::Text("a".into()),
            Node::Macro { name: "cmd".into(), args: vec![Node::Text("lost".into())] },
            Node::Text("b".into()),
        ])],
    };
    assert_eq!(expand_macros(&tree), Node::StyledText("a b".into(), TextStyle::Bold));
    let tree = Node::Macro {
        name: "textbf".into(),
        args: vec![Node::Sequence(vec![
            Node::Text("A".into()),
            Node::Macro { name: "foo".into(), args: vec![] },
            Node::Text("B".into()),
        ])],
    };
    assert_eq!(expand_macros(&tree), Node::StyledText("A B".into(), TextStyle::Bold));
    let alone = Node::Macro {
        name: "emph".into(),
        args: vec![Node::Macro { name: "cmd".into(), args: vec![] }],
    };
    assert_eq!(expand_macros(&alone), Node::StyledText("".into(), TextStyle::Italic));
}

#[test]
fn macros_at_the_ends_of_collapsed_text_leave_no_space() {
    let cmd = || Node::Macro { name: "cmd".into(), args: vec![] };
    let tree = Node::Sequence(vec![cmd(), Node::Text("a".into()), cmd(), cmd()]);
    assert_eq!(collect_plain_text(&tree), "a");
    let tree = Node::Sequence(vec![cmd(), cmd()]);
    assert_eq!(collect_plain_text(&tree), "");
    let tree = Node::Sequence(vec![
        Node::Text("a".into()),
        cmd(),
        Node::StyledText("b".into(), TextStyle::Italic),
        cmd(),
        Node::Text("c".into()),
    ]);
    assert_eq!(collect_plain_text(&tree), "a b c");
}

#[test]
fn plain_text_takes_leaves_depth_first() {
    let tree = Node::Sequence(vec![
        Node::Sequence(vec![Node::Sequence(vec![]), Node::Text("a".into())]),
        Node::Sequence(vec![]),
        Node::Sequence(vec![
            Node::Text("b".into()),
            Node::Sequence(vec![Node::Text("c".into())]),
        ]),
    ]);
    assert_eq!(collect_plain_text(&tree), "a b c");
}

#[test]
fn plain_text_of_each_kind() {
    assert_eq!(collect_plain_text(&Node::Text("a b".into())), "a b");
    assert_eq!(collect_plain_text(&Node::StyledText("c".into(), TextStyle::Bold)), "c");
    assert_eq!(collect_plain_text(&Node::Sequence(vec![])), "");
    assert_eq!(
        collect_plain_text(&Node::Macro { name: "x".into(), args: vec![Node::Text("a".into())] }),
        ""
    );
    assert_eq!(
        collect_plain_text(&Node::Sequence(vec![
            Node::Text("a".into()),
            Node::Sequence(vec![Node::Text("b".into()), Node::Text("".into())]),
            Node::Text("c".into()),
        ])),
        "a b  c"
    );
}

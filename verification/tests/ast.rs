use latex_rs::ast::{Node, TextStyle};

#[test]
fn test_node_eq() {
    let a = Node::text("Hello");
    let b = Node::Text("Hello".into());
    assert_eq!(a, b);
}

#[test]
fn test_macro_node() {
    let m = Node::macro_call("test", vec![Node::text("arg")]);
    if let Node::Macro { name, args } = m {
        assert_eq!(name, "test");
        assert_eq!(args, vec![Node::Text("arg".into())]);
    } else {
        panic!("Expected Macro variant");
    }
}

#[test]
fn test_sequence() {
    let seq = Node::seq(vec![Node::text("A"), Node::text("B")]);
    assert_eq!(
        seq,
        Node::Sequence(vec![Node::Text("A".into()), Node::Text("B".into())])
    );
}

#[test]
fn nodes_of_different_kinds_differ() {
    assert_ne!(Node::text("A"), Node::StyledText("A".into(), TextStyle::Normal));
    assert_ne!(Node::seq(vec![]), Node::macro_call("A", vec![]));
    assert_ne!(
        Node::StyledText("A".into(), TextStyle::Bold),
        Node::StyledText("A".into(), TextStyle::Italic)
    );
}

#[test]
fn clone_is_deep_and_equal() {
    let tree = Node::seq(vec![
        Node::text("A"),
        Node::macro_call(
            "cmd",
            vec![Node::seq(vec![Node::StyledText("B".into(), TextStyle::Bold)])],
        ),
    ]);
    let copy = tree.clone();
    assert_eq!(copy, tree);
    let empty = Node::seq(vec![]);
    assert_eq!(empty.clone(), Node::Sequence(vec![]));
}

//! Macro expansion: nested sequences are flattened and the built-in styling
//! commands collapse their argument into a styled leaf.

use vstd::prelude::*;
use vstd::string::StringExecFns;
use crate::ast::{forest, Node, TextStyle, Tree};
use crate::seqs::{
    concat, interleave, lemma_concat_all, lemma_concat_singletons, lemma_concat_step,
};

verus! {

/// The style that a styling command gives its argument: `textbf` is bold,
/// `emph` is italic. `None` for every other name.
pub open spec fn styling(name: Seq<char>) -> Option<TextStyle> {
    if name == "textbf"@ {
        Some(TextStyle::Bold)
    } else if name == "emph"@ {
        Some(TextStyle::Italic)
    } else {
        None
    }
}

/// What a tree puts into the child list of its parent when it is spliced in:
/// a sequence gives its children, any other tree itself.
pub open spec fn parts_of(tree: Tree) -> Seq<Tree> {
    match tree {
        Tree::Sequence(children) => children,
        _ => seq![tree],
    }
}

/// `trees` with each sequence among them replaced by its children.
pub open spec fn spliced(trees: Seq<Tree>) -> Seq<Tree> {
    concat(Seq::new(trees.len(), |i: int| parts_of(trees[i])))
}

/// The leaf strings of each tree of `trees`.
pub open spec fn leaf_texts_each(trees: Seq<Tree>) -> Seq<Seq<Seq<char>>>
    decreases trees, 0int,
{
    Seq::new(
        trees.len(),
        |i: int|
            if 0 <= i < trees.len() {
                leaf_texts(trees[i])
            } else {
                arbitrary()
            },
    )
}

/// The leaf strings of a tree, depth first: a text or a styled text gives
/// its string, a sequence the leaf strings of its children in order, and a
/// macro none.
pub open spec fn leaf_texts(tree: Tree) -> Seq<Seq<char>>
    decreases tree, 1int,
{
    match tree {
        Tree::Text(text) => seq![text],
        Tree::StyledText(text, _) => seq![text],
        Tree::Sequence(children) => concat(leaf_texts_each(children)),
        Tree::Macro { .. } => seq![],
    }
}

/// The text of a tree without its structure: its leaf strings with a single
/// space between each two neighbours. A macro gives nothing to it, not even
/// a space.
pub open spec fn plain_text(tree: Tree) -> Seq<char> {
    interleave(leaf_texts(tree), seq![' '])
}

/// The expansions of `trees`, in order.
pub open spec fn expanded_each(trees: Seq<Tree>) -> Seq<Tree>
    decreases trees, 0int,
{
    Seq::new(
        trees.len(),
        |i: int|
            if 0 <= i < trees.len() {
                expanded(trees[i])
            } else {
                arbitrary()
            },
    )
}

/// The expansion of a tree. Leaves stay. A sequence holds its expanded
/// children, spliced. A styling command with exactly one argument becomes
/// the plain text of the expanded argument in that style; any other macro
/// keeps its name and holds its expanded arguments, spliced.
pub open spec fn expanded(tree: Tree) -> Tree
    decreases tree, 1int,
{
    match tree {
        Tree::Text(_) => tree,
        Tree::StyledText(_, _) => tree,
        Tree::Sequence(children) => Tree::Sequence(spliced(expanded_each(children))),
        Tree::Macro { name, args } => {
            if styling(name) is Some && args.len() == 1 {
                Tree::StyledText(plain_text(expanded(args[0])), styling(name)->0)
            } else {
                Tree::Macro { name, args: spliced(expanded_each(args)) }
            }
        },
    }
}

/// The style of a styling command, if `name` is one.
fn style_of(name: &String) -> (style: Option<TextStyle>)
    ensures
        style == styling(name@),
{
    let bold = "textbf".to_owned();
    let italic = "emph".to_owned();
    if name.eq(&bold) {
        Some(TextStyle::Bold)
    } else if name.eq(&italic) {
        Some(TextStyle::Italic)
    } else {
        None
    }
}

/// Appends the leaf strings of `nodes` to `joined`, which holds the leaf
/// strings `before`, and `first` says that there are none yet.
fn append_leaves_of_all(
    nodes: &Vec<Node>,
    joined: &mut String,
    first: bool,
    Ghost(before): Ghost<Seq<Seq<char>>>,
) -> (still_first: bool)
    requires
        old(joined)@ == interleave(before, seq![' ']),
        first <==> before.len() == 0,
    ensures
        final(joined)@ == interleave(
            before + concat(leaf_texts_each(forest(nodes@))),
            seq![' '],
        ),
        still_first <==> (before + concat(leaf_texts_each(forest(nodes@)))).len() == 0,
    decreases nodes,
{
    let ghost groups = leaf_texts_each(forest(nodes@));
    let mut none = first;
    let mut i: usize = 0;
    assert(before + concat(groups.take(0)) =~= before);
    while i < nodes.len()
        invariant
            i <= nodes.len(),
            groups == leaf_texts_each(forest(nodes@)),
            joined@ == interleave(before + concat(groups.take(i as int)), seq![' ']),
            none <==> (before + concat(groups.take(i as int))).len() == 0,
        decreases nodes.len() - i,
    {
        let ghost sofar = before + concat(groups.take(i as int));
        none = append_leaves(&nodes[i], joined, none, Ghost(sofar));
        proof {
            lemma_concat_step(groups, i as int);
            assert(sofar + groups[i as int] =~= before + concat(groups.take(i + 1)));
        }
        i += 1;
    }
    assert(groups.take(i as int) =~= groups);
    none
}

/// Appends the leaf strings of `node` to `joined`, which holds the leaf
/// strings `before`, and `first` says that there are none yet.
fn append_leaves(
    node: &Node,
    joined: &mut String,
    first: bool,
    Ghost(before): Ghost<Seq<Seq<char>>>,
) -> (still_first: bool)
    requires
        old(joined)@ == interleave(before, seq![' ']),
        first <==> before.len() == 0,
    ensures
        final(joined)@ == interleave(before + leaf_texts(node@), seq![' ']),
        still_first <==> (before + leaf_texts(node@)).len() == 0,
    decreases node,
{
    match node {
        Node::Text(text) => {
            append_leaf(text.as_str(), joined, first, Ghost(before));
            false
        },
        Node::StyledText(text, _) => {
            append_leaf(text.as_str(), joined, first, Ghost(before));
            false
        },
        Node::Sequence(children) => append_leaves_of_all(children, joined, first, Ghost(before)),
        Node::Macro { .. } => {
            assert(before + leaf_texts(node@) =~= before);
            first
        },
    }
}

/// Appends one leaf string to `joined`, behind a space unless it is the
/// first.
fn append_leaf(text: &str, joined: &mut String, first: bool, Ghost(before): Ghost<Seq<Seq<char>>>)
    requires
        old(joined)@ == interleave(before, seq![' ']),
        first <==> before.len() == 0,
    ensures
        final(joined)@ == interleave(before + seq![text@], seq![' ']),
{
    proof {
        reveal_strlit(" ");
        assert(" "@ =~= seq![' ']);
        assert((before + seq![text@]).drop_last() =~= before);
        if first {
            assert(joined@ =~= Seq::<char>::empty());
        }
    }
    if !first {
        joined.append(" ");
    }
    joined.append(text);
    assert(joined@ =~= interleave(before + seq![text@], seq![' ']));
}

/// The text of `node` without its structure: its text leaves, depth first,
/// with a single space between each two neighbours.
pub fn collect_plain_text(node: &Node) -> (text: String)
    ensures
        text@ == plain_text(node@),
{
    let mut joined = String::new();
    let ghost none = Seq::<Seq<char>>::empty();
    assert(interleave(none, seq![' ']) =~= Seq::<char>::empty());
    let _ = append_leaves(node, &mut joined, true, Ghost(none));
    assert(none + leaf_texts(node@) =~= leaf_texts(node@));
    joined
}

/// The expansions of `nodes`, spliced.
fn expand_all(nodes: &Vec<Node>) -> (out: Vec<Node>)
    ensures
        forest(out@) == spliced(expanded_each(forest(nodes@))),
    decreases nodes,
{
    let ghost done = expanded_each(forest(nodes@));
    let ghost groups = Seq::new(done.len(), |i: int| parts_of(done[i]));
    let mut out: Vec<Node> = Vec::new();
    assert(forest(out@) =~= concat(groups.take(0)));
    let mut i: usize = 0;
    while i < nodes.len()
        invariant
            i <= nodes.len(),
            done == expanded_each(forest(nodes@)),
            groups == Seq::new(done.len(), |i: int| parts_of(done[i])),
            forest(out@) == concat(groups.take(i as int)),
        decreases nodes.len() - i,
    {
        let ghost before = forest(out@);
        let node = expand_macros(&nodes[i]);
        assert(node@ == done[i as int]);
        match node {
            Node::Sequence(mut inner) => {
                let ghost added = forest(inner@);
                out.append(&mut inner);
                assert(forest(out@) =~= before + added);
            },
            other => {
                let ghost added = other@;
                out.push(other);
                assert(forest(out@) =~= before + seq![added]);
            },
        }
        proof {
            lemma_concat_step(groups, i as int);
        }
        i += 1;
    }
    assert(groups.take(i as int) =~= groups);
    out
}

/// Expands `ast`: flattens nested sequences and collapses styling commands.
/// Never fails; a command that is not a styling command stays a macro. The
/// result is flat: no sequence in it holds a sequence directly.
pub fn expand_macros(ast: &Node) -> (out: Node)
    ensures
        out@ == expanded(ast@),
        is_flat(out@),
    decreases ast,
{
    proof {
        lemma_expanded_is_flat(ast@);
    }
    match ast {
        Node::Sequence(children) => Node::Sequence(expand_all(children)),
        Node::Macro { name, args } => {
            let style = style_of(name);
            if style.is_some() && args.len() == 1 {
                let arg = expand_macros(&args[0]);
                Node::StyledText(collect_plain_text(&arg), style.unwrap())
            } else {
                Node::Macro { name: name.clone(), args: expand_all(args) }
            }
        },
        Node::Text(text) => Node::Text(text.clone()),
        Node::StyledText(text, style) => Node::StyledText(text.clone(), *style),
    }
}

/// Whether no sequence of `tree` has a sequence as a direct child, and no
/// macro of `tree` has one as a direct argument.
pub open spec fn is_flat(tree: Tree) -> bool
    decreases tree,
{
    match tree {
        Tree::Text(_) => true,
        Tree::StyledText(_, _) => true,
        Tree::Sequence(children) => forall|i: int|
            0 <= i < children.len() ==> !(#[trigger] children[i] is Sequence) && is_flat(
                children[i],
            ),
        Tree::Macro { name, args } => forall|i: int|
            0 <= i < args.len() ==> !(#[trigger] args[i] is Sequence) && is_flat(args[i]),
    }
}

/// Whether `tree` is a styling command with exactly one argument: a macro
/// that expansion collapses.
pub open spec fn is_collapsible(tree: Tree) -> bool {
    tree matches Tree::Macro { name, args } && styling(name) is Some && args.len() == 1
}

/// Whether no node of `tree` is collapsible.
pub open spec fn is_settled(tree: Tree) -> bool
    decreases tree,
{
    match tree {
        Tree::Text(_) => true,
        Tree::StyledText(_, _) => true,
        Tree::Sequence(children) => forall|i: int|
            0 <= i < children.len() ==> is_settled(#[trigger] children[i]),
        Tree::Macro { name, args } => !is_collapsible(tree) && forall|i: int|
            0 <= i < args.len() ==> is_settled(#[trigger] args[i]),
    }
}

/// Whether every styling command of `tree` has at most one argument.
pub open spec fn styling_is_unary(tree: Tree) -> bool
    decreases tree,
{
    match tree {
        Tree::Text(_) => true,
        Tree::StyledText(_, _) => true,
        Tree::Sequence(children) => forall|i: int|
            0 <= i < children.len() ==> styling_is_unary(#[trigger] children[i]),
        Tree::Macro { name, args } => (styling(name) is Some ==> args.len() <= 1) && forall|i: int|
            0 <= i < args.len() ==> styling_is_unary(#[trigger] args[i]),
    }
}

/// Splicing changes nothing where no tree is a sequence.
proof fn lemma_spliced_without_sequences(trees: Seq<Tree>)
    requires
        forall|i: int| 0 <= i < trees.len() ==> !(#[trigger] trees[i] is Sequence),
    ensures
        spliced(trees) == trees,
{
    lemma_concat_singletons(Seq::new(trees.len(), |i: int| parts_of(trees[i])), trees);
}

/// What holds of every tree that is no sequence, and of every child of
/// every tree that is one, holds of every spliced tree.
proof fn lemma_spliced_all(trees: Seq<Tree>, holds: spec_fn(Tree) -> bool)
    requires
        forall|i: int, k: int|
            0 <= i < trees.len() && 0 <= k < parts_of(trees[i]).len() ==> holds(
                #[trigger] parts_of(trees[i])[k],
            ),
    ensures
        forall|j: int| 0 <= j < spliced(trees).len() ==> holds(#[trigger] spliced(trees)[j]),
{
    let groups = Seq::new(trees.len(), |i: int| parts_of(trees[i]));
    assert forall|i: int, k: int| 0 <= i < groups.len() && 0 <= k < groups[i].len() implies holds(
        #[trigger] groups[i][k],
    ) by {
        assert(groups[i][k] == parts_of(trees[i])[k]);
    }
    lemma_concat_all(groups, holds);
}

/// Expansion keeps the kind of a node in one respect: the expansion is a
/// sequence exactly when the tree is one.
pub proof fn lemma_expanded_kind(tree: Tree)
    ensures
        expanded(tree) is Sequence <==> tree is Sequence,
{
}

/// Flattening invariant: in an expanded tree no sequence has a sequence as a
/// direct child, and no macro has one as a direct argument.
pub proof fn lemma_expanded_is_flat(tree: Tree)
    ensures
        is_flat(expanded(tree)),
    decreases tree,
{
    match tree {
        Tree::Text(_) => {},
        Tree::StyledText(_, _) => {},
        Tree::Sequence(children) => {
            lemma_expanded_each_flat(children);
        },
        Tree::Macro { name, args } => {
            if !(styling(name) is Some && args.len() == 1) {
                lemma_expanded_each_flat(args);
            }
        },
    }
}

/// The spliced expansions of `trees` hold no sequence, and each is flat.
proof fn lemma_expanded_each_flat(trees: Seq<Tree>)
    ensures
        forall|j: int|
            0 <= j < spliced(expanded_each(trees)).len() ==> !(#[trigger] spliced(
                expanded_each(trees),
            )[j] is Sequence) && is_flat(spliced(expanded_each(trees))[j]),
    decreases trees,
{
    let done = expanded_each(trees);
    let holds = |t: Tree| !(t is Sequence) && is_flat(t);
    assert forall|i: int, k: int|
        0 <= i < done.len() && 0 <= k < parts_of(done[i]).len() implies holds(
        #[trigger] parts_of(done[i])[k],
    ) by {
        lemma_expanded_is_flat(trees[i]);
    }
    lemma_spliced_all(done, holds);
}

/// A flat tree without collapsible nodes is its own expansion.
pub proof fn lemma_settled_is_fixed(tree: Tree)
    requires
        is_flat(tree),
        is_settled(tree),
    ensures
        expanded(tree) == tree,
    decreases tree,
{
    match tree {
        Tree::Text(_) => {},
        Tree::StyledText(_, _) => {},
        Tree::Sequence(children) => {
            assert forall|i: int| 0 <= i < children.len() implies expanded(children[i])
                == children[i] by {
                lemma_settled_is_fixed(children[i]);
            }
            assert(expanded_each(children) =~= children);
            lemma_spliced_without_sequences(children);
        },
        Tree::Macro { name, args } => {
            assert forall|i: int| 0 <= i < args.len() implies expanded(args[i]) == args[i] by {
                lemma_settled_is_fixed(args[i]);
            }
            assert(expanded_each(args) =~= args);
            lemma_spliced_without_sequences(args);
        },
    }
}

/// A flat tree that is its own expansion has no collapsible node.
pub proof fn lemma_fixed_is_settled(tree: Tree)
    requires
        is_flat(tree),
        expanded(tree) == tree,
    ensures
        is_settled(tree),
    decreases tree,
{
    match tree {
        Tree::Text(_) => {},
        Tree::StyledText(_, _) => {},
        Tree::Sequence(children) => {
            let done = expanded_each(children);
            assert forall|i: int| 0 <= i < done.len() implies !(#[trigger] done[i] is Sequence) by {
                lemma_expanded_kind(children[i]);
            }
            lemma_spliced_without_sequences(done);
            assert forall|i: int| 0 <= i < children.len() implies is_settled(
                #[trigger] children[i],
            ) by {
                assert(done[i] == children[i]);
                lemma_fixed_is_settled(children[i]);
            }
        },
        Tree::Macro { name, args } => {
            let done = expanded_each(args);
            assert forall|i: int| 0 <= i < done.len() implies !(#[trigger] done[i] is Sequence) by {
                lemma_expanded_kind(args[i]);
            }
            lemma_spliced_without_sequences(done);
            assert forall|i: int| 0 <= i < args.len() implies is_settled(#[trigger] args[i]) by {
                assert(done[i] == args[i]);
                lemma_fixed_is_settled(args[i]);
            }
        },
    }
}

/// Idempotence: expanding an expanded tree changes nothing, provided that
/// the first expansion left no collapsible node.
///
/// A collapsible node can be left only where a styling command had several
/// arguments that spliced to one, as in `textbf` applied to an empty
/// sequence and a text; see [`lemma_unary_styling_settles`].
pub proof fn lemma_expansion_idempotent(tree: Tree)
    requires
        is_settled(expanded(tree)),
    ensures
        expanded(expanded(tree)) == expanded(tree),
{
    lemma_expanded_is_flat(tree);
    lemma_settled_is_fixed(expanded(tree));
}

/// Where a second expansion changes nothing, the first one left no
/// collapsible node: [`lemma_expansion_idempotent`] asks for no more than it
/// needs.
pub proof fn lemma_idempotent_only_if_settled(tree: Tree)
    requires
        expanded(expanded(tree)) == expanded(tree),
    ensures
        is_settled(expanded(tree)),
{
    lemma_expanded_is_flat(tree);
    lemma_fixed_is_settled(expanded(tree));
}

/// Where every styling command has at most one argument, as in every parsed
/// tree, expansion leaves no collapsible node: no styling command with
/// exactly one argument survives.
pub proof fn lemma_unary_styling_settles(tree: Tree)
    requires
        styling_is_unary(tree),
    ensures
        is_settled(expanded(tree)),
    decreases tree,
{
    match tree {
        Tree::Text(_) => {},
        Tree::StyledText(_, _) => {},
        Tree::Sequence(children) => {
            lemma_unary_styling_settles_each(children);
            let out = spliced(expanded_each(children));
            assert forall|i: int| 0 <= i < out.len() implies is_settled(#[trigger] out[i]) by {}
        },
        Tree::Macro { name, args } => {
            if !(styling(name) is Some && args.len() == 1) {
                lemma_unary_styling_settles_each(args);
                let out = spliced(expanded_each(args));
                assert(expanded(tree) == Tree::Macro { name, args: out });
                if styling(name) is Some {
                    assert(args.len() == 0);
                    assert(out =~= Seq::<Tree>::empty());
                }
                assert forall|i: int| 0 <= i < out.len() implies is_settled(#[trigger] out[i]) by {}
            }
        },
    }
}

/// The spliced expansions of trees whose styling commands are unary hold no
/// collapsible node.
proof fn lemma_unary_styling_settles_each(trees: Seq<Tree>)
    requires
        forall|i: int| 0 <= i < trees.len() ==> styling_is_unary(#[trigger] trees[i]),
    ensures
        forall|j: int|
            0 <= j < spliced(expanded_each(trees)).len() ==> is_settled(
                #[trigger] spliced(expanded_each(trees))[j],
            ),
    decreases trees,
{
    let done = expanded_each(trees);
    let holds = |t: Tree| is_settled(t);
    assert forall|i: int, k: int|
        0 <= i < done.len() && 0 <= k < parts_of(done[i]).len() implies holds(
        #[trigger] parts_of(done[i])[k],
    ) by {
        lemma_unary_styling_settles(trees[i]);
    }
    lemma_spliced_all(done, holds);
}

} // verus!

//! The document tree and its mathematical model.

use vstd::prelude::*;

verus! {

/// Rendering style attached to a run of text.
#[derive(Clone, Copy, Debug, PartialEq, Eq, Structural)]
pub enum TextStyle {
    Normal,
    Bold,
    Italic,
}

/// A node of the document tree.
#[derive(Debug, PartialEq)]
pub enum Node {
    /// Literal text; may still contain internal whitespace.
    Text(String),
    /// Text tagged with a style. Only macro expansion produces it.
    StyledText(String, TextStyle),
    /// A command with its arguments.
    Macro { name: String, args: Vec<Node> },
    /// An ordered group: a brace group or the whole document.
    Sequence(Vec<Node>),
}

/// The mathematical model of a [`Node`]: strings are character sequences and
/// child lists are sequences of models.
pub enum Tree {
    Text(Seq<char>),
    StyledText(Seq<char>, TextStyle),
    Macro { name: Seq<char>, args: Seq<Tree> },
    Sequence(Seq<Tree>),
}

/// The models of a list of nodes, in order.
pub open spec fn forest(nodes: Seq<Node>) -> Seq<Tree>
    decreases nodes, 0int,
{
    Seq::new(
        nodes.len(),
        |i: int|
            if 0 <= i < nodes.len() {
                nodes[i]@
            } else {
                arbitrary()
            },
    )
}

impl View for Node {
    type V = Tree;

    open spec fn view(&self) -> Tree
        decreases self, 1int,
    {
        match self {
            Node::Text(s) => Tree::Text(s@),
            Node::StyledText(s, style) => Tree::StyledText(s@, *style),
            Node::Macro { name, args } => Tree::Macro { name: name@, args: forest(args@) },
            Node::Sequence(children) => Tree::Sequence(forest(children@)),
        }
    }
}

impl Clone for Node {
    /// A deep copy: the copy has the same model as the node it was made from.
    fn clone(&self) -> (copy: Node)
        ensures
            copy@ == self@,
        decreases self,
    {
        match self {
            Node::Text(s) => Node::Text(s.clone()),
            Node::StyledText(s, style) => Node::StyledText(s.clone(), *style),
            Node::Macro { name, args } => Node::Macro {
                name: name.clone(),
                args: clone_nodes(args),
            },
            Node::Sequence(children) => Node::Sequence(clone_nodes(children)),
        }
    }
}

/// Deep copies of `nodes`, in order.
fn clone_nodes(nodes: &Vec<Node>) -> (copies: Vec<Node>)
    ensures
        forest(copies@) == forest(nodes@),
    decreases nodes,
{
    let mut copies: Vec<Node> = Vec::new();
    let mut i: usize = 0;
    while i < nodes.len()
        invariant
            i <= nodes.len(),
            copies.len() == i,
            forall|k: int| 0 <= k < i ==> copies[k]@ == nodes[k]@,
        decreases nodes.len() - i,
    {
        copies.push(nodes[i].clone());
        i += 1;
    }
    assert(forest(copies@) =~= forest(nodes@));
    copies
}

impl Node {
    /// A text node holding `s`.
    pub fn text(s: &str) -> (node: Node)
        ensures
            node@ == Tree::Text(s@),
    {
        Node::Text(s.to_owned())
    }

    /// A macro node: the command `name` applied to `args`.
    pub fn macro_call(name: &str, args: Vec<Node>) -> (node: Node)
        ensures
            node@ == (Tree::Macro { name: name@, args: forest(args@) }),
    {
        Node::Macro { name: name.to_owned(), args }
    }

    /// A sequence node over `children`.
    pub fn seq(children: Vec<Node>) -> (node: Node)
        ensures
            node@ == Tree::Sequence(forest(children@)),
    {
        Node::Sequence(children)
    }
}

} // verus!

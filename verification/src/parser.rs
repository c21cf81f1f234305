//! The parser: a row of tokens becomes a tree, by recursive descent.
//!
//! ```text
//! sequence := node*                 up to a right brace or the end
//! node     := Text | group | command
//! group    := '{' sequence '}'
//! command  := Command [group]
//! ```
//!
//! Positions in errors count tokens, from zero.

use vstd::prelude::*;
use crate::ast::{forest, Node, Tree};
use crate::lexer::{lex, lexemes, spans_of, Lexeme, Span, SpannedToken, Token};
use crate::seqs::{concat, lemma_concat_front, views};

verus! {

/// Why a source could not be parsed.
#[derive(Clone, Copy, Debug, PartialEq, Eq, Structural)]
pub enum ParseError {
    /// The token at `pos` can start no node.
    UnexpectedToken { pos: usize },
    /// The group opened at `pos` is not closed before the end.
    UnclosedGroup { pos: usize },
    /// The right brace at `pos` closes no group.
    TrailingTokens { pos: usize },
}

/// The nodes of a sequence that starts at token `pos`, and the position
/// behind them: that of the right brace that ends the sequence, or the end.
///
/// A node ends behind its start ([`lemma_parse_advances`]), so the test on
/// `next` always holds; it is there to make the recursion well founded.
pub open spec fn sequence_at(tokens: Seq<Lexeme>, pos: nat) -> Result<(Seq<Tree>, nat), ParseError>
    decreases tokens.len() - pos, 2int,
{
    if pos >= tokens.len() || tokens[pos as int] is RBrace {
        Ok((seq![], pos))
    } else {
        match node_at(tokens, pos) {
            Err(error) => Err(error),
            Ok((node, next)) => if pos < next <= tokens.len() {
                match sequence_at(tokens, next) {
                    Err(error) => Err(error),
                    Ok((rest, end)) => Ok((seq![node] + rest, end)),
                }
            } else {
                Err(ParseError::UnexpectedToken { pos: pos as usize })
            },
        }
    }
}

/// The node that starts at token `pos`, and the position behind it.
pub open spec fn node_at(tokens: Seq<Lexeme>, pos: nat) -> Result<(Tree, nat), ParseError>
    decreases tokens.len() - pos, 1int,
{
    if pos >= tokens.len() {
        Err(ParseError::UnexpectedToken { pos: pos as usize })
    } else {
        match tokens[pos as int] {
            Lexeme::Text(text) => Ok((Tree::Text(text), pos + 1)),
            Lexeme::Command(name) => if pos + 1 < tokens.len() && tokens[pos + 1 as int] is LBrace {
                match group_at(tokens, pos + 1) {
                    Err(error) => Err(error),
                    Ok((arg, next)) => Ok((Tree::Macro { name, args: seq![arg] }, next)),
                }
            } else {
                Ok((Tree::Macro { name, args: seq![] }, pos + 1))
            },
            Lexeme::LBrace => group_at(tokens, pos),
            _ => Err(ParseError::UnexpectedToken { pos: pos as usize }),
        }
    }
}

/// The group whose left brace is token `pos`, and the position behind its
/// right brace. Where token `pos` is no left brace there is no group, and
/// the token is unexpected.
pub open spec fn group_at(tokens: Seq<Lexeme>, pos: nat) -> Result<(Tree, nat), ParseError>
    decreases tokens.len() - pos, 0int,
{
    if pos >= tokens.len() || !(tokens[pos as int] is LBrace) {
        Err(ParseError::UnexpectedToken { pos: pos as usize })
    } else {
        match sequence_at(tokens, pos + 1) {
            Err(error) => Err(error),
            Ok((children, end)) => if end < tokens.len() && tokens[end as int] is RBrace {
                Ok((Tree::Sequence(children), end + 1))
            } else {
                Err(ParseError::UnclosedGroup { pos: pos as usize })
            },
        }
    }
}

/// The tree of a whole row of tokens: its top-level sequence, which must
/// reach the end.
pub open spec fn tree_of(tokens: Seq<Lexeme>) -> Result<Tree, ParseError> {
    match sequence_at(tokens, 0) {
        Err(error) => Err(error),
        Ok((children, end)) => if end == tokens.len() {
            Ok(Tree::Sequence(children))
        } else {
            Err(ParseError::TrailingTokens { pos: end as usize })
        },
    }
}

/// The tokens of `spans` without their spans.
pub open spec fn lexemes_of(spans: Seq<Span>) -> Seq<Lexeme> {
    Seq::new(spans.len(), |i: int| spans[i].lexeme)
}

/// The tokens of a source text, without their spans.
pub open spec fn tokens_in(source: Seq<char>) -> Seq<Lexeme> {
    lexemes_of(lexemes(source))
}

/// The tree of a source text: that of its tokens.
pub open spec fn parsed(source: Seq<char>) -> Result<Tree, ParseError> {
    tree_of(tokens_in(source))
}

/// The model of a parse result.
pub open spec fn outcome(result: Result<Node, ParseError>) -> Result<Tree, ParseError> {
    match result {
        Ok(node) => Ok(node@),
        Err(error) => Err(error),
    }
}

/// A parsed piece ends behind its start and within the tokens.
pub proof fn lemma_parse_advances(tokens: Seq<Lexeme>, pos: nat)
    ensures
        sequence_at(tokens, pos) matches Ok((_, end)) ==> pos <= end && (pos <= tokens.len()
            ==> end <= tokens.len()),
        node_at(tokens, pos) matches Ok((_, end)) ==> pos < end <= tokens.len(),
        group_at(tokens, pos) matches Ok((_, end)) ==> pos < end <= tokens.len(),
    decreases tokens.len() - pos, 3int,
{
    if pos < tokens.len() {
        lemma_parse_advances(tokens, pos + 1);
        if let Ok((_, next)) = node_at(tokens, pos) {
            if pos < next <= tokens.len() {
                lemma_parse_advances(tokens, next);
            }
        }
    }
}

/// Parses the group whose left brace is token `pos`.
fn parse_group(tokens: &Vec<Token>, pos: usize) -> (result: Result<(Node, usize), ParseError>)
    requires
        pos < tokens.len(),
        tokens[pos as int] is LBrace,
    ensures
        match group_at(views(tokens@), pos as nat) {
            Ok((tree, end)) => result matches Ok((node, next)) && node@ == tree && next == end,
            Err(error) => result == Err::<(Node, usize), ParseError>(error),
        },
    decreases tokens.len() - pos, 0int,
{
    proof {
        lemma_parse_advances(views(tokens@), (pos + 1) as nat);
    }
    match parse_sequence(tokens, pos + 1) {
        Err(error) => Err(error),
        Ok((inner, cur)) => {
            if cur < tokens.len() && matches!(tokens[cur], Token::RBrace) {
                Ok((inner, cur + 1))
            } else {
                Err(ParseError::UnclosedGroup { pos })
            }
        },
    }
}

/// Parses the node that starts at token `pos`.
fn parse_node(tokens: &Vec<Token>, pos: usize) -> (result: Result<(Node, usize), ParseError>)
    requires
        pos < tokens.len(),
    ensures
        match node_at(views(tokens@), pos as nat) {
            Ok((tree, end)) => result matches Ok((node, next)) && node@ == tree && next == end,
            Err(error) => result == Err::<(Node, usize), ParseError>(error),
        },
    decreases tokens.len() - pos, 1int,
{
    match &tokens[pos] {
        Token::Text(text) => Ok((Node::Text(text.clone()), pos + 1)),
        Token::Command(name) => {
            if pos + 1 < tokens.len() && matches!(tokens[pos + 1], Token::LBrace) {
                match parse_group(tokens, pos + 1) {
                    Err(error) => Err(error),
                    Ok((arg, next)) => {
                        let ghost tree = arg@;
                        let args = vec![arg];
                        assert(forest(args@) =~= seq![tree]);
                        Ok((Node::Macro { name: name.clone(), args }, next))
                    },
                }
            } else {
                let args: Vec<Node> = Vec::new();
                assert(forest(args@) =~= Seq::<Tree>::empty());
                Ok((Node::Macro { name: name.clone(), args }, pos + 1))
            }
        },
        Token::LBrace => parse_group(tokens, pos),
        _ => Err(ParseError::UnexpectedToken { pos }),
    }
}

/// Parses the sequence that starts at token `pos`: nodes up to a right brace
/// or the end. The node returned is the sequence.
fn parse_sequence(tokens: &Vec<Token>, pos: usize) -> (result: Result<(Node, usize), ParseError>)
    requires
        pos <= tokens.len(),
    ensures
        match sequence_at(views(tokens@), pos as nat) {
            Ok((trees, end)) => result matches Ok((node, next)) && node@ == Tree::Sequence(trees)
                && next == end,
            Err(error) => result == Err::<(Node, usize), ParseError>(error),
        },
    decreases tokens.len() - pos, 2int,
{
    let ghost all = views(tokens@);
    let mut children: Vec<Node> = Vec::new();
    let mut cur: usize = pos;
    assert(forest(children@) =~= Seq::<Tree>::empty());
    while cur < tokens.len() && !matches!(tokens[cur], Token::RBrace)
        invariant
            pos <= cur <= tokens.len(),
            all == views(tokens@),
            match sequence_at(all, cur as nat) {
                Ok((rest, end)) => sequence_at(all, pos as nat) == Ok::<
                    (Seq<Tree>, nat),
                    ParseError,
                >((forest(children@) + rest, end)),
                Err(error) => sequence_at(all, pos as nat) == Err::<(Seq<Tree>, nat), ParseError>(
                    error,
                ),
            },
        decreases tokens.len() - cur,
    {
        proof {
            lemma_parse_advances(all, cur as nat);
        }
        match parse_node(tokens, cur) {
            Err(error) => {
                return Err(error);
            },
            Ok((node, next)) => {
                let ghost before = forest(children@);
                let ghost tree = node@;
                children.push(node);
                proof {
                    assert(forest(children@) =~= before + seq![tree]);
                    match sequence_at(all, next as nat) {
                        Ok((rest, end)) => {
                            assert(before + (seq![tree] + rest) =~= forest(children@) + rest);
                        },
                        Err(_) => {},
                    }
                }
                cur = next;
            },
        }
    }
    assert(forest(children@) + Seq::<Tree>::empty() =~= forest(children@));
    Ok((Node::Sequence(children), cur))
}

/// The tokens of `spanned` without their spans.
fn strip_spans(spanned: Vec<SpannedToken>) -> (tokens: Vec<Token>)
    ensures
        views(tokens@) == lexemes_of(spans_of(spanned@)),
{
    broadcast use vstd::std_specs::vec::axiom_spec_into_iter;

    let ghost all = lexemes_of(spans_of(spanned@));
    let mut tokens: Vec<Token> = Vec::new();
    for item in it: spanned
        invariant
            it.seq() == spanned@,
            all == lexemes_of(spans_of(spanned@)),
            views(tokens@) == all.take(it.index()),
    {
        let ghost before = views(tokens@);
        let (token, _, _) = item;
        let ghost lexeme = token@;
        tokens.push(token);
        assert(views(tokens@) =~= before.push(lexeme));
        assert(all.take(it.index() + 1) =~= all.take(it.index()).push(lexeme));
    }
    assert(all.take(all.len() as int) =~= all);
    tokens
}

/// Parses `input` into a tree whose root is the top-level sequence.
///
/// Succeeds exactly when the braces of `input` balance and it holds no
/// error token. Fails with [`ParseError::UnclosedGroup`] where a left brace
/// has no partner, with [`ParseError::TrailingTokens`] where a right brace
/// has none, and with [`ParseError::UnexpectedToken`] at an error token; the
/// first of these that the descent meets decides.
pub fn parse(input: &str) -> (result: Result<Node, ParseError>)
    ensures
        outcome(result) == parsed(input@),
        result is Ok <==> is_balanced(tokens_in(input@)) && is_clean(tokens_in(input@)),
{
    let tokens = strip_spans(lex(input));
    proof {
        lemma_parse_succeeds_iff_balanced(views(tokens@));
    }
    match parse_sequence(&tokens, 0) {
        Err(error) => Err(error),
        Ok((ast, pos)) => {
            if pos != tokens.len() {
                Err(ParseError::TrailingTokens { pos })
            } else {
                Ok(ast)
            }
        },
    }
}

/// The tokens of each tree of `trees`.
pub open spec fn tokens_of_each(trees: Seq<Tree>) -> Seq<Seq<Lexeme>>
    decreases trees, 0int,
{
    Seq::new(
        trees.len(),
        |i: int|
            if 0 <= i < trees.len() {
                tokens_of(trees[i])
            } else {
                arbitrary()
            },
    )
}

/// The tokens that spell a tree: a text is one token, a sequence its
/// children between braces, and a macro its name followed by its arguments.
pub open spec fn tokens_of(tree: Tree) -> Seq<Lexeme>
    decreases tree, 1int,
{
    match tree {
        Tree::Text(text) => seq![Lexeme::Text(text)],
        Tree::StyledText(text, _) => seq![Lexeme::Text(text)],
        Tree::Macro { name, args } => seq![Lexeme::Command(name)] + concat(tokens_of_each(args)),
        Tree::Sequence(children) => seq![Lexeme::LBrace] + concat(tokens_of_each(children))
            + seq![Lexeme::RBrace],
    }
}

/// Whether `tree` has the shape of a parsed node: it holds no styled text,
/// and every macro in it has at most one argument, which is a sequence.
pub open spec fn is_parsed_shape(tree: Tree) -> bool
    decreases tree,
{
    match tree {
        Tree::Text(_) => true,
        Tree::StyledText(_, _) => false,
        Tree::Macro { name, args } => args.len() <= 1 && forall|i: int|
            0 <= i < args.len() ==> (#[trigger] args[i]) is Sequence && is_parsed_shape(args[i]),
        Tree::Sequence(children) => forall|i: int|
            0 <= i < children.len() ==> is_parsed_shape(#[trigger] children[i]),
    }
}

/// A group spells exactly the tokens that it covers, and has the shape of a
/// parsed node.
pub proof fn lemma_group_covers(tokens: Seq<Lexeme>, pos: nat)
    requires
        pos < tokens.len(),
        tokens[pos as int] is LBrace,
    ensures
        group_at(tokens, pos) matches Ok((tree, end)) ==> {
            &&& pos < end <= tokens.len()
            &&& tokens_of(tree) == tokens.subrange(pos as int, end as int)
            &&& tree is Sequence
            &&& is_parsed_shape(tree)
        },
    decreases tokens.len() - pos, 0int,
{
    lemma_parse_advances(tokens, pos);
    lemma_parse_advances(tokens, pos + 1);
    lemma_sequence_covers(tokens, pos + 1);
    if let Ok((tree, end)) = group_at(tokens, pos) {
        assert(tokens_of(tree) =~= tokens.subrange(pos as int, end as int));
    }
}

/// A node spells exactly the tokens that it covers, and has the shape of a
/// parsed node.
pub proof fn lemma_node_covers(tokens: Seq<Lexeme>, pos: nat)
    requires
        pos < tokens.len(),
    ensures
        node_at(tokens, pos) matches Ok((tree, end)) ==> {
            &&& pos < end <= tokens.len()
            &&& tokens_of(tree) == tokens.subrange(pos as int, end as int)
            &&& is_parsed_shape(tree)
        },
    decreases tokens.len() - pos, 1int,
{
    lemma_parse_advances(tokens, pos);
    if let Ok((tree, end)) = node_at(tokens, pos) {
        match tokens[pos as int] {
            Lexeme::Text(text) => {
                assert(tokens_of(tree) =~= tokens.subrange(pos as int, end as int));
            },
            Lexeme::Command(name) => {
                let none = Seq::<Seq<Lexeme>>::empty();
                assert(concat(none) =~= Seq::<Lexeme>::empty());
                if pos + 1 < tokens.len() && tokens[pos + 1 as int] is LBrace {
                    lemma_group_covers(tokens, pos + 1);
                    let arg = group_at(tokens, pos + 1)->Ok_0.0;
                    assert(tokens_of_each(seq![arg]) =~= seq![tokens_of(arg)] + none);
                    lemma_concat_front(tokens_of(arg), none);
                    assert(tokens_of(tree) =~= tokens.subrange(pos as int, end as int));
                } else {
                    assert(tokens_of_each(Seq::<Tree>::empty()) =~= none);
                    assert(tokens_of(tree) =~= tokens.subrange(pos as int, end as int));
                }
            },
            Lexeme::LBrace => {
                lemma_group_covers(tokens, pos);
            },
            _ => {},
        }
    }
}

/// The nodes of a sequence spell exactly the tokens that they cover, and
/// each has the shape of a parsed node.
pub proof fn lemma_sequence_covers(tokens: Seq<Lexeme>, pos: nat)
    requires
        pos <= tokens.len(),
    ensures
        sequence_at(tokens, pos) matches Ok((trees, end)) ==> {
            &&& pos <= end <= tokens.len()
            &&& concat(tokens_of_each(trees)) == tokens.subrange(pos as int, end as int)
            &&& is_parsed_shape(Tree::Sequence(trees))
        },
    decreases tokens.len() - pos, 2int,
{
    lemma_parse_advances(tokens, pos);
    if let Ok((trees, end)) = sequence_at(tokens, pos) {
        if pos < tokens.len() && !(tokens[pos as int] is RBrace) {
            lemma_node_covers(tokens, pos);
            let (node, next) = node_at(tokens, pos)->Ok_0;
            lemma_sequence_covers(tokens, next);
            let (rest, _) = sequence_at(tokens, next)->Ok_0;
            assert(trees == seq![node] + rest);
            assert(tokens_of_each(trees) =~= seq![tokens_of(node)] + tokens_of_each(rest));
            lemma_concat_front(tokens_of(node), tokens_of_each(rest));
            assert(tokens.subrange(pos as int, next as int) + tokens.subrange(
                next as int,
                end as int,
            ) =~= tokens.subrange(pos as int, end as int));
            assert(is_parsed_shape(node));
            let whole = Tree::Sequence(rest);
            assert(is_parsed_shape(whole));
            assert(whole->Sequence_0 == rest);
            assert(forall|j: int| 0 <= j < rest.len() ==> is_parsed_shape(#[trigger] rest[j]));
            assert forall|i: int| 0 <= i < trees.len() implies is_parsed_shape(
                #[trigger] trees[i],
            ) by {
                if i > 0 {
                    assert(trees[i] == rest[i - 1]);
                } else {
                    assert(trees[i] == node);
                }
            }
        } else {
            assert(tokens_of_each(trees) =~= Seq::<Seq<Lexeme>>::empty());
            assert(concat(tokens_of_each(trees)) =~= tokens.subrange(pos as int, end as int));
        }
    }
}

/// No silent truncation: a parsed tree spells exactly the tokens it was
/// parsed from, brace for brace, and has the shape of a parsed node.
pub proof fn lemma_tree_spells_tokens(tokens: Seq<Lexeme>)
    ensures
        tree_of(tokens) matches Ok(tree) ==> {
            &&& tree matches Tree::Sequence(children) && concat(tokens_of_each(children))
                == tokens
            &&& is_parsed_shape(tree)
        },
{
    lemma_sequence_covers(tokens, 0);
    assert(tokens.subrange(0, tokens.len() as int) =~= tokens);
}

/// The nesting depth behind the first `count` tokens: the left braces
/// among them less the right braces.
pub open spec fn depth(tokens: Seq<Lexeme>, count: nat) -> int
    decreases count,
{
    if count == 0 {
        0
    } else {
        depth(tokens, (count - 1) as nat) + match tokens[count - 1] {
            Lexeme::LBrace => 1int,
            Lexeme::RBrace => -1int,
            _ => 0int,
        }
    }
}

/// Whether the braces of `tokens` balance: no right brace comes without a
/// left brace that is open, and no left brace stays open at the end.
pub open spec fn is_balanced(tokens: Seq<Lexeme>) -> bool {
    &&& forall|count: nat| count <= tokens.len() ==> #[trigger] depth(tokens, count) >= 0
    &&& depth(tokens, tokens.len()) == 0
}

/// Whether `tokens` hold no error token.
pub open spec fn is_clean(tokens: Seq<Lexeme>) -> bool {
    forall|i: int| 0 <= i < tokens.len() ==> !(#[trigger] tokens[i] is Error)
}

/// Whether the tokens from `from` to `to` are a balanced stretch without
/// error tokens: the depth is the same at both ends and never less between.
pub open spec fn is_level(tokens: Seq<Lexeme>, from: nat, to: nat) -> bool {
    &&& from <= to <= tokens.len()
    &&& depth(tokens, to) == depth(tokens, from)
    &&& forall|count: nat|
        from <= count <= to ==> #[trigger] depth(tokens, count) >= depth(tokens, from)
    &&& forall|i: int| from <= i < to ==> !(#[trigger] tokens[i] is Error)
}

/// Whether `error` names what is wrong with `tokens`: an error token, or a
/// left brace behind which the depth never comes back to what it was.
pub open spec fn is_fault(tokens: Seq<Lexeme>, error: ParseError) -> bool {
    match error {
        ParseError::UnexpectedToken { pos } => pos < tokens.len() && tokens[pos as int] is Error,
        ParseError::UnclosedGroup { pos } => {
            &&& pos < tokens.len()
            &&& tokens[pos as int] is LBrace
            &&& forall|count: nat|
                pos < count <= tokens.len() ==> #[trigger] depth(tokens, count) > depth(
                    tokens,
                    pos as nat,
                )
        },
        ParseError::TrailingTokens { pos } => false,
    }
}

/// What is parsed from `pos` is a level stretch of tokens, a sequence ends
/// at a right brace or at the end, and an error names a fault.
pub proof fn lemma_piece_is_level(tokens: Seq<Lexeme>, pos: nat)
    requires
        pos <= tokens.len() <= usize::MAX,
    ensures
        match sequence_at(tokens, pos) {
            Ok((_, end)) => is_level(tokens, pos, end) && (end == tokens.len()
                || tokens[end as int] is RBrace),
            Err(error) => is_fault(tokens, error),
        },
        pos < tokens.len() && !(tokens[pos as int] is RBrace) ==> match node_at(tokens, pos) {
            Ok((_, end)) => is_level(tokens, pos, end),
            Err(error) => is_fault(tokens, error),
        },
        pos < tokens.len() && tokens[pos as int] is LBrace ==> match group_at(tokens, pos) {
            Ok((_, end)) => is_level(tokens, pos, end),
            Err(error) => is_fault(tokens, error),
        },
    decreases tokens.len() - pos,
{
    lemma_parse_advances(tokens, pos);
    if pos < tokens.len() {
        let inner = (pos + 1) as nat;
        lemma_parse_advances(tokens, inner);
        lemma_piece_is_level(tokens, inner);
        assert(depth(tokens, inner) == depth(tokens, pos) + match tokens[pos as int] {
            Lexeme::LBrace => 1int,
            Lexeme::RBrace => -1int,
            _ => 0int,
        });
        if tokens[pos as int] is LBrace {
            match sequence_at(tokens, inner) {
                Ok((_, end)) => {
                    if end < tokens.len() && tokens[end as int] is RBrace {
                        let behind = (end + 1) as nat;
                        assert(depth(tokens, behind) == depth(tokens, end) - 1);
                        assert(is_level(tokens, pos, behind));
                    } else {
                        assert(end == tokens.len());
                        assert(is_fault(tokens, ParseError::UnclosedGroup { pos: pos as usize }));
                    }
                },
                Err(_) => {},
            }
        }
        if !(tokens[pos as int] is RBrace) {
            match tokens[pos as int] {
                Lexeme::Command(_) => {
                    if inner < tokens.len() && tokens[inner as int] is LBrace {
                        if let Ok((_, end)) = group_at(tokens, inner) {
                            assert(is_level(tokens, pos, end));
                        }
                    } else {
                        assert(is_level(tokens, pos, inner));
                    }
                },
                Lexeme::Text(_) => {
                    assert(is_level(tokens, pos, inner));
                },
                _ => {},
            }
            if let Ok((_, next)) = node_at(tokens, pos) {
                lemma_piece_is_level(tokens, next);
                if let Ok((_, end)) = sequence_at(tokens, next) {
                    assert(is_level(tokens, pos, end));
                }
            }
        } else {
            assert(is_level(tokens, pos, pos));
        }
    } else {
        assert(is_level(tokens, pos, pos));
    }
}

/// Where parsing fails, the error names the token that is to blame: an
/// unexpected token is an error token, an unclosed group starts with a left
/// brace behind which the depth never comes back, and trailing tokens start
/// with a right brace at depth zero, which closes nothing.
pub proof fn lemma_error_positions(tokens: Seq<Lexeme>)
    requires
        tokens.len() <= usize::MAX,
    ensures
        match tree_of(tokens) {
            Ok(_) => true,
            Err(ParseError::TrailingTokens { pos }) => {
                &&& pos < tokens.len()
                &&& tokens[pos as int] is RBrace
                &&& depth(tokens, pos as nat) == 0
            },
            Err(error) => is_fault(tokens, error),
        },
{
    lemma_piece_is_level(tokens, 0);
}

/// Parsing succeeds exactly when the braces balance and there is no error
/// token.
pub proof fn lemma_parse_succeeds_iff_balanced(tokens: Seq<Lexeme>)
    requires
        tokens.len() <= usize::MAX,
    ensures
        tree_of(tokens) is Ok <==> is_balanced(tokens) && is_clean(tokens),
{
    lemma_piece_is_level(tokens, 0);
    match sequence_at(tokens, 0) {
        Ok((_, end)) => {
            if end == tokens.len() {
                assert(is_balanced(tokens));
                assert(is_clean(tokens));
            } else {
                let behind = (end + 1) as nat;
                assert(depth(tokens, behind) == depth(tokens, end) - 1);
                assert(!is_balanced(tokens));
            }
        },
        Err(ParseError::UnexpectedToken { pos }) => {
            assert(!is_clean(tokens));
        },
        Err(ParseError::UnclosedGroup { pos }) => {
            if is_balanced(tokens) {
                assert(depth(tokens, pos as nat) >= 0);
                assert(depth(tokens, tokens.len()) > depth(tokens, pos as nat));
            }
        },
        Err(ParseError::TrailingTokens { pos }) => {},
    }
}

} // verus!

//! A small typesetting front end: lexing, parsing and macro expansion of a
//! LaTeX-like markup, followed by a box-based line and page breaker.
//!
//! The stages run in a row: [`lexer::lex`] turns source text into tokens,
//! [`parser::parse`] turns them into a tree, [`expand::expand_macros`]
//! rewrites the tree, and [`layout::layout`] turns it into pages.
//! [`compile_to_layout`] runs all of them, and [`compile_with_budget`] does
//! so for pages of a room that the caller chooses.
//!
//! Every stage is a pure function, and its contract says what it returns
//! over a model of its data: a string is the sequence of its characters, a
//! [`Node`] is a [`ast::Tree`], a token a [`lexer::Lexeme`], and boxes,
//! lines and pages are their views. Beside each stage stand the laws that
//! hold of it, as proof functions.
//!
//! Lengths are whole numbers of a unit that the caller chooses. Offsets into
//! a source count bytes of its UTF-8 encoding, and so does the length of a
//! word when its width is measured.

use vstd::prelude::*;

pub mod ast;
pub mod expand;
pub mod layout;
pub mod lexer;
pub mod parser;
pub mod seqs;
pub mod text;

pub use ast::Node;
use ast::Tree;
use expand::{
    expand_macros, expanded, is_flat, is_settled, lemma_expanded_is_flat,
    lemma_expansion_idempotent, lemma_unary_styling_settles, styling_is_unary,
};
use layout::{layout_with_budget, layout_within, Page, PageView, PAGE_BUDGET};
use parser::{
    is_balanced, is_clean, is_parsed_shape, lemma_tree_spells_tokens, parse, parsed, tokens_in,
    ParseError,
};
use seqs::views;

verus! {

/// The pages of a source text on pages with room `budget`: those of its
/// expanded tree, or the error that parsing it gives.
pub open spec fn compiled_within(
    source: Seq<char>,
    line_width: nat,
    line_height: nat,
    char_width: nat,
    space_width: nat,
    budget: nat,
) -> Result<Seq<PageView>, ParseError> {
    match parsed(source) {
        Ok(tree) => Ok(
            layout_within(
                expanded(tree),
                line_width,
                line_height,
                char_width,
                space_width,
                budget,
            ),
        ),
        Err(error) => Err(error),
    }
}

/// The pages of a source text on pages of [`PAGE_BUDGET`].
pub open spec fn compiled(
    source: Seq<char>,
    line_width: nat,
    line_height: nat,
    char_width: nat,
    space_width: nat,
) -> Result<Seq<PageView>, ParseError> {
    compiled_within(source, line_width, line_height, char_width, space_width, PAGE_BUDGET as nat)
}

/// Compiles `source` into pages with room `budget`: lexes, parses, expands
/// and lays out. Fails exactly when parsing fails, with the parser's error:
/// when the braces of `source` do not balance or it holds an error token.
pub fn compile_with_budget(
    source: &str,
    line_width: u64,
    line_height: u64,
    char_width: u64,
    space_width: u64,
    budget: u64,
) -> (result: Result<Vec<Page>, ParseError>)
    ensures
        match compiled_within(
            source@,
            line_width as nat,
            line_height as nat,
            char_width as nat,
            space_width as nat,
            budget as nat,
        ) {
            Ok(pages) => result matches Ok(out) && views(out@) == pages,
            Err(error) => result == Err::<Vec<Page>, ParseError>(error),
        },
        result is Ok <==> is_balanced(tokens_in(source@)) && is_clean(tokens_in(source@)),
{
    match parse(source) {
        Err(error) => Err(error),
        Ok(ast) => {
            let tree = expand_macros(&ast);
            Ok(
                layout_with_budget(
                    &tree,
                    line_width,
                    line_height,
                    char_width,
                    space_width,
                    budget,
                ),
            )
        },
    }
}

/// Compiles `source` into pages with room [`PAGE_BUDGET`], in the unit of
/// `line_height`: [`compile_with_budget`] with that budget.
pub fn compile_to_layout(
    source: &str,
    line_width: u64,
    line_height: u64,
    char_width: u64,
    space_width: u64,
) -> (result: Result<Vec<Page>, ParseError>)
    ensures
        match compiled(
            source@,
            line_width as nat,
            line_height as nat,
            char_width as nat,
            space_width as nat,
        ) {
            Ok(pages) => result matches Ok(out) && views(out@) == pages,
            Err(error) => result == Err::<Vec<Page>, ParseError>(error),
        },
        result is Ok <==> is_balanced(tokens_in(source@)) && is_clean(tokens_in(source@)),
{
    compile_with_budget(source, line_width, line_height, char_width, space_width, PAGE_BUDGET)
}

/// In a tree of the shape of a parsed node every styling command has at
/// most one argument.
pub proof fn lemma_parsed_shape_is_unary(tree: Tree)
    requires
        is_parsed_shape(tree),
    ensures
        styling_is_unary(tree),
    decreases tree,
{
    match tree {
        Tree::Text(_) => {},
        Tree::StyledText(_, _) => {},
        Tree::Macro { name, args } => {
            assert forall|i: int| 0 <= i < args.len() implies styling_is_unary(
                #[trigger] args[i],
            ) by {
                lemma_parsed_shape_is_unary(args[i]);
            }
        },
        Tree::Sequence(children) => {
            assert forall|i: int| 0 <= i < children.len() implies styling_is_unary(
                #[trigger] children[i],
            ) by {
                lemma_parsed_shape_is_unary(children[i]);
            }
        },
    }
}

/// The expansion of every parsed tree is stable: it is flat, no styling
/// command with one argument is left in it, and expanding it again changes
/// nothing.
pub proof fn lemma_parsed_expansion_is_stable(source: Seq<char>)
    ensures
        parsed(source) matches Ok(tree) ==> {
            &&& is_flat(expanded(tree))
            &&& is_settled(expanded(tree))
            &&& expanded(expanded(tree)) == expanded(tree)
        },
{
    if let Ok(tree) = parsed(source) {
        lemma_tree_spells_tokens(tokens_in(source));
        lemma_parsed_shape_is_unary(tree);
        lemma_expanded_is_flat(tree);
        lemma_unary_styling_settles(tree);
        lemma_expansion_idempotent(tree);
    }
}

} // verus!

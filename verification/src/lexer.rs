//! The lexer: source text becomes a row of tokens with their byte spans.
//!
//! Comments run from `%`, or from `//` at the start of a token, to the end
//! of the line and give no token; whitespace gives none either. A backslash
//! with letters behind it is a command, a brace is a brace, and any other
//! run of characters that are neither whitespace nor special is text. A
//! backslash that starts no command is an error token, and lexing goes on.

use vstd::prelude::*;
use crate::text::{
    byte_len, byte_length, byte_offset, chars_of, class_contains, in_class, is_space,
    lemma_byte_len_single, lemma_byte_offset_monotone, lemma_byte_offset_step,
    lemma_encode_concat, lemma_run_end, run_end, scan_run, slice_between, CharClass,
};

verus! {

/// A token of the markup.
#[derive(Debug, PartialEq)]
pub enum Token {
    /// Left brace `{`.
    LBrace,
    /// Right brace `}`.
    RBrace,
    /// A command, without its backslash.
    Command(String),
    /// A run of text.
    Text(String),
    /// A character that starts no token.
    Error,
}

/// A token with the byte offsets of its start and end in the source.
pub type SpannedToken = (Token, usize, usize);

/// Model of a [`Token`].
pub enum Lexeme {
    LBrace,
    RBrace,
    Command(Seq<char>),
    Text(Seq<char>),
    Error,
}

/// Model of a [`SpannedToken`].
pub struct Span {
    pub lexeme: Lexeme,
    pub start: nat,
    pub end: nat,
}

impl View for Token {
    type V = Lexeme;

    open spec fn view(&self) -> Lexeme {
        match self {
            Token::LBrace => Lexeme::LBrace,
            Token::RBrace => Lexeme::RBrace,
            Token::Command(name) => Lexeme::Command(name@),
            Token::Text(text) => Lexeme::Text(text@),
            Token::Error => Lexeme::Error,
        }
    }
}

/// The models of `tokens`, in order.
pub open spec fn spans_of(tokens: Seq<SpannedToken>) -> Seq<Span> {
    Seq::new(
        tokens.len(),
        |i: int| Span { lexeme: tokens[i].0@, start: tokens[i].1 as nat, end: tokens[i].2 as nat },
    )
}

/// Whether a comment starts at character `i` of `s`: a `%`, or two slashes.
pub open spec fn comment_at(s: Seq<char>, i: int) -> bool {
    s[i] == '%' || (s[i] == '/' && i + 1 < s.len() && s[i + 1] == '/')
}

/// What the lexer finds at character `i` of `s`, and the character at which
/// it goes on. Nothing is found in a comment or in whitespace.
pub open spec fn scan(s: Seq<char>, i: int) -> (Option<Lexeme>, int) {
    let c = s[i];
    if comment_at(s, i) {
        (None, run_end(s, CharClass::Comment, i))
    } else if is_space(c) {
        (None, run_end(s, CharClass::Space, i))
    } else if c == '{' {
        (Some(Lexeme::LBrace), i + 1)
    } else if c == '}' {
        (Some(Lexeme::RBrace), i + 1)
    } else if c == '\\' {
        let end = run_end(s, CharClass::Letter, i + 1);
        if end > i + 1 {
            (Some(Lexeme::Command(s.subrange(i + 1, end))), end)
        } else {
            (Some(Lexeme::Error), i + 1)
        }
    } else {
        let end = run_end(s, CharClass::Text, i);
        (Some(Lexeme::Text(s.subrange(i, end))), end)
    }
}

/// The tokens of `s` from character `i` on, with their byte spans.
pub open spec fn lexemes_from(s: Seq<char>, i: int) -> Seq<Span>
    decreases s.len() - i,
{
    let (found, next) = scan(s, i);
    if 0 <= i < next <= s.len() {
        match found {
            Some(lexeme) => seq![
                Span { lexeme, start: byte_offset(s, i), end: byte_offset(s, next) },
            ] + lexemes_from(s, next),
            None => lexemes_from(s, next),
        }
    } else {
        seq![]
    }
}

/// The tokens of `s`, with their byte spans.
pub open spec fn lexemes(s: Seq<char>) -> Seq<Span> {
    lexemes_from(s, 0)
}

/// Every step of the lexer moves forward and stays within the source.
pub proof fn lemma_scan_advances(s: Seq<char>, i: int)
    requires
        0 <= i < s.len(),
    ensures
        i < scan(s, i).1 <= s.len(),
{
    lemma_run_end(s, CharClass::Comment, i + 1);
    lemma_run_end(s, CharClass::Space, i + 1);
    lemma_run_end(s, CharClass::Letter, i + 1);
    lemma_run_end(s, CharClass::Text, i + 1);
    if comment_at(s, i) && i + 1 < s.len() && s[i + 1] == '/' {
        lemma_run_end(s, CharClass::Comment, i + 2);
    }
}

/// Splits `input` into its tokens. Never fails: a character that starts no
/// token gives an [`Token::Error`] token.
pub fn lex(input: &str) -> (tokens: Vec<SpannedToken>)
    ensures
        spans_of(tokens@) == lexemes(input@),
{
    let chars = chars_of(input);
    let total = byte_length(input);
    let mut tokens: Vec<SpannedToken> = Vec::new();
    let mut i: usize = 0;
    let mut at: usize = 0;
    proof {
        lemma_byte_offset_monotone(input@, 0, 0);
        assert(spans_of(tokens@) + lexemes_from(input@, 0) =~= lexemes(input@));
    }
    while i < chars.len()
        invariant
            chars@ == input@,
            total == byte_len(input@),
            i <= chars.len(),
            at == byte_offset(input@, i as int),
            spans_of(tokens@) + lexemes_from(input@, i as int) == lexemes(input@),
        decreases chars.len() - i,
    {
        let c = chars[i];
        let ghost before = spans_of(tokens@);
        proof {
            lemma_scan_advances(input@, i as int);
            lemma_byte_offset_step(input@, i as int);
            lemma_byte_offset_monotone(input@, 0, i + 1);
        }
        if c == '%' || (c == '/' && i + 1 < chars.len() && chars[i + 1] == '/') {
            let (next, next_at) = scan_run(&chars, CharClass::Comment, i, at);
            i = next;
            at = next_at;
        } else if c == '{' {
            tokens.push((Token::LBrace, at, at + 1));
            proof {
                assert(spans_of(tokens@) =~= before + seq![
                    Span { lexeme: Lexeme::LBrace, start: at as nat, end: (at + 1) as nat },
                ]);
            }
            i = i + 1;
            at = at + 1;
        } else if c == '}' {
            tokens.push((Token::RBrace, at, at + 1));
            proof {
                assert(spans_of(tokens@) =~= before + seq![
                    Span { lexeme: Lexeme::RBrace, start: at as nat, end: (at + 1) as nat },
                ]);
            }
            i = i + 1;
            at = at + 1;
        } else if c == '\\' {
            let (end, end_at) = scan_run(&chars, CharClass::Letter, i + 1, at + 1);
            if end > i + 1 {
                let name = slice_between(
                    input,
                    Ghost(i + 1),
                    Ghost(end as int),
                    at + 1,
                    end_at,
                ).to_owned();
                let ghost lexeme = Lexeme::Command(name@);
                tokens.push((Token::Command(name), at, end_at));
                proof {
                    assert(spans_of(tokens@) =~= before + seq![
                        Span { lexeme, start: at as nat, end: end_at as nat },
                    ]);
                }
                i = end;
                at = end_at;
            } else {
                tokens.push((Token::Error, at, at + 1));
                proof {
                    assert(spans_of(tokens@) =~= before + seq![
                        Span { lexeme: Lexeme::Error, start: at as nat, end: (at + 1) as nat },
                    ]);
                }
                i = i + 1;
                at = at + 1;
            }
        } else if class_contains(CharClass::Space, c) {
            let (next, next_at) = scan_run(&chars, CharClass::Space, i, at);
            i = next;
            at = next_at;
        } else {
            let (end, end_at) = scan_run(&chars, CharClass::Text, i, at);
            let text = slice_between(input, Ghost(i as int), Ghost(end as int), at, end_at)
                .to_owned();
            let ghost lexeme = Lexeme::Text(text@);
            tokens.push((Token::Text(text), at, end_at));
            proof {
                assert(spans_of(tokens@) =~= before + seq![
                    Span { lexeme, start: at as nat, end: end_at as nat },
                ]);
            }
            i = end;
            at = end_at;
        }
    }
    assert(lexemes_from(input@, i as int) =~= Seq::<Span>::empty());
    assert(spans_of(tokens@) + lexemes_from(input@, i as int) =~= spans_of(tokens@));
    tokens
}

/// Whether `span` is well formed: it is not empty; a command name is a
/// run of letters, so it holds no backslash, and its span is one byte
/// longer than the name; a text holds no whitespace, brace, backslash or
/// `%` and is as long as its span; every other token is one byte long.
pub open spec fn is_well_formed(span: Span) -> bool {
    &&& span.start < span.end
    &&& match span.lexeme {
        Lexeme::Command(name) => {
            &&& name.len() > 0
            &&& forall|k: int|
                0 <= k < name.len() ==> in_class(CharClass::Letter, #[trigger] name[k])
            &&& span.end - span.start == 1 + byte_len(name)
        },
        Lexeme::Text(text) => {
            &&& text.len() > 0
            &&& forall|k: int|
                0 <= k < text.len() ==> in_class(CharClass::Text, #[trigger] text[k])
            &&& span.end - span.start == byte_len(text)
        },
        _ => span.end == span.start + 1,
    }
}

/// The token that the lexer finds at character `i`, if it finds one, is
/// well formed.
pub proof fn lemma_scan_well_formed(s: Seq<char>, i: int)
    requires
        0 <= i < s.len(),
    ensures
        scan(s, i).0 matches Some(lexeme) ==> is_well_formed(
            Span { lexeme, start: byte_offset(s, i), end: byte_offset(s, scan(s, i).1) },
        ),
{
    let (found, next) = scan(s, i);
    lemma_scan_advances(s, i);
    lemma_byte_offset_monotone(s, i, next);
    lemma_byte_offset_step(s, i);
    if let Some(lexeme) = found {
        match lexeme {
            Lexeme::Command(name) => {
                lemma_run_end(s, CharClass::Letter, i + 1);
                assert(s.subrange(i, next) =~= seq![s[i]] + name);
                lemma_encode_concat(seq![s[i]], name);
                lemma_byte_len_single(s[i]);
            },
            Lexeme::Text(text) => {
                lemma_run_end(s, CharClass::Text, i);
            },
            _ => {},
        }
    }
}

/// Token invariants: every token of a source is well formed and lies
/// within the source, behind the character that lexing started from.
pub proof fn lemma_lexemes_well_formed(s: Seq<char>, i: int, k: int)
    requires
        0 <= i <= s.len(),
        0 <= k < lexemes_from(s, i).len(),
    ensures
        is_well_formed(lexemes_from(s, i)[k]),
        byte_offset(s, i) <= lexemes_from(s, i)[k].start,
        lexemes_from(s, i)[k].end <= byte_len(s),
    decreases s.len() - i,
{
    let (found, next) = scan(s, i);
    lemma_scan_advances(s, i);
    lemma_scan_well_formed(s, i);
    lemma_byte_offset_monotone(s, i, next);
    if found is Some && k == 0 {
    } else if found is Some {
        lemma_lexemes_well_formed(s, next, k - 1);
    } else {
        lemma_lexemes_well_formed(s, next, k);
    }
}

/// Tokens come in source order and do not overlap: each ends before the
/// next one starts.
pub proof fn lemma_lexemes_ordered(s: Seq<char>, i: int, k: int)
    requires
        0 <= i <= s.len(),
        0 <= k,
        k + 1 < lexemes_from(s, i).len(),
    ensures
        lexemes_from(s, i)[k].end <= lexemes_from(s, i)[k + 1].start,
    decreases s.len() - i,
{
    let (found, next) = scan(s, i);
    lemma_scan_advances(s, i);
    if found is Some && k == 0 {
        lemma_lexemes_well_formed(s, next, 0);
    } else if found is Some {
        lemma_lexemes_ordered(s, next, k - 1);
    } else {
        lemma_lexemes_ordered(s, next, k);
    }
}

} // verus!

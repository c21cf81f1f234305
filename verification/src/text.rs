//! Character classes, runs of characters, and UTF-8 byte offsets.
//!
//! Strings are modelled as sequences of `char`. Spans and widths are counted
//! in bytes of the UTF-8 encoding, so this module relates character indices
//! to byte offsets and cuts string slices at such offsets.

use vstd::prelude::*;
use vstd::utf8::*;
use crate::seqs::views;

verus! {

/// Whether `c` is Unicode whitespace (the `White_Space` property).
pub open spec fn is_space(c: char) -> bool {
    let u = c as u32;
    ||| 0x09 <= u <= 0x0D
    ||| u == 0x20
    ||| u == 0x85
    ||| u == 0xA0
    ||| u == 0x1680
    ||| 0x2000 <= u <= 0x200A
    ||| u == 0x2028
    ||| u == 0x2029
    ||| u == 0x202F
    ||| u == 0x205F
    ||| u == 0x3000
}

/// Whether `c` is an ASCII letter.
pub open spec fn is_letter(c: char) -> bool {
    let u = c as u32;
    0x41 <= u <= 0x5A || 0x61 <= u <= 0x7A
}

/// Whether `c` has a meaning of its own in the markup: the escape marker,
/// a brace, or the comment marker.
pub open spec fn is_special(c: char) -> bool {
    c == '\\' || c == '{' || c == '}' || c == '%'
}

/// The classes of characters that make up a run.
#[derive(Clone, Copy, Debug, PartialEq, Eq, Structural)]
pub enum CharClass {
    /// ASCII letters: the characters of a command name.
    Letter,
    /// Characters of a text token: neither whitespace nor special.
    Text,
    /// Whitespace.
    Space,
    /// Characters of a word: anything but whitespace.
    Word,
    /// Characters of a comment: anything but a line feed.
    Comment,
}

/// Whether `c` belongs to `class`.
pub open spec fn in_class(class: CharClass, c: char) -> bool {
    match class {
        CharClass::Letter => is_letter(c),
        CharClass::Text => !is_space(c) && !is_special(c),
        CharClass::Space => is_space(c),
        CharClass::Word => !is_space(c),
        CharClass::Comment => c != '\n',
    }
}

/// The end of the maximal run of `class` characters that starts at `i`:
/// the first index from `i` on that is past the end of `s` or holds a
/// character outside `class`.
pub open spec fn run_end(s: Seq<char>, class: CharClass, i: int) -> int
    decreases s.len() - i,
{
    if 0 <= i < s.len() && in_class(class, s[i]) {
        run_end(s, class, i + 1)
    } else {
        i
    }
}

/// The words of `s` from character `i` on: the maximal runs of characters
/// other than whitespace, in order.
pub open spec fn words_from(s: Seq<char>, i: int) -> Seq<Seq<char>>
    decreases s.len() - i,
{
    let start = run_end(s, CharClass::Space, i);
    let end = run_end(s, CharClass::Word, start);
    if 0 <= i <= start < end <= s.len() {
        seq![s.subrange(start, end)] + words_from(s, end)
    } else {
        seq![]
    }
}

/// The words of `s`: what is left when `s` is split at whitespace.
pub open spec fn words(s: Seq<char>) -> Seq<Seq<char>> {
    words_from(s, 0)
}

/// The number of bytes that encode `c` in UTF-8.
pub open spec fn utf8_width(c: char) -> nat {
    let u = c as u32;
    if u < 0x80 {
        1
    } else if u < 0x800 {
        2
    } else if u < 0x10000 {
        3
    } else {
        4
    }
}

/// The number of bytes that encode `s` in UTF-8.
pub open spec fn byte_len(s: Seq<char>) -> nat {
    encode_utf8(s).len()
}

/// The byte offset at which character `i` of `s` starts in the UTF-8
/// encoding of `s`.
pub open spec fn byte_offset(s: Seq<char>, i: int) -> nat {
    byte_len(s.take(i))
}

/// A run ends at or after its start and within the string; every character
/// in it belongs to the class, and the character after it, if any, does not.
pub proof fn lemma_run_end(s: Seq<char>, class: CharClass, i: int)
    requires
        0 <= i <= s.len(),
    ensures
        i <= run_end(s, class, i) <= s.len(),
        forall|k: int| i <= k < run_end(s, class, i) ==> in_class(class, #[trigger] s[k]),
        run_end(s, class, i) < s.len() ==> !in_class(class, s[run_end(s, class, i)]),
    decreases s.len() - i,
{
    if i < s.len() && in_class(class, s[i]) {
        lemma_run_end(s, class, i + 1);
    }
}

/// Every word holds at least one character and no whitespace.
pub proof fn lemma_words_well_formed(s: Seq<char>, i: int, k: int)
    requires
        0 <= i <= s.len(),
        0 <= k < words_from(s, i).len(),
    ensures
        words_from(s, i)[k].len() > 0,
        forall|m: int|
            0 <= m < words_from(s, i)[k].len() ==> !is_space(#[trigger] words_from(s, i)[k][m]),
    decreases s.len() - i,
{
    let start = run_end(s, CharClass::Space, i);
    let end = run_end(s, CharClass::Word, start);
    lemma_run_end(s, CharClass::Space, i);
    lemma_run_end(s, CharClass::Word, start);
    if k > 0 {
        lemma_words_well_formed(s, end, k - 1);
    }
}

/// The encoding of a concatenation is the concatenation of the encodings.
pub proof fn lemma_encode_concat(a: Seq<char>, b: Seq<char>)
    ensures
        encode_utf8(a + b) == encode_utf8(a) + encode_utf8(b),
    decreases a.len(),
{
    if a.len() == 0 {
        assert(a + b =~= b);
        assert(encode_utf8(a) + encode_utf8(b) =~= encode_utf8(b));
    } else {
        lemma_encode_concat(a.drop_first(), b);
        assert((a + b).drop_first() =~= a.drop_first() + b);
        assert(encode_utf8(a + b) =~= encode_utf8(a) + encode_utf8(b));
    }
}

/// One character is encoded in as many bytes as its width says.
pub proof fn lemma_byte_len_single(c: char)
    ensures
        byte_len(seq![c]) == utf8_width(c),
{
    let s = seq![c];
    assert(s.drop_first() =~= Seq::<char>::empty());
    assert(encode_utf8(s.drop_first()) =~= Seq::<u8>::empty());
    assert(encode_utf8(s) =~= encode_scalar(c as u32));
}

/// Byte offsets grow by the width of each character, start at zero, and
/// stay within the encoded length.
pub proof fn lemma_byte_offset_step(s: Seq<char>, i: int)
    requires
        0 <= i < s.len(),
    ensures
        byte_offset(s, i + 1) == byte_offset(s, i) + utf8_width(s[i]),
{
    assert(s.take(i + 1) =~= s.take(i) + seq![s[i]]);
    lemma_encode_concat(s.take(i), seq![s[i]]);
    lemma_byte_len_single(s[i]);
}

/// Byte offsets do not decrease along the string, and the offset of the end
/// is the encoded length.
pub proof fn lemma_byte_offset_monotone(s: Seq<char>, i: int, j: int)
    requires
        0 <= i <= j <= s.len(),
    ensures
        byte_offset(s, 0) == 0,
        byte_offset(s, i) <= byte_offset(s, j),
        byte_offset(s, j) <= byte_len(s),
        byte_offset(s, s.len() as int) == byte_len(s),
        byte_offset(s, j) == byte_offset(s, i) + byte_len(s.subrange(i, j)),
{
    assert(s.take(0) =~= Seq::<char>::empty());
    assert(s.take(s.len() as int) =~= s);
    assert(s.take(j) =~= s.take(i) + s.subrange(i, j));
    lemma_encode_concat(s.take(i), s.subrange(i, j));
    assert(s =~= s.take(j) + s.skip(j));
    lemma_encode_concat(s.take(j), s.skip(j));
}

/// The offset of a character index is a character boundary of the encoding,
/// and the encoding splits there into the encodings of the two parts.
pub proof fn lemma_split_encoding(s: Seq<char>, i: int)
    requires
        0 <= i <= s.len(),
    ensures
        is_char_boundary(encode_utf8(s), byte_offset(s, i) as int),
        byte_offset(s, i) <= encode_utf8(s).len(),
        encode_utf8(s).subrange(0, byte_offset(s, i) as int) == encode_utf8(s.take(i)),
        encode_utf8(s).subrange(byte_offset(s, i) as int, encode_utf8(s).len() as int)
            == encode_utf8(s.skip(i)),
    decreases i,
{
    let bytes = encode_utf8(s);
    encode_utf8_valid_utf8(s);
    assert(s =~= s.take(i) + s.skip(i));
    lemma_encode_concat(s.take(i), s.skip(i));
    assert(bytes.subrange(0, byte_offset(s, i) as int) =~= encode_utf8(s.take(i)));
    assert(bytes.subrange(byte_offset(s, i) as int, bytes.len() as int) =~= encode_utf8(
        s.skip(i),
    ));
    if i == 0 {
        assert(s.take(0) =~= Seq::<char>::empty());
    } else {
        let rest = s.drop_first();
        lemma_split_encoding(rest, i - 1);
        encode_utf8_first_scalar(s);
        assert(pop_first_scalar(bytes) =~= encode_utf8(rest));
        assert(s.take(i) =~= seq![s[0]] + rest.take(i - 1));
        lemma_encode_concat(seq![s[0]], rest.take(i - 1));
        lemma_byte_len_single(s[0]);
        assert(byte_offset(s, i) == utf8_width(s[0]) + byte_offset(rest, i - 1));
        assert(length_of_first_scalar(bytes) == utf8_width(s[0]));
    }
}

/// Two strings with the same encoding are the same string.
pub proof fn lemma_encode_injective(a: Seq<char>, b: Seq<char>)
    requires
        encode_utf8(a) == encode_utf8(b),
    ensures
        a == b,
{
    encode_utf8_decode_utf8(a);
    encode_utf8_decode_utf8(b);
}

/// Tests whether `c` belongs to `class`.
pub fn class_contains(class: CharClass, c: char) -> (b: bool)
    ensures
        b == in_class(class, c),
{
    let u: u32 = c as u32;
    let space = (0x09 <= u && u <= 0x0D) || u == 0x20 || u == 0x85 || u == 0xA0 || u == 0x1680 || (
    0x2000 <= u && u <= 0x200A) || u == 0x2028 || u == 0x2029 || u == 0x202F || u == 0x205F || u
        == 0x3000;
    match class {
        CharClass::Letter => (0x41 <= u && u <= 0x5A) || (0x61 <= u && u <= 0x7A),
        CharClass::Text => !space && !(c == '\\' || c == '{' || c == '}' || c == '%'),
        CharClass::Space => space,
        CharClass::Word => !space,
        CharClass::Comment => c != '\n',
    }
}

/// The number of bytes that encode `c` in UTF-8.
pub fn char_width(c: char) -> (n: usize)
    ensures
        n == utf8_width(c),
{
    let u: u32 = c as u32;
    if u < 0x80 {
        1
    } else if u < 0x800 {
        2
    } else if u < 0x10000 {
        3
    } else {
        4
    }
}

/// The characters of `s`, in order.
pub fn chars_of(s: &str) -> (chars: Vec<char>)
    ensures
        chars@ == s@,
{
    broadcast use vstd::string::axiom_spec_iter;

    let mut chars: Vec<char> = Vec::new();
    for c in it: s.chars()
        invariant
            it.seq() == s@,
            chars@ == s@.take(it.index()),
    {
        assert(s@.take(it.index() + 1) =~= s@.take(it.index()).push(c));
        chars.push(c);
    }
    assert(s@.take(s@.len() as int) =~= s@);
    chars
}

/// Scans the run of `class` characters that starts at character `start`,
/// which lies at byte `offset`. Returns the character index and the byte
/// offset of the end of the run.
pub(crate) fn scan_run(
    chars: &Vec<char>,
    class: CharClass,
    start: usize,
    offset: usize,
) -> (end: (usize, usize))
    requires
        start <= chars.len(),
        offset == byte_offset(chars@, start as int),
        byte_len(chars@) <= usize::MAX,
    ensures
        end.0 == run_end(chars@, class, start as int),
        end.1 == byte_offset(chars@, end.0 as int),
        start <= end.0 <= chars.len(),
{
    let mut i: usize = start;
    let mut at: usize = offset;
    while i < chars.len() && class_contains(class, chars[i])
        invariant
            start <= i <= chars.len(),
            at == byte_offset(chars@, i as int),
            byte_len(chars@) <= usize::MAX,
            run_end(chars@, class, start as int) == run_end(chars@, class, i as int),
        decreases chars.len() - i,
    {
        proof {
            lemma_byte_offset_step(chars@, i as int);
            lemma_byte_offset_monotone(chars@, 0, i + 1);
        }
        at = at + char_width(chars[i]);
        i = i + 1;
    }
    (i, at)
}

/// The part of `s` between characters `i` and `j`, which lie at the byte
/// offsets `from` and `to`.
pub(crate) fn slice_between<'a>(
    s: &'a str,
    Ghost(i): Ghost<int>,
    Ghost(j): Ghost<int>,
    from: usize,
    to: usize,
) -> (part: &'a str)
    requires
        0 <= i <= j <= s@.len(),
        from == byte_offset(s@, i),
        to == byte_offset(s@, j),
    ensures
        part@ == s@.subrange(i, j),
{
    proof {
        lemma_split_encoding(s@, j);
    }
    let (head, _) = s.split_at(to);
    proof {
        lemma_encode_injective(head@, s@.take(j));
        assert(s@.take(j).take(i) =~= s@.take(i));
        lemma_split_encoding(head@, i);
    }
    let (_, part) = head.split_at(from);
    proof {
        lemma_encode_injective(part@, head@.skip(i));
        assert(s@.take(j).skip(i) =~= s@.subrange(i, j));
    }
    part
}

/// The length of `s` in bytes.
pub fn byte_length(s: &str) -> (n: usize)
    ensures
        n == byte_len(s@),
{
    s.as_bytes().len()
}

/// Splits `s` at whitespace into its words.
pub fn split_words(s: &str) -> (parts: Vec<String>)
    ensures
        views(parts@) == words(s@),
{
    let chars = chars_of(s);
    let total = byte_length(s);
    let mut parts: Vec<String> = Vec::new();
    let mut i: usize = 0;
    let mut at: usize = 0;
    proof {
        lemma_byte_offset_monotone(s@, 0, 0);
        assert(views(parts@) + words_from(s@, 0) =~= words(s@));
    }
    while i < chars.len()
        invariant
            chars@ == s@,
            total == byte_len(s@),
            i <= chars.len(),
            at == byte_offset(s@, i as int),
            views(parts@) + words_from(s@, i as int) == words(s@),
        decreases chars.len() - i,
    {
        let (start, start_at) = scan_run(&chars, CharClass::Space, i, at);
        let (end, end_at) = scan_run(&chars, CharClass::Word, start, start_at);
        proof {
            lemma_run_end(s@, CharClass::Space, i as int);
            lemma_run_end(s@, CharClass::Word, start as int);
        }
        if start < end {
            let word = slice_between(s, Ghost(start as int), Ghost(end as int), start_at, end_at);
            let ghost before = views(parts@);
            parts.push(word.to_owned());
            assert(views(parts@) =~= before + seq![s@.subrange(start as int, end as int)]);
            assert(views(parts@) + words_from(s@, end as int) =~= before + words_from(
                s@,
                i as int,
            ));
        }
        i = end;
        at = end_at;
    }
    assert(words_from(s@, i as int) =~= Seq::<Seq<char>>::empty());
    assert(views(parts@) + words_from(s@, i as int) =~= views(parts@));
    parts
}

} // verus!

//! The layout engine: a tree becomes a row of boxes, the boxes are packed
//! greedily into lines, and the lines are dealt out to pages.
//!
//! Lengths are whole numbers of a unit that the caller chooses; all lengths
//! of one call are in the same unit.

use vstd::prelude::*;
use crate::ast::{forest, Node, TextStyle, Tree};
use crate::seqs::{concat, interleave, lemma_interleave_all, lemma_interleave_step, views};
use crate::text::{byte_len, byte_length, is_space, lemma_words_well_formed, split_words, words};

verus! {

/// The vertical room of a page, in the unit of the line height.
pub const PAGE_BUDGET: u64 = 800;

/// One word of renderable text with its style.
#[derive(Debug, Clone)]
pub struct StyledRun {
    pub text: String,
    pub style: TextStyle,
}

/// A layout primitive: a run of text, or glue of a given width.
#[derive(Debug, Clone)]
pub enum LayoutNode {
    Run(StyledRun),
    Glue(u64),
}

/// A horizontal box: the unit that the line breaker never splits.
#[derive(Debug, Clone)]
pub struct HBox {
    pub items: Vec<LayoutNode>,
    pub width: u64,
}

/// One line of boxes with its total width.
#[derive(Debug, Clone)]
pub struct Line {
    pub boxes: Vec<HBox>,
    pub width: u64,
}

/// One page of lines.
#[derive(Debug, Clone)]
pub struct Page {
    pub lines: Vec<Line>,
}

/// Model of a [`StyledRun`].
pub struct RunView {
    pub text: Seq<char>,
    pub style: TextStyle,
}

/// Model of a [`LayoutNode`].
pub enum ItemView {
    Run(RunView),
    Glue(nat),
}

/// Model of an [`HBox`].
pub struct BoxView {
    pub items: Seq<ItemView>,
    pub width: nat,
}

/// Model of a [`Line`].
pub struct LineView {
    pub boxes: Seq<BoxView>,
    pub width: nat,
}

/// Model of a [`Page`].
pub struct PageView {
    pub lines: Seq<LineView>,
}

impl View for StyledRun {
    type V = RunView;

    open spec fn view(&self) -> RunView {
        RunView { text: self.text@, style: self.style }
    }
}

impl View for LayoutNode {
    type V = ItemView;

    open spec fn view(&self) -> ItemView {
        match self {
            LayoutNode::Run(run) => ItemView::Run(run@),
            LayoutNode::Glue(width) => ItemView::Glue(*width as nat),
        }
    }
}

impl View for HBox {
    type V = BoxView;

    open spec fn view(&self) -> BoxView {
        BoxView { items: views(self.items@), width: self.width as nat }
    }
}

impl View for Line {
    type V = LineView;

    open spec fn view(&self) -> LineView {
        LineView { boxes: views(self.boxes@), width: self.width as nat }
    }
}

impl View for Page {
    type V = PageView;

    open spec fn view(&self) -> PageView {
        PageView { lines: views(self.lines@) }
    }
}

/// The width of a run of `bytes` bytes at `char_width` a byte. A width that
/// no `u64` can hold is recorded as `u64::MAX`.
pub open spec fn run_width(bytes: nat, char_width: nat) -> nat {
    if bytes * char_width <= u64::MAX {
        bytes * char_width
    } else {
        u64::MAX as nat
    }
}

/// The box of one word.
pub open spec fn word_box(word: Seq<char>, style: TextStyle, char_width: nat) -> BoxView {
    BoxView {
        items: seq![ItemView::Run(RunView { text: word, style })],
        width: run_width(byte_len(word), char_width),
    }
}

/// The box of one piece of glue.
pub open spec fn glue_box(space_width: nat) -> BoxView {
    BoxView { items: seq![ItemView::Glue(space_width)], width: space_width }
}

/// The groups that the words of a text give: one box each.
pub open spec fn word_groups(text: Seq<char>, style: TextStyle, char_width: nat) -> Seq<
    Seq<BoxView>,
> {
    Seq::new(words(text).len(), |i: int| seq![word_box(words(text)[i], style, char_width)])
}

/// The boxes of a text: one for each of its words, with glue between them.
pub open spec fn text_boxes(
    text: Seq<char>,
    style: TextStyle,
    char_width: nat,
    space_width: nat,
) -> Seq<BoxView> {
    interleave(word_groups(text, style, char_width), seq![glue_box(space_width)])
}

/// The boxes of each tree of `trees`.
pub open spec fn boxes_of_each(trees: Seq<Tree>, char_width: nat, space_width: nat) -> Seq<
    Seq<BoxView>,
>
    decreases trees, 0int,
{
    Seq::new(
        trees.len(),
        |i: int|
            if 0 <= i < trees.len() {
                boxes_of(trees[i], char_width, space_width)
            } else {
                arbitrary()
            },
    )
}

/// The boxes of a tree, in reading order. Text gives the boxes of its words.
/// A sequence gives the boxes of its children with one glue between each two
/// children; a macro does the same with its arguments, and its name gives
/// nothing.
pub open spec fn boxes_of(tree: Tree, char_width: nat, space_width: nat) -> Seq<BoxView>
    decreases tree, 1int,
{
    match tree {
        Tree::Text(text) => text_boxes(text, TextStyle::Normal, char_width, space_width),
        Tree::StyledText(text, style) => text_boxes(text, style, char_width, space_width),
        Tree::Macro { name, args } => interleave(
            boxes_of_each(args, char_width, space_width),
            seq![glue_box(space_width)],
        ),
        Tree::Sequence(children) => interleave(
            boxes_of_each(children, char_width, space_width),
            seq![glue_box(space_width)],
        ),
    }
}

/// The sum of the widths of `boxes`.
pub open spec fn total_width(boxes: Seq<BoxView>) -> nat
    decreases boxes.len(),
{
    if boxes.len() == 0 {
        0
    } else {
        total_width(boxes.drop_last()) + boxes.last().width
    }
}

/// How many boxes the first line takes when it already holds the first
/// `taken` of `boxes`: it takes the next box while the line is empty or the
/// box still fits within `line_width`.
pub open spec fn line_fill(boxes: Seq<BoxView>, line_width: nat, taken: nat) -> nat
    decreases boxes.len() - taken,
{
    if taken < boxes.len() && (taken == 0 || total_width(boxes.take(taken as int))
        + boxes[taken as int].width <= line_width) {
        line_fill(boxes, line_width, taken + 1)
    } else {
        taken
    }
}

/// The line that holds exactly `boxes`.
pub open spec fn line_holding(boxes: Seq<BoxView>) -> LineView {
    LineView { boxes, width: total_width(boxes) }
}

/// `boxes` broken greedily into lines of at most `line_width`: each line
/// takes boxes until the next one would exceed the width. A line always
/// takes at least one box, so a box wider than the line stands alone.
pub open spec fn lines_of(boxes: Seq<BoxView>, line_width: nat) -> Seq<LineView>
    decreases boxes.len(),
{
    let n = line_fill(boxes, line_width, 0);
    if 0 < n <= boxes.len() {
        seq![line_holding(boxes.take(n as int))] + lines_of(boxes.skip(n as int), line_width)
    } else {
        seq![]
    }
}

/// How many lines of height `line_height` go on a page with room `budget`:
/// as many as fit, but at least one. Lines of no height never fill a page.
pub open spec fn lines_per_page(budget: nat, line_height: nat) -> nat {
    if line_height == 0 {
        usize::MAX as nat
    } else if budget / line_height == 0 {
        1
    } else if budget / line_height > usize::MAX {
        usize::MAX as nat
    } else {
        budget / line_height
    }
}

/// `lines` dealt out to pages in order: every page takes `per_page` lines,
/// the last one what is left, at least one line. No pages for no lines, nor
/// for `per_page == 0`.
pub open spec fn pages_of(lines: Seq<LineView>, per_page: nat) -> Seq<PageView>
    decreases lines.len(),
{
    if lines.len() == 0 || per_page == 0 {
        seq![]
    } else if lines.len() <= per_page {
        seq![PageView { lines }]
    } else {
        seq![PageView { lines: lines.take(per_page as int) }] + pages_of(
            lines.skip(per_page as int),
            per_page,
        )
    }
}

/// The pages of a tree on pages with room `budget`: its boxes, broken into
/// lines, dealt out to pages.
pub open spec fn layout_within(
    tree: Tree,
    line_width: nat,
    line_height: nat,
    char_width: nat,
    space_width: nat,
    budget: nat,
) -> Seq<PageView> {
    pages_of(
        lines_of(boxes_of(tree, char_width, space_width), line_width),
        lines_per_page(budget, line_height),
    )
}

/// The pages of a tree on pages of [`PAGE_BUDGET`].
pub open spec fn layout_of(
    tree: Tree,
    line_width: nat,
    line_height: nat,
    char_width: nat,
    space_width: nat,
) -> Seq<PageView> {
    layout_within(tree, line_width, line_height, char_width, space_width, PAGE_BUDGET as nat)
}

/// The width of a run of `bytes` bytes at `char_width` a byte.
pub fn measure_run(bytes: usize, char_width: u64) -> (width: u64)
    ensures
        width == run_width(bytes as nat, char_width as nat),
{
    match (bytes as u64).checked_mul(char_width) {
        Some(width) => width,
        None => u64::MAX,
    }
}

/// A box that holds one piece of glue.
fn make_glue(space_width: u64) -> (glue: HBox)
    ensures
        glue@ == glue_box(space_width as nat),
{
    let glue = HBox { items: vec![LayoutNode::Glue(space_width)], width: space_width };
    assert(glue@.items =~= seq![ItemView::Glue(space_width as nat)]);
    glue
}

/// A box that holds one word.
fn make_word(word: String, style: TextStyle, char_width: u64) -> (hbox: HBox)
    ensures
        hbox@ == word_box(word@, style, char_width as nat),
{
    let width = measure_run(byte_length(word.as_str()), char_width);
    let ghost text = word@;
    let hbox = HBox { items: vec![LayoutNode::Run(StyledRun { text: word, style })], width };
    assert(hbox@.items =~= seq![ItemView::Run(RunView { text, style })]);
    hbox
}

/// Appends the boxes of a text to `hboxes`.
fn push_text(
    text: &str,
    style: TextStyle,
    hboxes: &mut Vec<HBox>,
    char_width: u64,
    space_width: u64,
)
    ensures
        views(final(hboxes)@) == views(old(hboxes)@) + text_boxes(
            text@,
            style,
            char_width as nat,
            space_width as nat,
        ),
{
    broadcast use vstd::std_specs::vec::axiom_spec_into_iter;

    let parts = split_words(text);
    let ghost groups = word_groups(text@, style, char_width as nat);
    let ghost glue = seq![glue_box(space_width as nat)];
    let ghost before = views(hboxes@);
    assert(interleave(groups.take(0), glue) =~= Seq::<BoxView>::empty());
    assert(views(hboxes@) =~= before + interleave(groups.take(0), glue));
    let mut first = true;
    for word in it: parts
        invariant
            it.seq() == parts@,
            views(parts@) == words(text@),
            groups == word_groups(text@, style, char_width as nat),
            glue == seq![glue_box(space_width as nat)],
            first <==> it.index() == 0,
            views(hboxes@) == before + interleave(groups.take(it.index()), glue),
    {
        let ghost sofar = views(hboxes@);
        if !first {
            hboxes.push(make_glue(space_width));
        }
        first = false;
        let ghost mid = views(hboxes@);
        assert(mid =~= if it.index() > 0 {
            sofar + glue
        } else {
            sofar
        });
        assert(views(parts@)[it.index()] == word@);
        hboxes.push(make_word(word, style, char_width));
        proof {
            lemma_interleave_step(groups, glue, it.index());
            assert(views(hboxes@) =~= mid + groups[it.index()]);
        }
    }
    assert(groups.take(groups.len() as int) =~= groups);
}

/// Appends the boxes of `nodes` to `hboxes`, with one glue between each two
/// nodes.
fn flatten_all(nodes: &Vec<Node>, hboxes: &mut Vec<HBox>, char_width: u64, space_width: u64)
    ensures
        views(final(hboxes)@) == views(old(hboxes)@) + interleave(
            boxes_of_each(forest(nodes@), char_width as nat, space_width as nat),
            seq![glue_box(space_width as nat)],
        ),
    decreases nodes,
{
    let ghost groups = boxes_of_each(forest(nodes@), char_width as nat, space_width as nat);
    let ghost glue = seq![glue_box(space_width as nat)];
    let ghost before = views(hboxes@);
    assert(interleave(groups.take(0), glue) =~= Seq::<BoxView>::empty());
    assert(views(hboxes@) =~= before + interleave(groups.take(0), glue));
    let mut i: usize = 0;
    while i < nodes.len()
        invariant
            i <= nodes.len(),
            groups == boxes_of_each(forest(nodes@), char_width as nat, space_width as nat),
            glue == seq![glue_box(space_width as nat)],
            views(hboxes@) == before + interleave(groups.take(i as int), glue),
        decreases nodes.len() - i,
    {
        let ghost sofar = views(hboxes@);
        if i > 0 {
            hboxes.push(make_glue(space_width));
        }
        let ghost mid = views(hboxes@);
        assert(mid =~= if i > 0 {
            sofar + glue
        } else {
            sofar
        });
        flatten_ast(&nodes[i], hboxes, char_width, space_width);
        proof {
            lemma_interleave_step(groups, glue, i as int);
            assert(views(hboxes@) =~= mid + groups[i as int]);
        }
        i += 1;
    }
    assert(groups.take(i as int) =~= groups);
}

/// Appends the boxes of `ast` to `hboxes`.
pub fn flatten_ast(ast: &Node, hboxes: &mut Vec<HBox>, char_width: u64, space_width: u64)
    ensures
        views(final(hboxes)@) == views(old(hboxes)@) + boxes_of(
            ast@,
            char_width as nat,
            space_width as nat,
        ),
    decreases ast,
{
    match ast {
        Node::Text(text) => push_text(
            text.as_str(),
            TextStyle::Normal,
            hboxes,
            char_width,
            space_width,
        ),
        Node::StyledText(text, style) => push_text(
            text.as_str(),
            *style,
            hboxes,
            char_width,
            space_width,
        ),
        Node::Macro { name: _, args } => flatten_all(args, hboxes, char_width, space_width),
        Node::Sequence(children) => flatten_all(children, hboxes, char_width, space_width),
    }
}

/// Breaks `boxes` greedily into lines of at most `line_width`. A line is
/// wider only where it holds a single box that is wider.
pub fn break_lines(boxes: Vec<HBox>, line_width: u64) -> (lines: Vec<Line>)
    ensures
        views(lines@) == lines_of(views(boxes@), line_width as nat),
        forall|i: int|
            0 <= i < lines.len() ==> (#[trigger] lines[i]).boxes.len() >= 1 && (lines[i].width
                <= line_width || lines[i].boxes.len() == 1),
{
    broadcast use vstd::std_specs::vec::axiom_spec_into_iter;

    let ghost all = views(boxes@);
    let ghost limit = line_width as nat;
    let mut lines: Vec<Line> = Vec::new();
    let mut current: Vec<HBox> = Vec::new();
    let mut width: u64 = 0;
    let ghost mut start: int = 0;
    proof {
        assert(all.skip(0) =~= all);
        assert(views(lines@) + lines_of(all.skip(0), limit) =~= lines_of(all, limit));
        assert(views(current@) =~= all.subrange(0, 0));
    }
    for hbox in it: boxes
        invariant
            it.seq() == boxes@,
            all == views(boxes@),
            limit == line_width as nat,
            0 <= start <= it.index(),
            start + current.len() == it.index(),
            views(current@) == all.subrange(start, it.index()),
            width == total_width(views(current@)),
            lines_of(all, limit) == views(lines@) + lines_of(all.skip(start), limit),
            line_fill(all.skip(start), limit, 0) == line_fill(
                all.skip(start),
                limit,
                current.len() as nat,
            ),
    {
        let ghost index = it.index();
        let ghost rest = all.skip(start);
        let ghost taken = current.len() as int;
        assert(rest.take(taken) =~= views(current@));
        assert(rest[taken] == hbox@);
        let fits = match width.checked_add(hbox.width) {
            Some(sum) => sum <= line_width,
            None => false,
        };
        if !fits && current.len() > 0 {
            let ghost done = views(lines@);
            lines.push(Line { boxes: current, width });
            current = Vec::new();
            width = 0;
            proof {
                assert(rest.skip(taken) =~= all.skip(index));
                assert(views(lines@) =~= done + seq![line_holding(rest.take(taken))]);
                start = index;
                assert(views(current@) =~= all.subrange(start, index));
            }
        }
        let ghost held = views(current@);
        let ghost added = hbox@;
        assert(width == total_width(held));
        width = width + hbox.width;
        current.push(hbox);
        proof {
            assert(views(current@) =~= all.subrange(start, index + 1));
            assert(views(current@).drop_last() =~= held);
            assert(views(current@).last() == added);
        }
    }
    proof {
        let rest = all.skip(start);
        assert(rest =~= views(current@));
        assert(rest.take(rest.len() as int) =~= rest);
        assert(rest.skip(rest.len() as int) =~= Seq::<BoxView>::empty());
        assert(line_fill(rest, limit, rest.len()) == rest.len());
        assert(lines_of(Seq::<BoxView>::empty(), limit) =~= Seq::<LineView>::empty());
        if rest.len() > 0 {
            assert(lines_of(rest, limit) =~= seq![line_holding(rest)]);
        } else {
            assert(lines_of(rest, limit) =~= Seq::<LineView>::empty());
        }
    }
    if current.len() > 0 {
        let ghost done = views(lines@);
        lines.push(Line { boxes: current, width });
        assert(views(lines@) =~= done + seq![line_holding(all.skip(start))]);
    } else {
        assert(views(lines@) + Seq::<LineView>::empty() =~= views(lines@));
    }
    proof {
        assert forall|i: int| 0 <= i < lines.len() implies (#[trigger] lines[i]).boxes.len() >= 1
            && (lines[i].width <= line_width || lines[i].boxes.len() == 1) by {
            lemma_line_shape(all, limit, i);
            assert(views(lines@)[i] == lines[i]@);
        }
    }
    lines
}

/// How many lines of height `line_height` go on a page with room `budget`.
pub fn page_capacity(budget: u64, line_height: u64) -> (per_page: usize)
    ensures
        per_page == lines_per_page(budget as nat, line_height as nat),
        per_page > 0,
{
    if line_height == 0 {
        usize::MAX
    } else {
        let fit: u64 = budget / line_height;
        if fit == 0 {
            1
        } else if fit > usize::MAX as u64 {
            usize::MAX
        } else {
            fit as usize
        }
    }
}

/// Deals `lines` out to pages of `per_page` lines each, in order. Every page
/// but the last is full, and the last holds at least one line.
pub fn paginate(lines: Vec<Line>, per_page: usize) -> (pages: Vec<Page>)
    requires
        per_page > 0,
    ensures
        views(pages@) == pages_of(views(lines@), per_page as nat),
        forall|i: int|
            0 <= i < pages.len() ==> 1 <= (#[trigger] pages[i]).lines.len() <= per_page && (i + 1
                < pages.len() ==> pages[i].lines.len() == per_page),
{
    broadcast use vstd::std_specs::vec::axiom_spec_into_iter;

    let ghost all = views(lines@);
    let ghost size = per_page as nat;
    let mut pages: Vec<Page> = Vec::new();
    let mut current: Vec<Line> = Vec::new();
    let ghost mut start: int = 0;
    proof {
        assert(all.skip(0) =~= all);
        assert(views(pages@) + pages_of(all.skip(0), size) =~= pages_of(all, size));
        assert(views(current@) =~= all.subrange(0, 0));
    }
    for line in it: lines
        invariant
            it.seq() == lines@,
            all == views(lines@),
            size == per_page as nat,
            size > 0,
            0 <= start <= it.index(),
            start + current.len() == it.index(),
            current.len() <= per_page,
            views(current@) == all.subrange(start, it.index()),
            pages_of(all, size) == views(pages@) + pages_of(all.skip(start), size),
    {
        let ghost index = it.index();
        let ghost rest = all.skip(start);
        if current.len() == per_page {
            let ghost done = views(pages@);
            pages.push(Page { lines: current });
            current = Vec::new();
            proof {
                assert(rest.take(size as int) =~= all.subrange(start, index));
                assert(rest.skip(size as int) =~= all.skip(index));
                assert(views(pages@) =~= done + seq![PageView { lines: rest.take(size as int) }]);
                start = index;
                assert(views(current@) =~= all.subrange(start, index));
            }
        }
        current.push(line);
        assert(views(current@) =~= all.subrange(start, index + 1));
    }
    proof {
        assert(all.skip(start) =~= views(current@));
    }
    if current.len() > 0 {
        let ghost done = views(pages@);
        pages.push(Page { lines: current });
        assert(views(pages@) =~= done + seq![PageView { lines: all.skip(start) }]);
    }
    proof {
        assert forall|i: int| 0 <= i < pages.len() implies 1 <= (#[trigger] pages[i]).lines.len()
            <= per_page && (i + 1 < pages.len() ==> pages[i].lines.len() == per_page) by {
            lemma_page_sizes(all, size, i);
            assert(views(pages@)[i] == pages[i]@);
        }
    }
    pages
}

/// Lays `ast` out into pages with room `budget`. Words are `char_width`
/// wide for each byte and `space_width` apart; a line is at most
/// `line_width` wide unless a single box is wider; a page holds the lines
/// of height `line_height` that fit into `budget`, and at least one.
pub fn layout_with_budget(
    ast: &Node,
    line_width: u64,
    line_height: u64,
    char_width: u64,
    space_width: u64,
    budget: u64,
) -> (pages: Vec<Page>)
    ensures
        views(pages@) == pages_of(
            lines_of(boxes_of(ast@, char_width as nat, space_width as nat), line_width as nat),
            lines_per_page(budget as nat, line_height as nat),
        ),
        views(pages@) == layout_within(
            ast@,
            line_width as nat,
            line_height as nat,
            char_width as nat,
            space_width as nat,
            budget as nat,
        ),
{
    let mut hboxes: Vec<HBox> = Vec::new();
    flatten_ast(ast, &mut hboxes, char_width, space_width);
    assert(views(hboxes@) =~= boxes_of(ast@, char_width as nat, space_width as nat));
    let lines = break_lines(hboxes, line_width);
    paginate(lines, page_capacity(budget, line_height))
}

/// Lays `ast` out into pages with room [`PAGE_BUDGET`], in the unit of
/// `line_height`: [`layout_with_budget`] with that budget.
pub fn layout(
    ast: &Node,
    line_width: u64,
    line_height: u64,
    char_width: u64,
    space_width: u64,
) -> (pages: Vec<Page>)
    ensures
        views(pages@) == layout_of(
            ast@,
            line_width as nat,
            line_height as nat,
            char_width as nat,
            space_width as nat,
        ),
{
    layout_with_budget(ast, line_width, line_height, char_width, space_width, PAGE_BUDGET)
}

/// Whether `hbox` is a box as flattening makes them: it holds one item and
/// is as wide as that item, which is glue of `space_width`, or a run of at
/// least one character and without whitespace.
pub open spec fn is_atom(hbox: BoxView, char_width: nat, space_width: nat) -> bool {
    &&& hbox.items.len() == 1
    &&& match hbox.items[0] {
        ItemView::Glue(width) => width == space_width && hbox.width == space_width,
        ItemView::Run(run) => {
            &&& run.text.len() > 0
            &&& forall|k: int| 0 <= k < run.text.len() ==> !is_space(#[trigger] run.text[k])
            &&& hbox.width == run_width(byte_len(run.text), char_width)
        },
    }
}

/// Every box of a text is an atom.
pub proof fn lemma_text_boxes_are_atoms(
    text: Seq<char>,
    style: TextStyle,
    char_width: nat,
    space_width: nat,
)
    ensures
        forall|i: int|
            0 <= i < text_boxes(text, style, char_width, space_width).len() ==> is_atom(
                #[trigger] text_boxes(text, style, char_width, space_width)[i],
                char_width,
                space_width,
            ),
{
    let groups = word_groups(text, style, char_width);
    let glue = seq![glue_box(space_width)];
    let holds = |hbox: BoxView| is_atom(hbox, char_width, space_width);
    assert forall|i: int, k: int| 0 <= i < groups.len() && 0 <= k < groups[i].len() implies holds(
        #[trigger] groups[i][k],
    ) by {
        lemma_words_well_formed(text, 0, i);
    }
    lemma_interleave_all(groups, glue, holds);
}

/// Every box of a tree is an atom: flattening gives nothing but words and
/// glue, each in a box of its own width.
pub proof fn lemma_boxes_are_atoms(tree: Tree, char_width: nat, space_width: nat)
    ensures
        forall|i: int|
            0 <= i < boxes_of(tree, char_width, space_width).len() ==> is_atom(
                #[trigger] boxes_of(tree, char_width, space_width)[i],
                char_width,
                space_width,
            ),
    decreases tree, 1int,
{
    let boxes = boxes_of(tree, char_width, space_width);
    match tree {
        Tree::Text(text) => {
            lemma_text_boxes_are_atoms(text, TextStyle::Normal, char_width, space_width);
            assert(boxes == text_boxes(text, TextStyle::Normal, char_width, space_width));
        },
        Tree::StyledText(text, style) => {
            lemma_text_boxes_are_atoms(text, style, char_width, space_width);
            assert(boxes == text_boxes(text, style, char_width, space_width));
        },
        Tree::Macro { name, args } => {
            lemma_each_boxes_are_atoms(args, char_width, space_width);
            assert(boxes == interleave(
                boxes_of_each(args, char_width, space_width),
                seq![glue_box(space_width)],
            ));
        },
        Tree::Sequence(children) => {
            lemma_each_boxes_are_atoms(children, char_width, space_width);
            assert(boxes == interleave(
                boxes_of_each(children, char_width, space_width),
                seq![glue_box(space_width)],
            ));
        },
    }
    assert forall|i: int| 0 <= i < boxes.len() implies is_atom(
        #[trigger] boxes[i],
        char_width,
        space_width,
    ) by {}
}

/// Every box of trees joined by glue is an atom.
proof fn lemma_each_boxes_are_atoms(trees: Seq<Tree>, char_width: nat, space_width: nat)
    ensures
        forall|i: int|
            0 <= i < interleave(
                boxes_of_each(trees, char_width, space_width),
                seq![glue_box(space_width)],
            ).len() ==> is_atom(
                #[trigger] interleave(
                    boxes_of_each(trees, char_width, space_width),
                    seq![glue_box(space_width)],
                )[i],
                char_width,
                space_width,
            ),
    decreases trees, 0int,
{
    let groups = boxes_of_each(trees, char_width, space_width);
    let glue = seq![glue_box(space_width)];
    let holds = |hbox: BoxView| is_atom(hbox, char_width, space_width);
    assert forall|i: int, k: int| 0 <= i < groups.len() && 0 <= k < groups[i].len() implies holds(
        #[trigger] groups[i][k],
    ) by {
        lemma_boxes_are_atoms(trees[i], char_width, space_width);
        assert(groups[i] == boxes_of(trees[i], char_width, space_width));
    }
    lemma_interleave_all(groups, glue, holds);
}

/// A line that holds `taken` boxes ends up with at least as many, and with
/// no more than there are.
pub proof fn lemma_line_fill_bounds(boxes: Seq<BoxView>, line_width: nat, taken: nat)
    requires
        taken <= boxes.len(),
    ensures
        taken <= line_fill(boxes, line_width, taken) <= boxes.len(),
    decreases boxes.len() - taken,
{
    if taken < boxes.len() {
        lemma_line_fill_bounds(boxes, line_width, taken + 1);
    }
}

/// A line always takes the first box.
pub proof fn lemma_line_takes_first(boxes: Seq<BoxView>, line_width: nat)
    requires
        boxes.len() > 0,
    ensures
        1 <= line_fill(boxes, line_width, 0) <= boxes.len(),
{
    lemma_line_fill_bounds(boxes, line_width, 1);
}

/// A line that grows from `from` boxes to its end holds `count` boxes on
/// the way, for each `count` in between, and ends the same from there.
pub proof fn lemma_line_fill_passes(boxes: Seq<BoxView>, line_width: nat, from: nat, count: nat)
    requires
        from <= count <= line_fill(boxes, line_width, from),
        from <= boxes.len(),
    ensures
        line_fill(boxes, line_width, count) == line_fill(boxes, line_width, from),
    decreases count - from,
{
    if from < count {
        lemma_line_fill_bounds(boxes, line_width, from);
        lemma_line_fill_passes(boxes, line_width, from + 1, count);
    }
}

/// Line-break boundary: when the first line holds `count` boxes, at least
/// one, the next box joins it if and only if the width of the line with
/// that box is at most `line_width`. A box that fills the line exactly
/// stays on it; any excess sends the box to the next line.
pub proof fn lemma_line_boundary(boxes: Seq<BoxView>, line_width: nat, count: nat)
    requires
        1 <= count < boxes.len(),
        count <= line_fill(boxes, line_width, 0),
    ensures
        total_width(boxes.take(count as int)) + boxes[count as int].width <= line_width
            <==> line_fill(boxes, line_width, 0) > count,
        total_width(boxes.take(count as int)) + boxes[count as int].width > line_width
            <==> line_fill(boxes, line_width, 0) == count,
{
    lemma_line_fill_passes(boxes, line_width, 0, count);
    lemma_line_fill_bounds(boxes, line_width, count + 1);
}

/// The width of boxes grows with each box taken.
pub proof fn lemma_total_width_step(boxes: Seq<BoxView>, count: int)
    requires
        0 <= count < boxes.len(),
    ensures
        total_width(boxes.take(count + 1)) == total_width(boxes.take(count))
            + boxes[count].width,
{
    assert(boxes.take(count + 1).drop_last() =~= boxes.take(count));
}

/// The first line holds at least one box, and it is no wider than
/// `line_width` unless it holds a single box.
pub proof fn lemma_first_line_fits(boxes: Seq<BoxView>, line_width: nat)
    requires
        boxes.len() > 0,
    ensures
        1 <= line_fill(boxes, line_width, 0) <= boxes.len(),
        line_fill(boxes, line_width, 0) == 1 || total_width(
            boxes.take(line_fill(boxes, line_width, 0) as int),
        ) <= line_width,
{
    let n = line_fill(boxes, line_width, 0);
    lemma_line_takes_first(boxes, line_width);
    if n > 1 {
        let last = (n - 1) as nat;
        lemma_line_fill_passes(boxes, line_width, 0, last);
        lemma_line_fill_bounds(boxes, line_width, n);
        lemma_total_width_step(boxes, last as int);
    }
}

/// The boxes of each line of `lines`.
pub open spec fn boxes_by_line(lines: Seq<LineView>) -> Seq<Seq<BoxView>> {
    Seq::new(lines.len(), |i: int| lines[i].boxes)
}

/// The lines of each page of `pages`.
pub open spec fn lines_by_page(pages: Seq<PageView>) -> Seq<Seq<LineView>> {
    Seq::new(pages.len(), |i: int| pages[i].lines)
}

/// Breaking into lines loses no box and keeps the order: the boxes of the
/// lines, one line after the other, are the boxes that were broken.
pub proof fn lemma_lines_keep_boxes(boxes: Seq<BoxView>, line_width: nat)
    ensures
        concat(boxes_by_line(lines_of(boxes, line_width))) == boxes,
    decreases boxes.len(),
{
    let lines = lines_of(boxes, line_width);
    let groups = boxes_by_line(lines);
    if boxes.len() == 0 {
        assert(groups =~= Seq::<Seq<BoxView>>::empty());
        assert(concat(groups) =~= boxes);
    } else {
        lemma_line_takes_first(boxes, line_width);
        let n = line_fill(boxes, line_width, 0) as int;
        let rest = lines_of(boxes.skip(n), line_width);
        lemma_lines_keep_boxes(boxes.skip(n), line_width);
        assert(groups =~= seq![boxes.take(n)] + boxes_by_line(rest));
        crate::seqs::lemma_concat_front(boxes.take(n), boxes_by_line(rest));
        assert(boxes.take(n) + boxes.skip(n) =~= boxes);
    }
}

/// Every line holds at least one box and is as wide as its boxes together;
/// a line wider than `line_width` holds exactly one box.
pub proof fn lemma_line_shape(boxes: Seq<BoxView>, line_width: nat, i: int)
    requires
        0 <= i < lines_of(boxes, line_width).len(),
    ensures
        lines_of(boxes, line_width)[i].boxes.len() >= 1,
        lines_of(boxes, line_width)[i].width == total_width(lines_of(boxes, line_width)[i].boxes),
        lines_of(boxes, line_width)[i].width > line_width ==> lines_of(
            boxes,
            line_width,
        )[i].boxes.len() == 1,
    decreases boxes.len(),
{
    if boxes.len() > 0 {
        lemma_line_takes_first(boxes, line_width);
    }
    let n = line_fill(boxes, line_width, 0) as int;
    if i == 0 {
        lemma_first_line_fits(boxes, line_width);
    } else {
        lemma_line_shape(boxes.skip(n), line_width, i - 1);
    }
}

/// Boxes together are at least as wide as each of them.
pub proof fn lemma_total_width_covers(boxes: Seq<BoxView>, k: int)
    requires
        0 <= k < boxes.len(),
    ensures
        boxes[k].width <= total_width(boxes),
    decreases boxes.len(),
{
    if k < boxes.len() - 1 {
        lemma_total_width_covers(boxes.drop_last(), k);
    }
}

/// A box wider than `line_width` is the only box of its line.
pub proof fn lemma_oversized_box_alone(boxes: Seq<BoxView>, line_width: nat, i: int, k: int)
    requires
        0 <= i < lines_of(boxes, line_width).len(),
        0 <= k < lines_of(boxes, line_width)[i].boxes.len(),
        lines_of(boxes, line_width)[i].boxes[k].width > line_width,
    ensures
        lines_of(boxes, line_width)[i].boxes.len() == 1,
{
    lemma_line_shape(boxes, line_width, i);
    lemma_total_width_covers(lines_of(boxes, line_width)[i].boxes, k);
}

/// Every line but the last is full: the first box of the next line would
/// have made it wider than `line_width`.
pub proof fn lemma_line_is_full(boxes: Seq<BoxView>, line_width: nat, i: int)
    requires
        0 <= i,
        i + 1 < lines_of(boxes, line_width).len(),
    ensures
        lines_of(boxes, line_width)[i + 1].boxes.len() >= 1,
        lines_of(boxes, line_width)[i].width + lines_of(boxes, line_width)[i + 1].boxes[0].width
            > line_width,
    decreases boxes.len(),
{
    if boxes.len() > 0 {
        lemma_line_takes_first(boxes, line_width);
    }
    let n = line_fill(boxes, line_width, 0);
    let rest = boxes.skip(n as int);
    if i == 0 {
        lemma_line_shape(rest, line_width, 0);
        assert(rest.len() > 0);
        lemma_line_takes_first(rest, line_width);
        lemma_line_boundary(boxes, line_width, n);
        let next = line_fill(rest, line_width, 0) as int;
        assert(rest.take(next)[0] == boxes[n as int]);
    } else {
        lemma_line_is_full(rest, line_width, i - 1);
    }
}

/// Dealing lines out to pages loses no line and keeps the order.
pub proof fn lemma_pages_keep_lines(lines: Seq<LineView>, per_page: nat)
    requires
        per_page > 0,
    ensures
        concat(lines_by_page(pages_of(lines, per_page))) == lines,
    decreases lines.len(),
{
    let groups = lines_by_page(pages_of(lines, per_page));
    if lines.len() == 0 {
        assert(groups =~= Seq::<Seq<LineView>>::empty());
        assert(concat(groups) =~= lines);
    } else if lines.len() <= per_page {
        assert(groups =~= seq![lines]);
        crate::seqs::lemma_concat_front(lines, Seq::<Seq<LineView>>::empty());
        assert(concat(Seq::<Seq<LineView>>::empty()) =~= Seq::<LineView>::empty());
        assert(lines + Seq::<LineView>::empty() =~= lines);
    } else {
        let n = per_page as int;
        let rest = pages_of(lines.skip(n), per_page);
        lemma_pages_keep_lines(lines.skip(n), per_page);
        assert(groups =~= seq![lines.take(n)] + lines_by_page(rest));
        crate::seqs::lemma_concat_front(lines.take(n), lines_by_page(rest));
        assert(lines.take(n) + lines.skip(n) =~= lines);
    }
}

/// Page chunking: every page but the last holds exactly `per_page` lines,
/// and the last holds at least one and at most `per_page`.
pub proof fn lemma_page_sizes(lines: Seq<LineView>, per_page: nat, i: int)
    requires
        per_page > 0,
        0 <= i < pages_of(lines, per_page).len(),
    ensures
        i + 1 < pages_of(lines, per_page).len() ==> pages_of(lines, per_page)[i].lines.len()
            == per_page,
        1 <= pages_of(lines, per_page)[i].lines.len() <= per_page,
    decreases lines.len(),
{
    if lines.len() > per_page {
        if i > 0 {
            lemma_page_sizes(lines.skip(per_page as int), per_page, i - 1);
        }
    }
}

/// With lines of height one, a page holds as many lines as its budget says.
pub proof fn lemma_unit_height_capacity(budget: nat)
    requires
        1 <= budget <= usize::MAX,
    ensures
        lines_per_page(budget, 1) == budget,
{
}

/// Page chunking of a layout: with a line height of one, every page but the
/// last holds exactly as many lines as the budget says, for every budget
/// that holds a line.
pub proof fn lemma_unit_height_pages_within(
    tree: Tree,
    line_width: nat,
    char_width: nat,
    space_width: nat,
    budget: nat,
    i: int,
)
    requires
        1 <= budget <= usize::MAX,
        0 <= i,
        i + 1 < layout_within(tree, line_width, 1, char_width, space_width, budget).len(),
    ensures
        layout_within(tree, line_width, 1, char_width, space_width, budget)[i].lines.len()
            == budget,
{
    lemma_unit_height_capacity(budget);
    lemma_page_sizes(lines_of(boxes_of(tree, char_width, space_width), line_width), budget, i);
}

/// Page chunking with the fixed budget: with a line height of one, every
/// page but the last holds exactly [`PAGE_BUDGET`] lines.
pub proof fn lemma_unit_height_pages(
    tree: Tree,
    line_width: nat,
    char_width: nat,
    space_width: nat,
    i: int,
)
    requires
        0 <= i,
        i + 1 < layout_of(tree, line_width, 1, char_width, space_width).len(),
    ensures
        layout_of(tree, line_width, 1, char_width, space_width)[i].lines.len() == PAGE_BUDGET,
{
    lemma_unit_height_pages_within(
        tree,
        line_width,
        char_width,
        space_width,
        PAGE_BUDGET as nat,
        i,
    );
}

} // verus!

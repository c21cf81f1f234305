use latex_rs::ast::{Node, TextStyle};
use latex_rs::layout::{
    break_lines, flatten_ast, layout, layout_with_budget, measure_run, page_capacity, paginate,
    HBox, LayoutNode, Line, Page, PAGE_BUDGET,
};

#[test]
fn test_layout_simple() {
    let ast = Node::Sequence(vec![Node::Text("Hello world".into())]);
    // line_width=100, line_height=20, char=6, space=6
    let pages = layout(&ast, 100, 20, 6, 6);
    assert_eq!(pages.len(), 1);
    let line = &pages[0].lines[0];
    // expect: "Hello" glue "world" => 3 boxes
    assert_eq!(line.boxes.len(), 3);
}

#[test]
fn test_line_break() {
    let long = "ThisIsAVeryLongWordWithoutSpaces";
    let ast = Node::Sequence(vec![Node::Text(long.into())]);
    let pages = layout(&ast, 50, 20, 6, 6);
    // too narrow => a single HBox per line
    assert_eq!(pages[0].lines[0].boxes.len(), 1);
}

#[test]
fn test_layout_styled() {
    let ast = Node::Sequence(vec![
        Node::StyledText("Bold".into(), TextStyle::Bold),
        Node::Text("and normal".into()),
    ]);
    let pages = layout(&ast, 100, 20, 6, 6);
    let line = &pages[0].lines[0];
    // Bold | space | "and" | space | "normal" => 5 boxes
    assert_eq!(line.boxes.len(), 5);
}

/// What a box holds, as text: a run as its style letter and word, glue as
/// its width.
fn show(hbox: &HBox) -> String {
    let items: Vec<String> = hbox
        .items
        .iter()
        .map(|item| match item {
            LayoutNode::Run(run) => {
                let style = match run.style {
                    TextStyle::Normal => "n",
                    TextStyle::Bold => "b",
                    TextStyle::Italic => "i",
                };
                format!("{}:{}", style, run.text)
            }
            LayoutNode::Glue(width) => format!("glue {}", width),
        })
        .collect();
    format!("[{}]={}", items.join(","), hbox.width)
}

fn show_all(boxes: &[HBox]) -> Vec<String> {
    boxes.iter().map(show).collect()
}

fn flatten(ast: &Node, char_width: u64, space_width: u64) -> Vec<HBox> {
    let mut boxes = Vec::new();
    flatten_ast(ast, &mut boxes, char_width, space_width);
    boxes
}

/// Boxes of the given widths, each holding one piece of glue.
fn boxes_of_widths(widths: &[u64]) -> Vec<HBox> {
    widths
        .iter()
        .map(|w| HBox { items: vec![LayoutNode::Glue(*w)], width: *w })
        .collect()
}

/// The widths of the boxes of each line.
fn line_widths(lines: &[Line]) -> Vec<Vec<u64>> {
    lines
        .iter()
        .map(|line| line.boxes.iter().map(|b| b.width).collect())
        .collect()
}

fn page_sizes(pages: &[Page]) -> Vec<usize> {
    pages.iter().map(|page| page.lines.len()).collect()
}

#[test]
fn text_gives_a_box_for_each_word_and_glue_between() {
    let boxes = flatten(&Node::Text("  Hello \t big\nworld ".into()), 6, 4);
    assert_eq!(
        show_all(&boxes),
        vec!["[n:Hello]=30", "[glue 4]=4", "[n:big]=18", "[glue 4]=4", "[n:world]=30"]
    );
}

#[test]
fn styled_text_keeps_its_style_in_every_word() {
    let boxes = flatten(&Node::StyledText("a bc".into(), TextStyle::Italic), 10, 3);
    assert_eq!(show_all(&boxes), vec!["[i:a]=10", "[glue 3]=3", "[i:bc]=20"]);
    let boxes = flatten(&Node::StyledText("x".into(), TextStyle::Bold), 7, 3);
    assert_eq!(show_all(&boxes), vec!["[b:x]=7"]);
}

#[test]
fn empty_text_gives_no_boxes() {
    assert_eq!(flatten(&Node::Text("".into()), 6, 6).len(), 0);
    assert_eq!(flatten(&Node::Text(" \n\t ".into()), 6, 6).len(), 0);
    assert_eq!(flatten(&Node::StyledText("".into(), TextStyle::Bold), 6, 6).len(), 0);
    assert_eq!(flatten(&Node::Sequence(vec![]), 6, 6).len(), 0);
    assert_eq!(flatten(&Node::Macro { name: "x".into(), args: vec![] }, 6, 6).len(), 0);
}

#[test]
fn sequence_puts_glue_between_children() {
    let one = Node::Sequence(vec![Node::Text("a".into())]);
    assert_eq!(show_all(&flatten(&one, 5, 2)), vec!["[n:a]=5"]);
    let three = Node::Sequence(vec![
        Node::Text("a".into()),
        Node::StyledText("b c".into(), TextStyle::Bold),
        Node::Sequence(vec![Node::Text("d".into()), Node::Text("e".into())]),
    ]);
    assert_eq!(
        show_all(&flatten(&three, 5, 2)),
        vec![
            "[n:a]=5", "[glue 2]=2", "[b:b]=5", "[glue 2]=2", "[b:c]=5", "[glue 2]=2", "[n:d]=5",
            "[glue 2]=2", "[n:e]=5"
        ]
    );
}

#[test]
fn glue_stands_between_children_even_when_one_is_empty() {
    let tree = Node::Sequence(vec![
        Node::Text("".into()),
        Node::Text("a".into()),
        Node::Sequence(vec![]),
    ]);
    assert_eq!(show_all(&flatten(&tree, 5, 2)), vec!["[glue 2]=2", "[n:a]=5", "[glue 2]=2"]);
}

#[test]
fn macro_gives_its_arguments_and_not_its_name() {
    let tree = Node::Macro {
        name: "section".into(),
        args: vec![Node::Text("a".into()), Node::Text("b".into())],
    };
    assert_eq!(show_all(&flatten(&tree, 5, 2)), vec!["[n:a]=5", "[glue 2]=2", "[n:b]=5"]);
}

#[test]
fn flatten_appends_to_what_is_there() {
    let mut boxes = boxes_of_widths(&[9]);
    flatten_ast(&Node::Text("a".into()), &mut boxes, 5, 2);
    assert_eq!(show_all(&boxes), vec!["[glue 9]=9", "[n:a]=5"]);
}

#[test]
fn run_width_counts_bytes() {
    // e-acute is one character of two bytes
    assert_eq!(show_all(&flatten(&Node::Text("\u{e9}".into()), 6, 1)), vec!["[n:\u{e9}]=12"]);
    assert_eq!(measure_run(0, 6), 0);
    assert_eq!(measure_run(5, 0), 0);
    assert_eq!(measure_run(5, 6), 30);
    assert_eq!(measure_run(32, 6), 192);
}

#[test]
fn run_width_stops_at_the_largest_number() {
    assert_eq!(measure_run(2, u64::MAX), u64::MAX);
    assert_eq!(measure_run(1, u64::MAX), u64::MAX);
    assert_eq!(measure_run(3, u64::MAX / 3), u64::MAX);
    assert_eq!(measure_run(2, u64::MAX / 3), (u64::MAX / 3) * 2);
    assert_eq!(measure_run(4, u64::MAX / 3), u64::MAX);
    let boxes = flatten(&Node::Text("ab".into()), u64::MAX, 1);
    assert_eq!(boxes[0].width, u64::MAX);
}

#[test]
fn box_that_fills_the_line_exactly_stays_on_it() {
    // 30 + 20 + 50 = 100
    let lines = break_lines(boxes_of_widths(&[30, 20, 50, 1]), 100);
    assert_eq!(line_widths(&lines), vec![vec![30, 20, 50], vec![1]]);
    assert_eq!(lines[0].width, 100);
    assert_eq!(lines[1].width, 1);
}

#[test]
fn box_that_exceeds_the_line_by_one_starts_a_new_line() {
    let lines = break_lines(boxes_of_widths(&[30, 20, 51, 1]), 100);
    assert_eq!(line_widths(&lines), vec![vec![30, 20], vec![51, 1]]);
    assert_eq!(lines[0].width, 50);
    assert_eq!(lines[1].width, 52);
}

#[test]
fn oversized_box_stands_alone() {
    let lines = break_lines(boxes_of_widths(&[10, 500, 10, 10]), 100);
    assert_eq!(line_widths(&lines), vec![vec![10], vec![500], vec![10, 10]]);
    assert_eq!(lines[1].width, 500);
    let lines = break_lines(boxes_of_widths(&[500]), 100);
    assert_eq!(line_widths(&lines), vec![vec![500]]);
    // not even a box of no width joins it
    let lines = break_lines(boxes_of_widths(&[500, 0]), 100);
    assert_eq!(line_widths(&lines), vec![vec![500], vec![0]]);
}

#[test]
fn glue_counts_toward_the_line_like_any_box() {
    let tree = Node::Text("aa bb cc".into());
    // boxes: 10 3 10 3 10; the line takes 10 + 3 + 10 = 23, and the glue
    // behind it opens the next line
    let lines = break_lines(flatten(&tree, 5, 3), 25);
    assert_eq!(line_widths(&lines), vec![vec![10, 3, 10], vec![3, 10]]);
}

#[test]
fn no_boxes_give_no_lines() {
    assert_eq!(break_lines(vec![], 100).len(), 0);
}

#[test]
fn line_of_no_width_takes_one_box_at_a_time() {
    let lines = break_lines(boxes_of_widths(&[5, 5, 5]), 0);
    assert_eq!(line_widths(&lines), vec![vec![5], vec![5], vec![5]]);
    // boxes of no width all fit
    let lines = break_lines(boxes_of_widths(&[0, 0, 0]), 0);
    assert_eq!(line_widths(&lines), vec![vec![0, 0, 0]]);
}

#[test]
fn widest_line_does_not_overflow() {
    let lines = break_lines(boxes_of_widths(&[u64::MAX, u64::MAX, 1]), u64::MAX);
    assert_eq!(line_widths(&lines), vec![vec![u64::MAX], vec![u64::MAX], vec![1]]);
    let lines = break_lines(boxes_of_widths(&[u64::MAX - 1, 1, 1]), u64::MAX);
    assert_eq!(line_widths(&lines), vec![vec![u64::MAX - 1, 1], vec![1]]);
    assert_eq!(lines[0].width, u64::MAX);
}

#[test]
fn page_capacity_is_the_floor_of_budget_by_height() {
    assert_eq!(PAGE_BUDGET, 800);
    assert_eq!(page_capacity(800, 20), 40);
    assert_eq!(page_capacity(800, 1), 800);
    assert_eq!(page_capacity(800, 3), 266);
    assert_eq!(page_capacity(800, 800), 1);
    assert_eq!(page_capacity(800, 799), 1);
    assert_eq!(page_capacity(800, 401), 1);
    assert_eq!(page_capacity(800, 400), 2);
    assert_eq!(page_capacity(72, 14), 5);
}

#[test]
fn page_holds_at_least_one_line() {
    assert_eq!(page_capacity(800, 801), 1);
    assert_eq!(page_capacity(800, u64::MAX), 1);
    assert_eq!(page_capacity(0, 5), 1);
}

#[test]
fn lines_of_no_height_never_fill_a_page() {
    assert_eq!(page_capacity(800, 0), usize::MAX);
    assert_eq!(page_capacity(0, 0), usize::MAX);
    let tree = Node::Text("a b c d e f g h".into());
    let pages = layout(&tree, 0, 0, 1, 1);
    assert_eq!(page_sizes(&pages), vec![15]);
}

fn lines_of_one_box(count: usize) -> Vec<Line> {
    (0..count)
        .map(|i| Line { boxes: boxes_of_widths(&[i as u64]), width: i as u64 })
        .collect()
}

#[test]
fn pages_take_their_lines_in_order() {
    let pages = paginate(lines_of_one_box(7), 3);
    assert_eq!(page_sizes(&pages), vec![3, 3, 1]);
    let order: Vec<u64> = pages
        .iter()
        .flat_map(|page| page.lines.iter().map(|line| line.width))
        .collect();
    assert_eq!(order, vec![0, 1, 2, 3, 4, 5, 6]);
}

#[test]
fn every_page_but_the_last_is_full() {
    assert_eq!(page_sizes(&paginate(lines_of_one_box(6), 3)), vec![3, 3]);
    assert_eq!(page_sizes(&paginate(lines_of_one_box(3), 3)), vec![3]);
    assert_eq!(page_sizes(&paginate(lines_of_one_box(2), 3)), vec![2]);
    assert_eq!(page_sizes(&paginate(lines_of_one_box(4), 1)), vec![1, 1, 1, 1]);
    assert_eq!(page_sizes(&paginate(lines_of_one_box(0), 3)), Vec::<usize>::new());
    assert_eq!(page_sizes(&paginate(lines_of_one_box(5), usize::MAX)), vec![5]);
}

#[test]
fn line_height_one_puts_the_whole_budget_on_a_page() {
    // 1000 words of one letter, each as wide as the line
    let words: Vec<&str> = (0..1000).map(|_| "a").collect();
    let tree = Node::Text(words.join(" "));
    let pages = layout(&tree, 1, 1, 1, 0);
    // 1000 word boxes and 999 glue boxes of no width: glue fits on the line
    // of the word before it
    let lines: usize = pages.iter().map(|page| page.lines.len()).sum();
    assert_eq!(lines, 1000);
    assert_eq!(page_sizes(&pages), vec![800, 200]);
}

#[test]
fn line_taller_than_the_page_stands_alone_on_it() {
    let tree = Node::Text("a b".into());
    let pages = layout(&tree, 0, 1000, 1, 1);
    assert_eq!(page_sizes(&pages), vec![1, 1, 1]);
}

#[test]
fn empty_tree_gives_no_pages() {
    assert_eq!(layout(&Node::Sequence(vec![]), 100, 20, 6, 6).len(), 0);
    assert_eq!(layout(&Node::Text("".into()), 100, 20, 6, 6).len(), 0);
}

#[test]
fn oversized_word_is_laid_out_alone() {
    let long = "ThisIsAVeryLongWordWithoutSpaces";
    let ast = Node::Sequence(vec![Node::Text(format!("a {} b", long))]);
    let pages = layout(&ast, 50, 20, 6, 6);
    assert_eq!(pages.len(), 1);
    // the glue fits behind the first word, the long word (192) does not
    assert_eq!(
        line_widths(&pages[0].lines),
        vec![vec![6, 6], vec![192], vec![6, 6]]
    );
    assert_eq!(pages[0].lines[1].width, 192);
}

#[test]
fn layout_of_a_paragraph() {
    let ast = Node::Sequence(vec![
        Node::StyledText("Bold".into(), TextStyle::Bold),
        Node::Text("and normal".into()),
    ]);
    let pages = layout(&ast, 100, 20, 6, 6);
    assert_eq!(pages.len(), 1);
    assert_eq!(pages[0].lines.len(), 1);
    let line = &pages[0].lines[0];
    assert_eq!(
        show_all(&line.boxes),
        vec!["[b:Bold]=24", "[glue 6]=6", "[n:and]=18", "[glue 6]=6", "[n:normal]=36"]
    );
    assert_eq!(line.width, 90);
}

#[test]
fn budget_decides_the_lines_of_a_page() {
    // seven words, each alone on its line
    let tree = Node::Text("a b c d e f g".into());
    assert_eq!(page_sizes(&layout_with_budget(&tree, 1, 10, 1, 0, 30)), vec![3, 3, 1]);
    assert_eq!(page_sizes(&layout_with_budget(&tree, 1, 10, 1, 0, 39)), vec![3, 3, 1]);
    assert_eq!(page_sizes(&layout_with_budget(&tree, 1, 10, 1, 0, 40)), vec![4, 3]);
    assert_eq!(page_sizes(&layout_with_budget(&tree, 1, 10, 1, 0, 70)), vec![7]);
    // a budget that holds no line still gives one line a page
    assert_eq!(page_sizes(&layout_with_budget(&tree, 1, 10, 1, 0, 9)), vec![1; 7]);
    assert_eq!(page_sizes(&layout_with_budget(&tree, 1, 10, 1, 0, 0)), vec![1; 7]);
}

#[test]
fn layout_is_layout_with_the_fixed_budget() {
    let words: Vec<&str> = (0..90).map(|_| "a").collect();
    let tree = Node::Text(words.join(" "));
    let fixed = layout(&tree, 1, 20, 1, 0);
    let chosen = layout_with_budget(&tree, 1, 20, 1, 0, 800);
    assert_eq!(page_sizes(&fixed), vec![40, 40, 10]);
    assert_eq!(page_sizes(&chosen), vec![40, 40, 10]);
    // in fifths of a unit the same pages come out
    let scaled = layout_with_budget(&tree, 5, 100, 5, 0, 4000);
    assert_eq!(page_sizes(&scaled), vec![40, 40, 10]);
}

use tau::screen::{layout_lines, Screen};
use tau::style::{Cell, Color, Span, Style, StyledText};
use tau::terminal::{write_ops, TermOp};

fn size(n: u16) -> std::num::NonZeroU16 {
    std::num::NonZeroU16::new(n).unwrap()
}

/// Pairs a [`Screen`] with a terminal emulator: what the screen writes is fed to
/// the emulator, whose state is looked at.
struct TestTerm {
    screen: Screen,
    term: vt100::Parser,
}

impl TestTerm {
    fn new(rows: u16, cols: u16) -> Self {
        Self {
            screen: Screen::new(cols as usize),
            term: vt100::Parser::new(size(rows), size(cols), 0),
        }
    }

    fn show(&mut self, desired: &[Vec<Cell>], cursor: (usize, usize)) {
        let mut buf = String::new();
        self.screen.update(&mut buf, desired, cursor);
        self.term.process(buf.as_bytes());
    }

    fn render(&mut self, content: &str, cursor_char_offset: usize) {
        let width = self.screen.width();
        let styled: StyledText = content.into();
        let desired = layout_lines(&styled, width);
        let cursor = (cursor_char_offset / width, cursor_char_offset % width);
        self.show(&desired, cursor);
    }

    fn invalidate_and_render(&mut self, content: &str, cursor_char_offset: usize) {
        let ops = self.screen.erase_all();
        self.screen.invalidate();
        let mut buf = String::new();
        write_ops(&mut buf, &ops);
        self.term.process(buf.as_bytes());
        self.render(content, cursor_char_offset);
    }

    fn row_text(&self, row: usize) -> String {
        self.term
            .screen()
            .rows(0, self.term.screen().size().1.get())
            .nth(row)
            .unwrap_or_default()
    }

    fn cursor(&self) -> (u16, u16) {
        self.term.screen().cursor_position()
    }
}

fn line_chars(lines: &[Vec<Cell>]) -> Vec<String> {
    lines
        .iter()
        .map(|line| line.iter().map(|c| c.ch).collect())
        .collect()
}

// --- layout ---

#[test]
fn layout_empty_produces_one_empty_line() {
    let lines = layout_lines(&StyledText::new(), 80);
    assert_eq!(line_chars(&lines), vec![""]);
}

#[test]
fn layout_short_produces_one_line() {
    let lines = layout_lines(&StyledText::from("abc"), 80);
    assert_eq!(line_chars(&lines), vec!["abc"]);
}

#[test]
fn layout_wraps_at_width() {
    let lines = layout_lines(&StyledText::from("abcde"), 3);
    assert_eq!(line_chars(&lines), vec!["abc", "de"]);
}

#[test]
fn layout_exact_width_is_one_line() {
    let lines = layout_lines(&StyledText::from("abc"), 3);
    assert_eq!(line_chars(&lines), vec!["abc"]);
}

#[test]
fn layout_preserves_styles() {
    let style = Style::default().fg(Color::Red);
    let styled = StyledText::from(vec![Span::plain("ab"), Span::new("cd", style)]);
    let lines = layout_lines(&styled, 80);
    assert_eq!(lines.len(), 1);
    assert_eq!(lines[0].len(), 4);
    assert_eq!(lines[0][0], Cell::plain('a'));
    assert_eq!(lines[0][1], Cell::plain('b'));
    assert_eq!(lines[0][2], Cell::new('c', style));
    assert_eq!(lines[0][3], Cell::new('d', style));
}

#[test]
fn layout_handles_newlines() {
    let lines = layout_lines(&StyledText::from("abc\ndef"), 80);
    assert_eq!(line_chars(&lines), vec!["abc", "def"]);
}

#[test]
fn layout_newline_and_wrap() {
    let lines = layout_lines(&StyledText::from("abc\ndef"), 3);
    assert_eq!(line_chars(&lines), vec!["abc", "def"]);
}

#[test]
fn layout_keeps_empty_lines_between_newlines() {
    let lines = layout_lines(&StyledText::from("a\n\nb"), 4);
    assert_eq!(line_chars(&lines), vec!["a", "", "b"]);
}

#[test]
fn layout_of_width_zero_counts_as_one() {
    let lines = layout_lines(&StyledText::from("ab"), 0);
    assert_eq!(line_chars(&lines), vec!["a", "b"]);
}

// --- screen rendering ---

#[test]
fn first_render_shows_prompt() {
    let mut t = TestTerm::new(24, 80);
    t.render("> hello", 7);
    assert_eq!(t.row_text(0), "> hello");
    assert_eq!(t.cursor(), (0, 7));
}

#[test]
fn appending_one_char_updates_correctly() {
    let mut t = TestTerm::new(24, 80);
    t.render("> hell", 6);
    assert_eq!(t.row_text(0), "> hell");

    t.render("> hello", 7);
    assert_eq!(t.row_text(0), "> hello");
    assert_eq!(t.cursor(), (0, 7));
}

#[test]
fn cursor_moves_without_changing_content() {
    let mut t = TestTerm::new(24, 80);
    t.render("> hello", 7);

    t.render("> hello", 2);
    assert_eq!(t.row_text(0), "> hello");
    assert_eq!(t.cursor(), (0, 2));
}

#[test]
fn shrinking_clears_old_text() {
    let mut t = TestTerm::new(24, 80);
    t.render("> hello world", 13);
    assert_eq!(t.row_text(0), "> hello world");

    t.render("> hi", 4);
    assert_eq!(t.row_text(0), "> hi");
    assert_eq!(t.cursor(), (0, 4));
}

#[test]
fn wrapping_to_second_line() {
    let mut t = TestTerm::new(24, 10);
    t.render("> abcdefghij", 12);
    assert_eq!(t.row_text(0), "> abcdefgh");
    assert_eq!(t.row_text(1), "ij");
    assert_eq!(t.cursor(), (1, 2));
}

#[test]
fn removing_wrapped_line_clears_it() {
    let mut t = TestTerm::new(24, 10);
    t.render("> abcdefghij", 12);
    assert_eq!(t.row_text(1), "ij");

    t.render("> ab", 4);
    assert_eq!(t.row_text(0), "> ab");
    assert_eq!(t.row_text(1), "");
    assert_eq!(t.cursor(), (0, 4));
}

#[test]
fn a_full_row_stays_whole_when_rows_below_go() {
    let mut t = TestTerm::new(24, 10);
    t.render("> abcdefghi", 11);
    assert_eq!(t.row_text(1), "i");
    t.render("> abcdefgh", 10);
    assert_eq!(t.row_text(0), "> abcdefgh");
    assert_eq!(t.row_text(1), "");
    assert_eq!(t.cursor(), (1, 0));

    t.render("> abcdefghijklmnopqrstuvw", 3);
    assert_eq!(t.row_text(2), "stuvw");
    t.render("> abcdefgX", 3);
    assert_eq!(t.row_text(0), "> abcdefgX");
    assert_eq!(t.row_text(1), "");
    assert_eq!(t.row_text(2), "");
    assert_eq!(t.cursor(), (0, 3));

    let mut narrow = TestTerm::new(4, 2);
    narrow.render("abc", 0);
    narrow.render("ab", 1);
    assert_eq!((narrow.row_text(0), narrow.row_text(1)), ("ab".to_owned(), String::new()));
    assert_eq!(narrow.cursor(), (0, 1));
}

#[test]
fn a_full_row_is_not_written_again() {
    let mut screen = Screen::new(2);
    let rows = |s: &str| layout_lines(&StyledText::from(s), 2);
    screen.diff(&rows("abc"), (0, 0));
    assert_eq!(
        screen.diff(&rows("ab"), (0, 0)),
        vec![TermOp::NextLine, TermOp::ClearDown, TermOp::MoveUp(1)]
    );
}

#[test]
fn invalidate_and_rerender_after_async_output() {
    let mut t = TestTerm::new(24, 80);
    t.render("> hello", 7);
    assert_eq!(t.row_text(0), "> hello");

    t.invalidate_and_render("> hello", 7);
    assert_eq!(t.row_text(0), "> hello");
    assert_eq!(t.cursor(), (0, 7));
}

#[test]
fn growing_from_one_to_two_lines() {
    let mut t = TestTerm::new(24, 10);
    t.render("> abcdefg", 9);
    assert_eq!(t.row_text(0), "> abcdefg");
    assert_eq!(t.row_text(1), "");

    t.render("> abcdefgh", 10);
    assert_eq!(t.row_text(0), "> abcdefgh");
    assert_eq!(t.cursor(), (1, 0));

    t.render("> abcdefghi", 11);
    assert_eq!(t.row_text(0), "> abcdefgh");
    assert_eq!(t.row_text(1), "i");
    assert_eq!(t.cursor(), (1, 1));
}

#[test]
fn cursor_in_middle_of_wrapped_content() {
    let mut t = TestTerm::new(24, 10);
    t.render("> abcdefghijklm", 5);
    assert_eq!(t.row_text(0), "> abcdefgh");
    assert_eq!(t.row_text(1), "ijklm");
    assert_eq!(t.cursor(), (0, 5));
}

#[test]
fn an_unchanged_screen_writes_nothing() {
    let mut screen = Screen::new(10);
    let rows = layout_lines(&StyledText::from("abc"), 10);
    let first = screen.diff(&rows, (0, 3));
    assert!(!first.is_empty());
    let second = screen.diff(&rows, (0, 3));
    assert_eq!(second, Vec::new());
}

#[test]
fn only_the_changed_end_of_a_row_is_written() {
    let mut screen = Screen::new(20);
    let before = layout_lines(&StyledText::from("hello"), 20);
    screen.diff(&before, (0, 5));
    let after = layout_lines(&StyledText::from("help"), 20);
    let ops = screen.diff(&after, (0, 4));
    let written: String = ops
        .iter()
        .filter_map(|op| match op {
            TermOp::Print(c) => Some(*c),
            _ => None,
        })
        .collect();
    assert_eq!(written, "p");
    assert!(ops.contains(&TermOp::ClearToEndOfLine));
    assert_eq!(screen.actual_line_count(), 1);
}

#[test]
fn erasing_leaves_an_empty_terminal() {
    let mut t = TestTerm::new(24, 10);
    t.render("> abcdefghij", 12);
    let ops = t.screen.erase_all();
    let mut buf = String::new();
    write_ops(&mut buf, &ops);
    t.term.process(buf.as_bytes());
    assert_eq!(t.row_text(0), "");
    assert_eq!(t.row_text(1), "");
    assert_eq!(t.cursor(), (0, 0));
}

// --- styles ---

#[test]
fn styled_content_renders_with_color() {
    let mut t = TestTerm::new(24, 80);
    let style = Style::default().fg(Color::Blue);
    let styled = StyledText::from(vec![Span::plain("hi "), Span::new("world", style)]);
    let desired = layout_lines(&styled, 80);
    t.show(&desired, (0, 8));

    assert_eq!(t.row_text(0), "hi world");

    let cell_h = t.term.screen().cell(0, 0).unwrap();
    assert!(!cell_h.bold());
    assert_eq!(cell_h.fgcolor(), vt100::Color::Default);

    let cell_w = t.term.screen().cell(0, 3).unwrap();
    assert_eq!(cell_w.fgcolor(), vt100::Color::Idx(12));
}

#[test]
fn styled_diff_only_rerenders_changed_styles() {
    let mut t = TestTerm::new(24, 80);
    let bold = Style::default().bold();

    t.render("hello", 5);
    assert_eq!(t.row_text(0), "hello");

    let styled = StyledText::from(Span::new("hello", bold));
    let desired = layout_lines(&styled, 80);
    t.show(&desired, (0, 5));

    assert_eq!(t.row_text(0), "hello");
    let cell = t.term.screen().cell(0, 0).unwrap();
    assert!(cell.bold());
}

#[test]
fn every_style_reaches_the_terminal() {
    let mut t = TestTerm::new(4, 20);
    let style = Style::default()
        .fg(Color::Rgb { r: 1, g: 2, b: 3 })
        .bg(Color::AnsiValue(200))
        .underline()
        .italic();
    let styled = StyledText::from(vec![Span::new("x", style), Span::plain("y")]);
    let desired = layout_lines(&styled, 20);
    t.show(&desired, (0, 2));
    let x = t.term.screen().cell(0, 0).unwrap();
    assert_eq!(x.fgcolor(), vt100::Color::Rgb(1, 2, 3));
    assert_eq!(x.bgcolor(), vt100::Color::Idx(200));
    assert!(x.underline());
    assert!(x.italic());
    let y = t.term.screen().cell(0, 1).unwrap();
    assert_eq!(y.fgcolor(), vt100::Color::Default);
    assert_eq!(y.bgcolor(), vt100::Color::Default);
    assert!(!y.underline());
}

#[test]
fn named_colors_reach_the_terminal() {
    let pairs = [
        (Color::Black, 0u8),
        (Color::DarkRed, 1),
        (Color::DarkGreen, 2),
        (Color::DarkYellow, 3),
        (Color::DarkBlue, 4),
        (Color::DarkMagenta, 5),
        (Color::DarkCyan, 6),
        (Color::Grey, 7),
        (Color::DarkGrey, 8),
        (Color::Red, 9),
        (Color::Green, 10),
        (Color::Yellow, 11),
        (Color::Blue, 12),
        (Color::Magenta, 13),
        (Color::Cyan, 14),
        (Color::White, 15),
    ];
    for (color, index) in pairs {
        let mut t = TestTerm::new(2, 4);
        let styled = StyledText::from(Span::new("x", Style::default().fg(color).bg(color)));
        let desired = layout_lines(&styled, 4);
        t.show(&desired, (0, 1));
        let x = t.term.screen().cell(0, 0).unwrap();
        assert_eq!(x.fgcolor(), vt100::Color::Idx(index));
        assert_eq!(x.bgcolor(), vt100::Color::Idx(index));
    }
}

// --- several zones ---

fn build_prompt_layout(
    above: &str,
    left: &str,
    input: &str,
    right: &str,
    width: usize,
) -> (Vec<Vec<Cell>>, (usize, usize)) {
    let mut desired: Vec<Vec<Cell>> = Vec::new();
    let above_row_count;

    if above.is_empty() {
        above_row_count = 0;
    } else {
        let above_styled: StyledText = above.into();
        desired.extend(layout_lines(&above_styled, width));
        above_row_count = desired.len();
    }

    let content = format!("{left}{input}");
    let content_styled: StyledText = content.into();
    let mut input_lines = layout_lines(&content_styled, width);

    if !right.is_empty() && !input_lines.is_empty() {
        let first = &input_lines[0];
        let right_styled: StyledText = right.into();
        let right_cells = right_styled.to_cells();
        let needed = first.len() + 1 + right_cells.len();
        if needed <= width && input_lines.len() == 1 {
            let padding = width - first.len() - right_cells.len();
            let mut padded = first.clone();
            padded.extend(std::iter::repeat(Cell::plain(' ')).take(padding));
            padded.extend(right_cells);
            input_lines[0] = padded;
        }
    }

    desired.extend(input_lines);

    let cursor_chars = left.chars().count() + input.chars().count();
    let cursor_row = above_row_count + cursor_chars / width;
    let cursor_col = cursor_chars % width;

    (desired, (cursor_row, cursor_col))
}

#[test]
fn above_prompt_renders_before_input() {
    let mut t = TestTerm::new(24, 40);
    let (lines, cursor) = build_prompt_layout("status line", "> ", "hello", "", 40);
    t.show(&lines, cursor);

    assert_eq!(t.row_text(0), "status line");
    assert_eq!(t.row_text(1), "> hello");
    assert_eq!(t.cursor(), (1, 7));
}

#[test]
fn multi_line_above_prompt() {
    let mut t = TestTerm::new(24, 40);
    let (lines, cursor) = build_prompt_layout("line one\nline two", "> ", "hi", "", 40);
    t.show(&lines, cursor);

    assert_eq!(t.row_text(0), "line one");
    assert_eq!(t.row_text(1), "line two");
    assert_eq!(t.row_text(2), "> hi");
    assert_eq!(t.cursor(), (2, 4));
}

#[test]
fn right_prompt_shown_when_space_available() {
    let mut t = TestTerm::new(24, 40);
    let (lines, cursor) = build_prompt_layout("", "> ", "hi", "[ok]", 40);
    t.show(&lines, cursor);

    let row = t.row_text(0);
    assert!(row.starts_with("> hi"), "row: {row:?}");
    assert!(row.ends_with("[ok]"), "row: {row:?}");
    assert_eq!(row.len(), 40);
}

#[test]
fn right_prompt_hidden_when_input_too_long() {
    let mut t = TestTerm::new(24, 20);
    let (lines, cursor) = build_prompt_layout("", "> ", "abcdefghijklmno", "[ok]", 20);
    t.show(&lines, cursor);

    let row = t.row_text(0);
    assert!(
        !row.contains("[ok]"),
        "right prompt should be hidden, row: {row:?}"
    );
    assert!(row.starts_with("> abcdefghijklmno"), "row: {row:?}");
}

#[test]
fn right_prompt_hidden_when_input_wraps() {
    let mut t = TestTerm::new(24, 10);
    let (lines, cursor) = build_prompt_layout("", "> ", "abcdefghij", "[x]", 10);
    t.show(&lines, cursor);

    let row0 = t.row_text(0);
    let row1 = t.row_text(1);
    assert!(!row0.contains("[x]"), "row0: {row0:?}");
    assert_eq!(row1, "ij");
}

#[test]
fn all_three_zones_together() {
    let mut t = TestTerm::new(24, 40);
    let (lines, cursor) = build_prompt_layout("tau v0.1", "$ ", "ls", "[main]", 40);
    t.show(&lines, cursor);

    assert_eq!(t.row_text(0), "tau v0.1");
    let prompt_row = t.row_text(1);
    assert!(prompt_row.starts_with("$ ls"), "row: {prompt_row:?}");
    assert!(prompt_row.ends_with("[main]"), "row: {prompt_row:?}");
    assert_eq!(t.cursor(), (1, 4));
}

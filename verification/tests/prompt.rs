use tau::line::{
    char_count_for_bytes, char_offset_to_byte, next_char_boundary, prev_char_boundary, Line,
};
use tau::prompt::{Prompt, PromptResult, PromptStep, UiEvent};
use tau::screen::Screen;
use tau::style::{Color, Span, Style, StyledText};
use tau::table::TextMap;
use tau::term::{print_persistent, Event, KeyCode, KeyEvent, RawEvent, Term};
use tau::terminal::write_ops;
use tau::terminal::TermOp;
use tau::theme::{convert_color, convert_style, themed_block, ThemeColor, ThemeStyle};

fn key(code: KeyCode) -> KeyEvent {
    KeyEvent { code, ctrl: false }
}

fn ctrl(c: char) -> KeyEvent {
    KeyEvent { code: KeyCode::Char(c), ctrl: true }
}

fn new_term(width: usize) -> Term {
    Term::new(StyledText::from("> "), width)
}

fn type_text(term: &mut Term, text: &str) {
    for c in text.chars() {
        let r = term.get_next_event(Some(RawEvent::Key(key(KeyCode::Char(c)))));
        assert!(matches!(r.event, Some(Event::BufferChanged)));
        assert!(r.redraw);
    }
}

fn size(n: u16) -> std::num::NonZeroU16 {
    std::num::NonZeroU16::new(n).unwrap()
}

struct Shown {
    screen: Screen,
    parser: vt100::Parser,
}

impl Shown {
    fn new(rows: u16, cols: u16) -> Self {
        Shown { screen: Screen::new(cols as usize), parser: vt100::Parser::new(size(rows), size(cols), 0) }
    }

    fn feed(&mut self, ops: &[TermOp]) {
        let mut out = String::new();
        write_ops(&mut out, ops);
        self.parser.process(out.as_bytes());
    }

    fn rows(&self) -> Vec<String> {
        let width = self.parser.screen().size().1.get();
        let mut rows: Vec<String> = self.parser.screen().rows(0, width).collect();
        while rows.last().is_some_and(|r| r.is_empty()) {
            rows.pop();
        }
        rows
    }

    fn cursor(&self) -> (u16, u16) {
        self.parser.screen().cursor_position()
    }
}

// --- the line ---

#[test]
fn boundaries_step_over_whole_characters() {
    let s = "aäb";
    assert_eq!(next_char_boundary(s, 0), 1);
    assert_eq!(next_char_boundary(s, 1), 3);
    assert_eq!(next_char_boundary(s, 3), 4);
    assert_eq!(prev_char_boundary(s, 4), 3);
    assert_eq!(prev_char_boundary(s, 3), 1);
    assert_eq!(prev_char_boundary(s, 1), 0);
    assert_eq!(char_count_for_bytes(s, 3), 2);
    assert_eq!(char_offset_to_byte(s, 2), 3);
    assert_eq!(char_offset_to_byte(s, 9), 4);
}

#[test]
fn a_line_is_edited_at_its_cursor() {
    let mut line = Line::new();
    for c in "one two".chars() {
        line.insert(c);
    }
    assert!(line.cut_word());
    assert_eq!(line.text(), "one ");
    line.move_back();
    line.insert('ä');
    assert_eq!(line.text(), "oneä ");
    assert_eq!(line.chars_before(), 4);
    assert_eq!(line.cursor(), 5);
    assert!(line.cut_previous());
    assert!(line.cut_following());
    assert_eq!(line.text(), "one");
    assert!(!line.cut_following());
    line.move_to_start();
    assert!(!line.cut_previous());
    line.move_on();
    line.cut_to_start();
    assert_eq!(line.text(), "ne");
    assert_eq!(line.take(), "ne");
    assert!(line.is_empty());
}

// --- the terminal prompt ---

#[test]
fn typing_and_submitting_a_line() {
    let mut term = new_term(40);
    type_text(&mut term, "helo");
    term.handle_key(key(KeyCode::Left));
    type_text(&mut term, "l");
    assert_eq!(term.buffer(), "hello");
    assert_eq!(term.cursor_position(), 4);
    let r = term.handle_key(key(KeyCode::Enter));
    assert!(r.newline);
    match r.event {
        Some(Event::Line(line)) => assert_eq!(line, "hello"),
        other => panic!("expected a line, got {other:?}"),
    }
    assert_eq!(term.buffer(), "");
    let r = term.handle_key(ctrl('d'));
    assert!(matches!(r.event, Some(Event::Eof)));
}

#[test]
fn control_keys_edit_the_line() {
    let mut term = new_term(40);
    type_text(&mut term, "one two  ");
    term.handle_key(ctrl('w'));
    assert_eq!(term.buffer(), "one ");
    let r = term.handle_key(ctrl('d'));
    assert!(r.event.is_none());
    term.handle_key(ctrl('a'));
    assert_eq!(term.cursor_position(), 0);
    assert!(term.handle_key(key(KeyCode::Backspace)).event.is_none());
    term.handle_key(key(KeyCode::Delete));
    assert_eq!(term.buffer(), "ne ");
    term.handle_key(ctrl('e'));
    assert_eq!(term.cursor_position(), 3);
    term.handle_key(key(KeyCode::Home));
    term.handle_key(key(KeyCode::Right));
    term.handle_key(ctrl('u'));
    assert_eq!(term.buffer(), "e ");
    term.handle_key(ctrl('c'));
    assert_eq!(term.buffer(), "");
    let r = term.handle_key(key(KeyCode::Other));
    assert!(r.event.is_none() && !r.redraw);
}

#[test]
fn backspace_takes_back_what_was_typed() {
    let mut term = new_term(40);
    type_text(&mut term, "aä");
    type_text(&mut term, "x");
    term.handle_key(key(KeyCode::Backspace));
    assert_eq!(term.buffer(), "aä");
    assert_eq!(term.cursor_position(), 2);
}

#[test]
fn rows_are_changed_in_the_same_column() {
    let mut term = new_term(10);
    type_text(&mut term, "abcdefghijkl");
    assert_eq!(term.cursor_position(), 12);
    term.handle_key(key(KeyCode::Up));
    assert_eq!(term.cursor_position(), 2);
    term.handle_key(key(KeyCode::Up));
    assert_eq!(term.cursor_position(), 2);
    term.handle_key(key(KeyCode::Down));
    assert_eq!(term.cursor_position(), 12);
    term.handle_key(key(KeyCode::Home));
    term.handle_key(key(KeyCode::Down));
    assert_eq!(term.cursor_position(), 10);
    term.handle_key(key(KeyCode::Up));
    assert_eq!(term.cursor_position(), 0);
}

#[test]
fn no_key_moves_the_cursor_out_of_the_line() {
    let codes = [
        KeyCode::Left, KeyCode::Up, KeyCode::Char('ß'), KeyCode::Down, KeyCode::Right,
        KeyCode::Delete, KeyCode::Up, KeyCode::Backspace, KeyCode::End, KeyCode::Down,
        KeyCode::Home, KeyCode::Left, KeyCode::Backspace, KeyCode::Char('漢'), KeyCode::Up,
    ];
    for width in 1..6 {
        let mut term = new_term(width);
        type_text(&mut term, "aä漢字🦀b");
        for code in codes {
            term.handle_key(key(code));
            let before: String = term.buffer().chars().take(term.cursor_position()).collect();
            assert!(term.cursor_position() <= term.buffer().chars().count());
            assert!(term.buffer().is_char_boundary(before.len()));
        }
        assert!(term.buffer().contains('漢'));
    }
}

#[test]
fn right_takes_back_what_left_did() {
    let mut term = new_term(40);
    type_text(&mut term, "aä");
    term.handle_key(key(KeyCode::Left));
    assert_eq!(term.cursor_position(), 1);
    term.handle_key(key(KeyCode::Right));
    assert_eq!(term.cursor_position(), 2);
    assert_eq!(term.buffer(), "aä");
}

#[test]
fn keys_leave_the_zones_alone() {
    let mut term = new_term(20);
    term.set_above_prompt(StyledText::from("status"));
    term.set_below_prompt(StyledText::from("below"));
    let outer = |term: &Term| -> Vec<String> {
        let (rows, _) = term.compose(20);
        let shown = |r: &Vec<tau::style::Cell>| r.iter().map(|c| c.ch).collect();
        vec![shown(&rows[0]), shown(&rows[rows.len() - 1])]
    };
    for code in [KeyCode::Char('x'), KeyCode::Left, KeyCode::Delete, KeyCode::Up, KeyCode::Enter] {
        term.handle_key(key(code));
        assert_eq!(outer(&term), vec!["status", "below"]);
    }
}

#[test]
fn resizing_is_announced() {
    let mut term = new_term(10);
    let r = term.get_next_event(Some(RawEvent::Resize(33, 7)));
    assert!(matches!(r.event, Some(Event::Resize { width: 33, height: 7 })));
    assert_eq!(term.width(), 33);
    let r = term.get_next_event(None);
    assert!(matches!(r.event, Some(Event::Eof)));
}

#[test]
fn all_zones_are_drawn() {
    let mut term = new_term(20);
    term.set_above_prompt(StyledText::from("status"));
    term.set_right_prompt(StyledText::from("[r]"));
    term.set_below_prompt(StyledText::from("below"));
    type_text(&mut term, "ls");
    let mut shown = Shown::new(8, 20);
    let ops = term.render(&mut shown.screen);
    shown.feed(&ops);
    assert_eq!(shown.rows(), vec!["status", "> ls             [r]", "below"]);
    assert_eq!(shown.cursor(), (1, 4));

    term.set_left_prompt(StyledText::from("$ "));
    let ops = term.render(&mut shown.screen);
    shown.feed(&ops);
    assert_eq!(shown.rows()[1], "$ ls             [r]");

    let ops = print_persistent(&mut shown.screen, &StyledText::from("out\nput"));
    shown.feed(&ops);
    let ops = term.render(&mut shown.screen);
    shown.feed(&ops);
    assert_eq!(
        shown.rows(),
        vec!["out", "put", "status", "$ ls             [r]", "below"]
    );
}

// --- the plain prompt ---

fn keys(prompt: &mut Prompt, text: &str) -> PromptStep {
    let mut step = PromptStep { result: None, ops: Vec::new() };
    for c in text.chars() {
        step = prompt.handle_key(key(KeyCode::Char(c)));
    }
    step
}

#[test]
fn the_plain_prompt_is_drawn_on_one_line() {
    let mut prompt = Prompt::new("> ");
    let mut shown = Shown::new(6, 20);
    shown.feed(&prompt.draw_prompt());
    assert_eq!(shown.rows(), vec!["> "]);
    assert_eq!(shown.cursor(), (0, 2));
    let step = keys(&mut prompt, "hi");
    shown.feed(&step.ops);
    assert_eq!(shown.rows(), vec!["> hi"]);
    let step = prompt.read_line(Some(UiEvent::Output("one\ntwo".to_owned())));
    assert!(step.result.is_none());
    shown.feed(&step.ops);
    assert_eq!(shown.rows(), vec!["one", "two", "> hi"]);
    assert_eq!(shown.cursor(), (2, 4));
    let step = prompt.handle_key(key(KeyCode::Left));
    shown.feed(&step.ops);
    assert_eq!(shown.cursor(), (2, 3));
    let step = prompt.handle_key(key(KeyCode::Enter));
    match step.result {
        Some(PromptResult::Line(line)) => assert_eq!(line, "hi"),
        other => panic!("expected a line, got {other:?}"),
    }
}

#[test]
fn the_plain_prompt_ends() {
    let mut prompt = Prompt::new("> ");
    assert!(matches!(prompt.read_line(None).result, Some(PromptResult::Eof)));
    assert!(matches!(
        prompt.read_line(Some(UiEvent::Quit)).result,
        Some(PromptResult::Eof)
    ));
    assert!(matches!(prompt.handle_key(ctrl('d')).result, Some(PromptResult::Eof)));
    keys(&mut prompt, "x");
    assert!(prompt.handle_key(ctrl('d')).result.is_none());
    let step = prompt.handle_key(ctrl('c'));
    assert_eq!(&step.ops[..3], &[TermOp::Print('^'), TermOp::Print('C'), TermOp::NextLine]);
    let step = prompt.read_line(Some(UiEvent::Key(key(KeyCode::Up))));
    assert!(step.result.is_none() && step.ops.is_empty());
}

// --- styles ---

#[test]
fn styled_text_counts_its_characters() {
    let mut text = StyledText::new();
    assert!(text.is_empty());
    text.push(Span::plain("aä"));
    text.push(Span::new("b\n", Style::default().italic()));
    assert_eq!(text.char_count(), 4);
    assert_eq!(text.spans().len(), 2);
    assert!(!text.is_empty());
    assert_eq!(text.to_cells().len(), text.duplicate().to_cells().len());
}

#[test]
fn themes_become_styles() {
    let ts = ThemeStyle {
        fg: Some(ThemeColor::Red),
        bg: Some(ThemeColor::Rgb { r: 1, g: 2, b: 3 }),
        bold: true,
        underline: false,
        italic: true,
    };
    let style = convert_style(ts);
    assert_eq!(style.fg, Some(Color::Red));
    assert_eq!(style.bg, Some(Color::Rgb { r: 1, g: 2, b: 3 }));
    assert!(style.bold && style.italic && !style.underline);
    assert_eq!(convert_color(ThemeColor::DarkGrey), Color::DarkGrey);
    let block = themed_block(ts, "text");
    assert_eq!(block.background(), Some(Color::Rgb { r: 1, g: 2, b: 3 }));
    let span = &block.content().spans()[0];
    assert_eq!(span.text, "text");
    assert_eq!(span.style.bg, None);
    assert_eq!(span.style.fg, Some(Color::Red));
}

#[test]
fn tables_keep_their_keys_in_order() {
    let mut map: TextMap<String> = TextMap::new();
    for (k, v) in [("b", "1"), ("a", "2"), ("c", "3"), ("b", "4")] {
        map.insert(k.to_owned(), v.to_owned());
    }
    assert_eq!(map.len(), 3);
    assert_eq!(map.get("b").map(|s| s.as_str()), Some("4"));
    assert_eq!(map.entry(0).0, "a");
    assert!(map.remove("a"));
    assert!(!map.remove("a"));
    assert_eq!(map.into_values(), vec!["4", "3"]);
}

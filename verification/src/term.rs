//! Terminal prompt with asynchronous output.
//!
//! The prompt is composed of zones, from top to bottom: optional text above
//! it, a prefix before the user's input, text at the right edge of the input
//! line (hidden when the input would touch it), and optional text below.
//!
//! [`Term`] is the state that the input loop and the redraw loop share.
//! [`Term::handle_key`] edits it, [`Term::render`] shows it on a [`Screen`].

use crate::line::{is_boundary, lemma_word_is_cut, offset, Line, LineModel};
use crate::screen::{
    all_rows, at_least_one, diff_ops, emit_ops, emit_styled_cells, erase_ops, is_row, law_erase_clears,
    law_layout_fits, law_layout_keeps_cells, law_unbroken_text_fills_rows,
    law_update_shows_desired, layout, layout_lines, lemma_all_rows_add, lemma_all_rows_one,
    lemma_emit, lemma_erase_width, overwrite, row_views, rows_fit, stands_at, unbroken,
    Position, Screen, ScreenModel,
};
use crate::style::{
    cell, plain_style, raw_cells, span_cells, visible_cells, Cell, Span, SpanModel, StyledText,
};
use crate::terminal::{lemma_run_add, lemma_run_one, TermOp, Terminal};
use crate::text::{byte_len, is_white};
use vstd::prelude::*;

verus! {

// ---------------------------------------------------------------------------
// Events
// ---------------------------------------------------------------------------

/// The key of a key event.
#[derive(Clone, Copy, PartialEq, Eq, Structural, Debug)]
pub enum KeyCode {
    Enter,
    Char(char),
    Backspace,
    Delete,
    Left,
    Right,
    Up,
    Down,
    Home,
    End,
    /// Any other key.
    Other,
}

/// A key press.
#[derive(Clone, Copy, PartialEq, Eq, Structural, Debug)]
pub struct KeyEvent {
    pub code: KeyCode,
    /// Whether the control key is held.
    pub ctrl: bool,
}

/// What the terminal reports.
#[derive(Clone, Copy, PartialEq, Eq, Structural, Debug)]
pub enum RawEvent {
    Key(KeyEvent),
    Resize(u16, u16),
}

/// High-level events surfaced to the downstream event loop.
#[derive(Debug)]
pub enum Event {
    /// The user submitted a line (pressed Enter).
    Line(String),
    /// The user signalled the end of input (Ctrl-D on an empty line).
    Eof,
    /// The terminal was resized.
    Resize { width: u16, height: u16 },
    /// The input buffer changed (character inserted, deleted, cleared).
    BufferChanged,
}

/// What an [`Event`] says.
#[verifier::ext_equal]
pub enum EventModel {
    Line(Seq<char>),
    Eof,
    Resize { width: u16, height: u16 },
    BufferChanged,
}

impl View for Event {
    type V = EventModel;

    open spec fn view(&self) -> EventModel {
        match self {
            Event::Line(s) => EventModel::Line(s@),
            Event::Eof => EventModel::Eof,
            Event::Resize { width, height } => EventModel::Resize { width: *width, height: *height },
            Event::BufferChanged => EventModel::BufferChanged,
        }
    }
}

/// The model of an optional event.
pub open spec fn event_view(e: Option<Event>) -> Option<EventModel> {
    match e {
        Some(e) => Some(e@),
        None => None,
    }
}

/// What is to be done after an input was handled.
#[derive(Debug)]
pub struct Reaction {
    /// The event to hand downstream, if any.
    pub event: Option<Event>,
    /// Whether the prompt has to be drawn again.
    pub redraw: bool,
    /// Whether the prompt line is left behind: an empty persistent output
    /// has to be printed.
    pub newline: bool,
}

/// What a [`Reaction`] says.
#[verifier::ext_equal]
pub struct ReactionModel {
    pub event: Option<EventModel>,
    pub redraw: bool,
    pub newline: bool,
}

impl View for Reaction {
    type V = ReactionModel;

    open spec fn view(&self) -> ReactionModel {
        ReactionModel {
            event: event_view(self.event),
            redraw: self.redraw,
            newline: self.newline,
        }
    }
}

/// Nothing happened.
pub open spec fn ignored() -> ReactionModel {
    ReactionModel { event: None, redraw: false, newline: false }
}

/// Only the display changed.
pub open spec fn redrawn() -> ReactionModel {
    ReactionModel { event: None, redraw: true, newline: false }
}

/// The buffer changed.
pub open spec fn buffer_changed() -> ReactionModel {
    ReactionModel { event: Some(EventModel::BufferChanged), redraw: true, newline: false }
}

// ---------------------------------------------------------------------------
// State
// ---------------------------------------------------------------------------

/// What a [`Term`] holds.
#[verifier::ext_equal]
pub struct TermModel {
    pub above: Seq<SpanModel>,
    pub left: Seq<SpanModel>,
    pub right: Seq<SpanModel>,
    pub below: Seq<SpanModel>,
    pub line: LineModel,
    pub width: nat,
}

/// The terminal prompt: its zones, the input line and the terminal width.
pub struct Term {
    above_prompt: StyledText,
    left_prompt: StyledText,
    right_prompt: StyledText,
    below_prompt: StyledText,
    line: Line,
    width: usize,
}

impl View for Term {
    type V = TermModel;

    closed spec fn view(&self) -> TermModel {
        TermModel {
            above: self.above_prompt@,
            left: self.left_prompt@,
            right: self.right_prompt@,
            below: self.below_prompt@,
            line: self.line@,
            width: self.width as nat,
        }
    }
}

impl TermModel {
    /// Number of characters in the input area: prefix and input.
    pub open spec fn total_chars(self) -> int {
        raw_cells(self.left).len() as int + self.line.text.len()
    }

    /// Number of characters of the input area before the cursor.
    pub open spec fn cursor_chars(self) -> int {
        raw_cells(self.left).len() + self.line.at
    }

    /// The cursor position one row further up (`delta` is -1) or down (`delta`
    /// is 1) in the same column, where the input area has such a row.
    pub open spec fn vertical_target(self, delta: int) -> Option<int> {
        let width = self.width as int;
        let row = self.cursor_chars() / width + delta;
        let col = self.cursor_chars() % width;
        let total = self.total_chars();
        let last_row = if total == 0 {
            0
        } else {
            (total - 1) / width
        };
        if row < 0 || row > last_row {
            None
        } else {
            let target = if row * width + col < total {
                row * width + col
            } else {
                total
            };
            let left = raw_cells(self.left).len() as int;
            Some(
                if target > left {
                    target - left
                } else {
                    0
                },
            )
        }
    }

    /// With another input line.
    pub open spec fn with_line(self, line: LineModel) -> TermModel {
        TermModel { line, ..self }
    }

    /// The cursor moved by rows, where that is possible.
    pub open spec fn moved_vertically(self, delta: int) -> TermModel {
        match self.vertical_target(delta) {
            Some(at) => self.with_line(self.line.moved(at)),
            None => self,
        }
    }

    /// What a key does: the new state and the reaction.
    pub open spec fn after_key(self, key: KeyEvent) -> (TermModel, ReactionModel) {
        let line = self.line;
        let end = line.text.len() as int;
        let empty = LineModel { text: Seq::empty(), at: 0 };
        match key.code {
            KeyCode::Enter => (
                self.with_line(empty),
                ReactionModel {
                    event: Some(EventModel::Line(line.text)),
                    redraw: true,
                    newline: true,
                },
            ),
            KeyCode::Char(c) => if key.ctrl && c == 'd' {
                if end == 0 {
                    (
                        self,
                        ReactionModel {
                            event: Some(EventModel::Eof),
                            redraw: true,
                            newline: true,
                        },
                    )
                } else {
                    (self, ignored())
                }
            } else if key.ctrl && c == 'c' {
                (self.with_line(empty), buffer_changed())
            } else if key.ctrl && c == 'u' {
                (self.with_line(line.cut_back_to(0)), buffer_changed())
            } else if key.ctrl && c == 'w' {
                if line.at > 0 {
                    (self.with_line(line.cut_back_to(line.word_start())), buffer_changed())
                } else {
                    (self, ignored())
                }
            } else if key.ctrl && c == 'a' {
                (self.with_line(line.moved(0)), redrawn())
            } else if key.ctrl && c == 'e' {
                (self.with_line(line.moved(end)), redrawn())
            } else {
                (self.with_line(line.inserted(c)), buffer_changed())
            },
            KeyCode::Backspace => if line.at > 0 {
                (self.with_line(line.cut_back_to(line.at - 1)), buffer_changed())
            } else {
                (self, ignored())
            },
            KeyCode::Delete => if line.at < end {
                (self.with_line(line.cut_next()), buffer_changed())
            } else {
                (self, ignored())
            },
            KeyCode::Left => (
                if line.at > 0 {
                    self.with_line(line.moved(line.at - 1))
                } else {
                    self
                },
                redrawn(),
            ),
            KeyCode::Right => (
                if line.at < end {
                    self.with_line(line.moved(line.at + 1))
                } else {
                    self
                },
                redrawn(),
            ),
            KeyCode::Up => (self.moved_vertically(-1), redrawn()),
            KeyCode::Down => (self.moved_vertically(1), redrawn()),
            KeyCode::Home => (self.with_line(line.moved(0)), redrawn()),
            KeyCode::End => (self.with_line(line.moved(end)), redrawn()),
            KeyCode::Other => (self, ignored()),
        }
    }
}

impl Reaction {
    fn ignored() -> (r: Self)
        ensures
            r@ == ignored(),
    {
        Reaction { event: None, redraw: false, newline: false }
    }

    fn redrawn() -> (r: Self)
        ensures
            r@ == redrawn(),
    {
        Reaction { event: None, redraw: true, newline: false }
    }

    fn buffer_changed() -> (r: Self)
        ensures
            r@ == buffer_changed(),
    {
        Reaction { event: Some(Event::BufferChanged), redraw: true, newline: false }
    }
}

impl Term {
    /// Whether the cursor stands in the input line.
    pub closed spec fn wf(self) -> bool {
        self.line.wf()
    }

    /// What [`Term::wf`] gives: the cursor position lies in the input line.
    pub proof fn lemma_wf(self)
        requires
            self.wf(),
        ensures
            self@.line.wf(),
    {
        self.line.lemma_wf();
    }

    /// A prompt with the given prefix and nothing else.
    pub fn new(left_prompt: StyledText, width: usize) -> (t: Self)
        ensures
            t.wf(),
            t@ == (TermModel {
                above: Seq::empty(),
                left: left_prompt@,
                right: Seq::empty(),
                below: Seq::empty(),
                line: LineModel { text: Seq::empty(), at: 0 },
                width: width as nat,
            }),
    {
        Term {
            above_prompt: StyledText::new(),
            left_prompt,
            right_prompt: StyledText::new(),
            below_prompt: StyledText::new(),
            line: Line::new(),
            width,
        }
    }

    /// Updates the zone above the prompt.
    pub fn set_above_prompt(&mut self, text: StyledText)
        requires
            old(self).wf(),
        ensures
            final(self).wf(),
            final(self)@ == (TermModel { above: text@, ..old(self)@ }),
    {
        self.above_prompt = text;
    }

    /// Updates the prefix of the input line.
    pub fn set_left_prompt(&mut self, text: StyledText)
        requires
            old(self).wf(),
        ensures
            final(self).wf(),
            final(self)@ == (TermModel { left: text@, ..old(self)@ }),
    {
        self.left_prompt = text;
    }

    /// Updates the text at the right edge.
    pub fn set_right_prompt(&mut self, text: StyledText)
        requires
            old(self).wf(),
        ensures
            final(self).wf(),
            final(self)@ == (TermModel { right: text@, ..old(self)@ }),
    {
        self.right_prompt = text;
    }

    /// Updates the zone below the prompt.
    pub fn set_below_prompt(&mut self, text: StyledText)
        requires
            old(self).wf(),
        ensures
            final(self).wf(),
            final(self)@ == (TermModel { below: text@, ..old(self)@ }),
    {
        self.below_prompt = text;
    }

    /// The terminal width.
    pub fn width(&self) -> (w: usize)
        ensures
            w == self@.width,
    {
        self.width
    }

    /// The input.
    pub fn buffer(&self) -> (s: &str)
        ensures
            s@ == self@.line.text,
    {
        self.line.text()
    }

    /// Number of characters of the input before the cursor.
    pub fn cursor_position(&self) -> (n: usize)
        requires
            self.wf(),
        ensures
            n == self@.line.at,
    {
        self.line.chars_before()
    }

    /// Handles one report of the terminal; `None` says that there will be no
    /// more of them.
    pub fn get_next_event(&mut self, raw: Option<RawEvent>) -> (r: Reaction)
        requires
            old(self).wf(),
            raw matches Some(RawEvent::Key(key)) && (key.code is Up || key.code is Down) ==> old(
                self,
            )@.width > 0,
        ensures
            final(self).wf(),
            match raw {
                None => final(self)@ == old(self)@ && r@ == (ReactionModel {
                    event: Some(EventModel::Eof),
                    redraw: false,
                    newline: false,
                }),
                Some(RawEvent::Key(key)) => (final(self)@, r@) == old(self)@.after_key(key),
                Some(RawEvent::Resize(w, h)) => final(self)@ == (TermModel {
                    width: w as nat,
                    ..old(self)@
                }) && r@ == (ReactionModel {
                    event: Some(EventModel::Resize { width: w, height: h }),
                    redraw: true,
                    newline: false,
                }),
            },
    {
        match raw {
            None => Reaction { event: Some(Event::Eof), redraw: false, newline: false },
            Some(RawEvent::Key(key)) => self.handle_key(key),
            Some(RawEvent::Resize(w, h)) => {
                self.width = w as usize;
                Reaction {
                    event: Some(Event::Resize { width: w, height: h }),
                    redraw: true,
                    newline: false,
                }
            },
        }
    }

    /// Handles one key.
    pub fn handle_key(&mut self, key: KeyEvent) -> (r: Reaction)
        requires
            old(self).wf(),
            key.code is Up || key.code is Down ==> old(self)@.width > 0,
        ensures
            final(self).wf(),
            (final(self)@, r@) == old(self)@.after_key(key),
    {
        proof {
            self.line.lemma_wf();
        }
        match key.code {
            KeyCode::Enter => {
                let line = self.line.take();
                Reaction { event: Some(Event::Line(line)), redraw: true, newline: true }
            },
            KeyCode::Char(c) => {
                if key.ctrl && c == 'd' {
                    if self.line.is_empty() {
                        Reaction { event: Some(Event::Eof), redraw: true, newline: true }
                    } else {
                        Reaction::ignored()
                    }
                } else if key.ctrl && c == 'c' {
                    self.line = Line::new();
                    Reaction::buffer_changed()
                } else if key.ctrl && c == 'u' {
                    self.line.cut_to_start();
                    Reaction::buffer_changed()
                } else if key.ctrl && c == 'w' {
                    if self.line.cut_word() {
                        Reaction::buffer_changed()
                    } else {
                        Reaction::ignored()
                    }
                } else if key.ctrl && c == 'a' {
                    self.line.move_to_start();
                    Reaction::redrawn()
                } else if key.ctrl && c == 'e' {
                    self.line.move_to_end();
                    Reaction::redrawn()
                } else {
                    self.line.insert(c);
                    Reaction::buffer_changed()
                }
            },
            KeyCode::Backspace => {
                if self.line.cut_previous() {
                    Reaction::buffer_changed()
                } else {
                    Reaction::ignored()
                }
            },
            KeyCode::Delete => {
                if self.line.cut_following() {
                    Reaction::buffer_changed()
                } else {
                    Reaction::ignored()
                }
            },
            KeyCode::Left => {
                self.line.move_back();
                Reaction::redrawn()
            },
            KeyCode::Right => {
                self.line.move_on();
                Reaction::redrawn()
            },
            KeyCode::Up => {
                if let Some(at) = self.move_cursor_vertical(true) {
                    self.line.move_to(at);
                }
                Reaction::redrawn()
            },
            KeyCode::Down => {
                if let Some(at) = self.move_cursor_vertical(false) {
                    self.line.move_to(at);
                }
                Reaction::redrawn()
            },
            KeyCode::Home => {
                self.line.move_to_start();
                Reaction::redrawn()
            },
            KeyCode::End => {
                self.line.move_to_end();
                Reaction::redrawn()
            },
            KeyCode::Other => Reaction::ignored(),
        }
    }

    /// The character position of the cursor one physical row further up or
    /// down.
    fn move_cursor_vertical(&self, up: bool) -> (at: Option<usize>)
        requires
            self.wf(),
            self@.width > 0,
        ensures
            at matches Some(n) ==> n <= self@.line.text.len(),
            match at {
                Some(n) => self@.vertical_target(
                    if up {
                        -1
                    } else {
                        1
                    },
                ) == Some(n as int),
                None => self@.vertical_target(
                    if up {
                        -1
                    } else {
                        1
                    },
                ) is None,
            },
    {
        proof {
            self.line.lemma_wf();
        }
        let width: u128 = self.width as u128;
        let left_chars: u128 = self.left_prompt.char_count() as u128;
        let cursor_chars: u128 = left_chars + self.line.chars_before() as u128;
        let current_row: u128 = cursor_chars / width;
        let current_col: u128 = cursor_chars % width;
        let total_chars: u128 = left_chars + self.line.char_count() as u128;
        let max_row: u128 = if total_chars == 0 {
            0
        } else {
            (total_chars - 1) / width
        };
        proof {
            lemma_rows_fit(cursor_chars as int, total_chars as int, width as int);
        }
        let target_row: u128 = if up {
            if current_row == 0 {
                return None;
            }
            current_row - 1
        } else {
            current_row + 1
        };
        if target_row > max_row {
            return None;
        }
        proof {
            lemma_row_start(target_row as int, max_row as int, total_chars as int, width as int);
        }
        let mut target: u128 = target_row * width + current_col;
        if target > total_chars {
            target = total_chars;
        }
        Some(
            if target > left_chars {
                (target - left_chars) as usize
            } else {
                0
            },
        )
    }
}

proof fn lemma_rows_fit(cursor: int, total: int, width: int)
    requires
        0 <= cursor <= total,
        width > 0,
    ensures
        0 <= cursor / width <= cursor,
        0 <= cursor % width < width,
{
    assert(0 <= cursor / width <= cursor && 0 <= cursor % width < width) by (nonlinear_arith)
        requires
            0 <= cursor,
            width > 0,
    ;
}

proof fn lemma_row_start(row: int, last_row: int, total: int, width: int)
    requires
        0 <= row <= last_row,
        width > 0,
        last_row == if total == 0 {
            0
        } else {
            (total - 1) / width
        },
        total >= 0,
    ensures
        0 <= row * width <= total,
{
    assert(0 <= row * width <= last_row * width) by (nonlinear_arith)
        requires
            0 <= row <= last_row,
            width > 0,
    ;
    if total > 0 {
        assert(((total - 1) / width) * width <= total - 1) by (nonlinear_arith)
            requires
                total > 0,
                width > 0,
        ;
    } else {
        assert(last_row * width == 0);
    }
}

// ---------------------------------------------------------------------------
// Rendering
// ---------------------------------------------------------------------------

/// The rows of a zone that takes no row when it is empty.
pub open spec fn zone_rows(text: Seq<SpanModel>, width: nat) -> Seq<Seq<Cell>> {
    if raw_cells(text).len() == 0 {
        Seq::empty()
    } else {
        layout(raw_cells(text), width)
    }
}

/// `n` blank cells.
pub open spec fn blanks(n: nat) -> Seq<Cell> {
    Seq::new(n, |i: int| cell(' ', plain_style()))
}

/// The row `first` with `right` at the right edge of the terminal.
pub open spec fn justified(first: Seq<Cell>, right: Seq<Cell>, width: nat) -> Seq<Cell> {
    first + blanks((width - first.len() - right.len()) as nat) + right
}

impl TermModel {
    /// The rows of prefix and input.
    pub open spec fn input_rows(self, width: nat) -> Seq<Seq<Cell>> {
        layout(raw_cells(self.left.push((self.line.text, plain_style()))), width)
    }

    /// Whether the text at the right edge is shown: there is one, the input
    /// takes one row, and at least one blank is left between the two.
    pub open spec fn right_prompt_shown(self, width: nat) -> bool {
        let rows = self.input_rows(width);
        raw_cells(self.right).len() > 0 && rows.len() == 1 && rows[0].len() + 1 + visible_cells(
            raw_cells(self.right),
        ).len() <= width
    }

    /// All rows of the prompt on a terminal of the given width.
    pub open spec fn rows(self, width: nat) -> Seq<Seq<Cell>> {
        let input = self.input_rows(width);
        let shown = if self.right_prompt_shown(width) {
            seq![justified(input[0], visible_cells(raw_cells(self.right)), width)]
        } else {
            input
        };
        zone_rows(self.above, width) + shown + zone_rows(self.below, width)
    }

    /// Where the cursor is shown.
    pub open spec fn cursor(self, width: nat) -> Position {
        (
            (zone_rows(self.above, width).len() + self.cursor_chars() / (width as int)) as nat,
            (self.cursor_chars() % (width as int)) as nat,
        )
    }
}

/// Appends rows.
fn extend_rows(rows: &mut Vec<Vec<Cell>>, more: Vec<Vec<Cell>>)
    ensures
        row_views(final(rows)@) == row_views(old(rows)@) + row_views(more@),
{
    let ghost start = rows@;
    let mut more = more;
    let ghost all = more@;
    rows.append(&mut more);
    proof {
        assert(row_views(rows@) =~= row_views(start) + row_views(all));
    }
}

/// `first`, then blanks, then `right`, `width` cells in all.
fn justify(first: &[Cell], right: &[Cell], width: usize) -> (row: Vec<Cell>)
    requires
        first@.len() + right@.len() <= width,
    ensures
        row@ == justified(first@, right@, width as nat),
{
    let mut row: Vec<Cell> = Vec::new();
    let mut i: usize = 0;
    while i < first.len()
        invariant
            i <= first@.len(),
            row@ == first@.take(i as int),
        decreases first@.len() - i,
    {
        row.push(first[i]);
        i = i + 1;
    }
    let padding: usize = width - first.len() - right.len();
    let mut k: usize = 0;
    proof {
        assert(row@ =~= first@ + blanks(0));
    }
    while k < padding
        invariant
            k <= padding,
            row@ == first@ + blanks(k as nat),
        decreases padding - k,
    {
        row.push(Cell::plain(' '));
        proof {
            assert((first@ + blanks(k as nat)).push(cell(' ', plain_style())) =~= first@ + blanks(
                (k + 1) as nat,
            ));
        }
        k = k + 1;
    }
    let mut j: usize = 0;
    let ghost padded = row@;
    proof {
        assert(row@ =~= padded + right@.take(0));
    }
    while j < right.len()
        invariant
            j <= right@.len(),
            row@ == padded + right@.take(j as int),
        decreases right@.len() - j,
    {
        row.push(right[j]);
        proof {
            assert((padded + right@.take(j as int)).push(right@[j as int]) =~= padded
                + right@.take(j + 1));
        }
        j = j + 1;
    }
    proof {
        assert(right@.take(j as int) =~= right@);
    }
    row
}

impl Term {
    /// The rows of the prompt and the cursor position on a terminal of the
    /// given width.
    pub fn compose(&self, width: usize) -> (r: (Vec<Vec<Cell>>, (usize, usize)))
        requires
            self.wf(),
            width > 0,
            self@.total_chars() + zone_rows(self@.above, width as nat).len() <= usize::MAX,
        ensures
            row_views(r.0@) == self@.rows(width as nat),
            r.1.0 == self@.cursor(width as nat).0,
            r.1.1 == self@.cursor(width as nat).1,
    {
        let mut desired: Vec<Vec<Cell>> = Vec::new();
        proof {
            self.line.lemma_wf();
            assert(row_views(desired@) =~= Seq::<Seq<Cell>>::empty());
        }
        if !self.above_prompt.is_empty() {
            extend_rows(&mut desired, layout_lines(&self.above_prompt, width));
        }
        let above_row_count = desired.len();
        proof {
            assert(row_views(desired@) =~= zone_rows(self@.above, width as nat));
        }
        let mut input_content = self.left_prompt.duplicate();
        input_content.push(Span::plain(self.line.text()));
        let mut input_lines = layout_lines(&input_content, width);
        let ghost input = row_views(input_lines@);
        proof {
            assert(input == self@.input_rows(width as nat));
            assert(input.len() == input_lines@.len());
        }
        if !self.right_prompt.is_empty() && input_lines.len() == 1 {
            let right = self.right_prompt.to_cells();
            let first_len = input_lines[0].len();
            proof {
                assert(input[0] == input_lines@[0]@);
            }
            if first_len < width && right.len() <= width - first_len - 1 {
                let padded = justify(input_lines[0].as_slice(), right.as_slice(), width);
                input_lines = Vec::new();
                input_lines.push(padded);
                proof {
                    assert(row_views(input_lines@) =~= seq![padded@]);
                }
            }
        }
        extend_rows(&mut desired, input_lines);
        let left_chars = self.left_prompt.char_count();
        let cursor_chars: usize = left_chars + self.line.chars_before();
        proof {
            assert(0 <= cursor_chars as int / width as int <= cursor_chars) by (nonlinear_arith)
                requires
                    cursor_chars >= 0,
                    width > 0,
            ;
        }
        let cursor_row: usize = above_row_count + cursor_chars / width;
        let cursor_col: usize = cursor_chars % width;
        let ghost upper = row_views(desired@);
        if !self.below_prompt.is_empty() {
            extend_rows(&mut desired, layout_lines(&self.below_prompt, width));
        }
        proof {
            assert(row_views(desired@) =~= upper + zone_rows(self@.below, width as nat));
        }
        (desired, (cursor_row, cursor_col))
    }

    /// The commands that show the prompt on `screen`.
    pub fn render(&self, screen: &mut Screen) -> (ops: Vec<TermOp>)
        requires
            self.wf(),
            old(screen)@.wf(),
            self@.total_chars() + zone_rows(self@.above, old(screen)@.width).len() <= usize::MAX,
        ensures
            final(screen)@.wf(),
            ops@ == diff_ops(
                old(screen)@.width,
                old(screen)@.lines,
                old(screen)@.cursor,
                self@.rows(old(screen)@.width),
                self@.cursor(old(screen)@.width),
            ),
            final(screen)@ == (ScreenModel {
                lines: self@.rows(old(screen)@.width),
                cursor: self@.cursor(old(screen)@.width),
                ..old(screen)@
            }),
    {
        let width = screen.width();
        let (desired, cursor) = self.compose(width);
        let ops = screen.diff(desired.as_slice(), cursor);
        proof {
            law_layout_fits(
                raw_cells(self@.left.push((self@.line.text, plain_style()))),
                width as nat,
            );
        }
        ops
    }
}

/// The commands that write rows, each on its own line.
pub open spec fn rows_text_ops(rows: Seq<Seq<Cell>>) -> Seq<TermOp>
    decreases rows.len(),
{
    if rows.len() == 0 {
        Seq::empty()
    } else {
        rows_text_ops(rows.drop_last()) + emit_ops(rows.last()) + seq![TermOp::NextLine]
    }
}

/// The commands that print persistent output above the prompt area. Empty text
/// only starts a new line.
pub open spec fn persistent_ops(screen: ScreenModel, text: Seq<SpanModel>) -> Seq<TermOp> {
    erase_ops(screen.cursor) + if raw_cells(text).len() == 0 {
        seq![TermOp::NextLine]
    } else {
        rows_text_ops(layout(raw_cells(text), screen.width))
    }
}

/// The commands that print persistent output above the prompt area, which then
/// has to be drawn again.
pub fn print_persistent(screen: &mut Screen, text: &StyledText) -> (ops: Vec<TermOp>)
    requires
        old(screen)@.wf(),
    ensures
        ops@ == persistent_ops(old(screen)@, text@),
        final(screen)@ == (ScreenModel { lines: Seq::empty(), cursor: (0, 0), ..old(screen)@ }),
        final(screen)@.wf(),
{
    let mut ops = screen.erase_all();
    let ghost start = ops@;
    if text.is_empty() {
        ops.push(TermOp::NextLine);
        proof {
            assert(ops@ =~= start + seq![TermOp::NextLine]);
        }
    } else {
        let lines = layout_lines(text, screen.width());
        let ghost rows = row_views(lines@);
        let mut i: usize = 0;
        proof {
            assert(start + rows_text_ops(rows.take(0)) =~= start);
        }
        while i < lines.len()
            invariant
                i <= lines@.len(),
                rows == row_views(lines@),
                ops@ == start + rows_text_ops(rows.take(i as int)),
            decreases lines@.len() - i,
        {
            emit_styled_cells(&mut ops, lines[i].as_slice());
            ops.push(TermOp::NextLine);
            proof {
                assert(rows.take(i + 1).drop_last() =~= rows.take(i as int));
                assert(rows.take(i + 1).last() == lines@[i as int]@);
                assert(ops@ =~= start + rows_text_ops(rows.take(i + 1)));
            }
            i = i + 1;
        }
        proof {
            assert(rows.take(i as int) =~= rows);
        }
    }
    screen.invalidate();
    ops
}

// ---------------------------------------------------------------------------
// Laws
// ---------------------------------------------------------------------------

/// No key moves the cursor out of the input line, nor, counted in bytes, between
/// the bytes of a character.
pub proof fn law_cursor_stays_in_line(m: TermModel, key: KeyEvent)
    requires
        m.line.wf(),
        key.code is Up || key.code is Down ==> m.width > 0,
    ensures
        m.after_key(key).0.line.wf(),
        ({
            let after = m.after_key(key).0.line;
            let cursor = offset(after.text, after.at);
            cursor <= byte_len(after.text) && is_boundary(after.text, cursor as int)
        }),
{
    assert(raw_cells(m.left).len() >= 0);
    let before = m.line.text.take(m.line.at);
    crate::line::lemma_word_start(before);
    let after = m.after_key(key).0.line;
    crate::line::lemma_position(after.text, after.at);
    crate::line::lemma_offset_ends(after.text);
    if after.at < after.text.len() {
        crate::line::lemma_offset_grows(after.text, after.at, after.text.len() as int);
    }
}

/// Backspace takes back what typing a character did.
pub proof fn law_backspace_undoes_typing(m: TermModel, c: char)
    requires
        m.line.wf(),
    ensures
        m.after_key(KeyEvent { code: KeyCode::Char(c), ctrl: false }).0.after_key(
            KeyEvent { code: KeyCode::Backspace, ctrl: false },
        ).0 == m,
{
    let typed = m.after_key(KeyEvent { code: KeyCode::Char(c), ctrl: false }).0;
    assert(typed.line.cut_back_to(typed.line.at - 1).text =~= m.line.text);
}

/// Right takes back what Left did, unless the cursor was at the start.
pub proof fn law_right_undoes_left(m: TermModel)
    requires
        m.line.wf(),
        m.line.at > 0,
    ensures
        m.after_key(KeyEvent { code: KeyCode::Left, ctrl: false }).0.after_key(
            KeyEvent { code: KeyCode::Right, ctrl: false },
        ).0 == m,
{
}

/// A key changes nothing but the input line.
pub proof fn law_keys_keep_zones(m: TermModel, key: KeyEvent)
    ensures
        m.after_key(key).0 == m.with_line(m.after_key(key).0.line),
{
}

/// The buffer-changed event comes exactly when a key was an edit; a key without
/// it, and without a submitted line, keeps the text.
pub proof fn law_text_changes_are_announced(m: TermModel, key: KeyEvent)
    requires
        m.line.wf(),
    ensures
        m.after_key(key).0.line.text != m.line.text ==> m.after_key(key).1.event == Some(
            EventModel::BufferChanged,
        ) || m.after_key(key).1.event == Some(EventModel::Line(m.line.text)),
{
}

/// Every row of the prompt fits the terminal.
pub proof fn law_prompt_fits(m: TermModel, width: nat)
    requires
        width > 0,
    ensures
        rows_fit(m.rows(width), width),
        m.rows(width).len() > 0,
        m.cursor(width).1 < width,
{
    let text = raw_cells(m.left.push((m.line.text, plain_style())));
    law_layout_fits(text, width);
    law_layout_fits(raw_cells(m.above), width);
    law_layout_fits(raw_cells(m.below), width);
    let input = m.input_rows(width);
    let shown = if m.right_prompt_shown(width) {
        seq![justified(input[0], visible_cells(raw_cells(m.right)), width)]
    } else {
        input
    };
    let above = zone_rows(m.above, width);
    let below = zone_rows(m.below, width);
    assert forall|i: int| 0 <= i < m.rows(width).len() implies (#[trigger] m.rows(width)[i]).len()
        <= width by {
        if i < above.len() {
            assert(m.rows(width)[i] == above[i]);
        } else if i < above.len() + shown.len() {
            assert(m.rows(width)[i] == shown[i - above.len()]);
            if !m.right_prompt_shown(width) {
                assert(input[i - above.len()].len() <= at_least_one(width));
            }
        } else {
            assert(m.rows(width)[i] == below[i - above.len() - shown.len()]);
        }
    }
    assert(0 <= m.cursor_chars() % (width as int) < width) by (nonlinear_arith)
        requires
            width > 0,
    ;
}

/// Drawing the prompt shows its rows, with the cursor in the input line.
pub proof fn law_render_shows_prompt(t: Terminal, screen: ScreenModel, m: TermModel)
    requires
        screen.wf(),
        t.width == screen.width,
        t.width <= u16::MAX,
        t.shows(screen.lines),
        stands_at(t, screen.cursor),
        screen.cursor.0 <= u16::MAX,
        screen.cursor.1 <= t.width,
        rows_fit(screen.lines, t.width),
        m.rows(screen.width).len() <= u16::MAX,
    ensures
        t.run(
            diff_ops(
                screen.width,
                screen.lines,
                screen.cursor,
                m.rows(screen.width),
                m.cursor(screen.width),
            ),
        ).shows(m.rows(screen.width)),
        stands_at(
            t.run(
                diff_ops(
                    screen.width,
                    screen.lines,
                    screen.cursor,
                    m.rows(screen.width),
                    m.cursor(screen.width),
                ),
            ),
            m.cursor(screen.width),
        ),
{
    law_prompt_fits(m, screen.width);
    law_update_shows_desired(t, screen, m.rows(screen.width), m.cursor(screen.width));
}

/// Whether the terminal holds `rows` from the prompt's first row on and nothing
/// below, with the cursor at the start of the row after them.
pub open spec fn printed(t: Terminal, rows: Seq<Seq<Cell>>) -> bool {
    t.shows(rows) && stands_at(t, (rows.len(), 0))
}

proof fn lemma_rows_printed(t: Terminal, rows: Seq<Seq<Cell>>)
    requires
        printed(t, Seq::empty()),
        rows_fit(rows, t.width),
    ensures
        printed(t.run(rows_text_ops(rows)), rows),
        t.run(rows_text_ops(rows)).width == t.width,
    decreases rows.len(),
{
    if rows.len() > 0 {
        let before = rows.drop_last();
        let row = rows.last();
        let a = rows_text_ops(before);
        let b = emit_ops(row);
        let c = seq![TermOp::NextLine];
        assert(rows_fit(before, t.width)) by {
            assert forall|i: int| 0 <= i < before.len() implies (#[trigger] before[i]).len()
                <= t.width by {
                assert(before[i] == rows[i]);
            }
        }
        lemma_rows_printed(t, before);
        let t1 = t.run(a);
        assert(t1.content(t1.row) =~= Seq::<Cell>::empty());
        lemma_run_add(t, a + b, c);
        lemma_run_add(t, a, b);
        lemma_emit(t1, row);
        let t2 = t1.run(b);
        lemma_run_one(t2, TermOp::NextLine);
        let t3 = t2.step(TermOp::NextLine);
        assert forall|i: int| 0 <= i implies #[trigger] t3.content(i) == if i < rows.len() {
            rows[i]
        } else {
            Seq::empty()
        } by {
            assert(t3.content(i) == t2.content(i));
            assert(t2.content(i) == if i == t1.row {
                overwrite(t1.content(i), t1.col, row)
            } else {
                t1.content(i)
            });
            if i == t1.row {
                assert(overwrite(t1.content(i), 0, row) =~= row);
            } else {
                assert(t1.content(i) == t1.content(i));
            }
        }
    } else {
        assert(rows =~= Seq::<Seq<Cell>>::empty());
    }
}

/// Persistent output takes the place of the prompt: its rows stand where the
/// prompt started, nothing of the prompt is left, and the cursor is at the
/// start of the row below, where the prompt is drawn again. Empty output leaves
/// one empty row.
pub proof fn law_output_replaces_prompt(t: Terminal, screen: ScreenModel, text: Seq<SpanModel>)
    requires
        screen.wf(),
        t.width == screen.width,
        stands_at(t, screen.cursor),
        screen.cursor.0 <= u16::MAX,
    ensures
        printed(
            t.run(persistent_ops(screen, text)),
            if raw_cells(text).len() == 0 {
                seq![Seq::empty()]
            } else {
                layout(raw_cells(text), screen.width)
            },
        ),
{
    let a = erase_ops(screen.cursor);
    law_erase_clears(t, screen);
    let t1 = t.run(a);
    lemma_erase_width(t, screen.cursor);
    if raw_cells(text).len() == 0 {
        lemma_run_add(t, a, seq![TermOp::NextLine]);
        lemma_run_one(t1, TermOp::NextLine);
        let t2 = t1.step(TermOp::NextLine);
        let rows = seq![Seq::<Cell>::empty()];
        assert forall|i: int| 0 <= i implies #[trigger] t2.content(i) == if i < rows.len() {
            rows[i]
        } else {
            Seq::empty()
        } by {
            assert(t2.content(i) == t1.content(i));
        }
    } else {
        let rows = layout(raw_cells(text), screen.width);
        law_layout_fits(raw_cells(text), screen.width);
        assert(rows_fit(rows, t1.width));
        lemma_run_add(t, a, rows_text_ops(rows));
        lemma_rows_printed(t1, rows);
    }
}

/// Whether prefix and input are free of newlines.
pub open spec fn on_one_line(m: TermModel) -> bool {
    unbroken(raw_cells(m.left)) && !m.line.text.contains('\n')
}

/// The cells of the input.
pub open spec fn input_cells(m: TermModel) -> Seq<Cell> {
    Seq::new(m.line.text.len(), |i: int| cell(m.line.text[i], plain_style()))
}

proof fn lemma_input_area(m: TermModel)
    ensures
        raw_cells(m.left.push((m.line.text, plain_style()))) == raw_cells(m.left) + input_cells(m),
        on_one_line(m) ==> unbroken(raw_cells(m.left) + input_cells(m)),
{
    let all = m.left.push((m.line.text, plain_style()));
    assert(all.drop_last() =~= m.left);
    assert(all.last() == (m.line.text, plain_style()));
    assert(span_cells(all.last()) =~= input_cells(m));
    if on_one_line(m) {
        let cells = raw_cells(m.left) + input_cells(m);
        assert forall|i: int| 0 <= i < cells.len() implies (#[trigger] cells[i]).ch != '\n' by {
            if i < raw_cells(m.left).len() {
                assert(cells[i] == raw_cells(m.left)[i]);
            } else {
                let j = i - raw_cells(m.left).len();
                assert(cells[i] == input_cells(m)[j]);
                assert(input_cells(m)[j].ch == m.line.text[j]);
                if m.line.text[j] == '\n' {
                    assert(m.line.text.contains('\n'));
                }
            }
        }
    }
}

proof fn lemma_full_rows(rows: Seq<Seq<Cell>>, width: nat)
    requires
        forall|i: int| 0 <= i < rows.len() ==> (#[trigger] rows[i]).len() == width,
    ensures
        all_rows(rows).len() == rows.len() * width,
    decreases rows.len(),
{
    if rows.len() > 0 {
        let front = rows.drop_last();
        assert forall|i: int| 0 <= i < front.len() implies (#[trigger] front[i]).len() == width by {
            assert(front[i] == rows[i]);
        }
        lemma_full_rows(front, width);
        assert(rows[rows.len() - 1].len() == width);
        let n = rows.len() as int;
        assert((n - 1) * width + width == n * width) by (nonlinear_arith);
    } else {
        assert(0 * width == 0) by (nonlinear_arith);
    }
}

/// The cursor is shown where the input is edited: as many cells of prefix and input
/// stand before it as the prefix and the input before the cursor have characters, and
/// the cell under it is the character that follows the cursor in the input.
pub proof fn law_cursor_is_shown_where_input_is_edited(m: TermModel, width: nat)
    requires
        width > 0,
        m.line.wf(),
        on_one_line(m),
    ensures
        ({
            let top = zone_rows(m.above, width).len() as int;
            let rows = m.rows(width);
            let (r, c) = (m.cursor(width).0 as int, m.cursor(width).1 as int);
            &&& top <= r <= rows.len()
            &&& 0 <= c < width
            &&& all_rows(rows.subrange(top, r)).len() + c == raw_cells(m.left).len() + m.line.at
            &&& m.line.at < m.line.text.len() ==> r < rows.len() && c < rows[r].len()
                && rows[r][c] == cell(m.line.text[m.line.at], plain_style())
            &&& m.line.at > 0 && c > 0 ==> r < rows.len() && c <= rows[r].len() && rows[r][c - 1]
                == cell(m.line.text[m.line.at - 1], plain_style())
        }),
{
    let w = width as int;
    let top = zone_rows(m.above, width).len() as int;
    let rows = m.rows(width);
    let cells = raw_cells(m.left) + input_cells(m);
    let input = m.input_rows(width);
    lemma_input_area(m);
    law_unbroken_text_fills_rows(cells, width);
    let total = cells.len() as int;
    let left = raw_cells(m.left).len() as int;
    let q = left + m.line.at;
    let d = q / w;
    let c = q % w;
    assert(0 <= c < w && q == d * w + c && 0 <= d) by (nonlinear_arith)
        requires
            w > 0,
            q >= 0,
            d == q / w,
            c == q % w,
    ;
    assert(0 <= q <= total);
    let shown = if m.right_prompt_shown(width) {
        seq![justified(input[0], visible_cells(raw_cells(m.right)), width)]
    } else {
        input
    };
    assert(shown.len() == input.len());
    let lines = input.len() as int;
    assert(d <= lines) by {
        if total > 0 {
            assert(d <= (total - 1) / w + 1) by (nonlinear_arith)
                requires
                    w > 0,
                    0 <= q <= total,
                    total > 0,
                    d == q / w,
            ;
        } else {
            assert(d == 0) by (nonlinear_arith)
                requires
                    w > 0,
                    q == 0,
                    d == q / w,
            ;
        }
    }
    if m.right_prompt_shown(width) {
        assert(is_row(cells, width, 0, input[0]));
        assert(0 * w == 0 && (0 + 1) * w == w) by (nonlinear_arith);
        assert(total < w);
        assert(input[0] =~= cells);
        assert(d == 0) by (nonlinear_arith)
            requires
                w > 0,
                0 <= q < w,
                d == q / w,
        ;
    }
    // The rows before the cursor are full.
    let over = rows.subrange(top, top + d);
    assert forall|i: int| 0 <= i < over.len() implies (#[trigger] over[i]).len() == width by {
        assert(over[i] == rows[top + i]);
        assert(rows[top + i] == shown[i]);
        assert(is_row(cells, width, i, input[i]));
        assert((i + 1) * w <= q && (i + 1) * w == i * w + w) by (nonlinear_arith)
            requires
                w > 0,
                0 <= i < d,
                q == d * w + c,
                c >= 0,
        ;
    }
    lemma_full_rows(over, width);
    // The cursor's own row.
    if d < lines {
        assert(rows[top + d] == shown[d]);
        assert(is_row(cells, width, d, input[d]));
        assert((d + 1) * w == d * w + w) by (nonlinear_arith);
        let row = rows[top + d];
        assert forall|k: int| 0 <= k < input[d].len() implies #[trigger] row[k] == input[d][k] by {}
        if m.line.at < m.line.text.len() {
            assert(q < total);
            assert(c < input[d].len());
            assert(row[c] == input[d][c]);
            assert(input[d][c] == cells[q]);
            assert(cells[q] == input_cells(m)[m.line.at]);
        }
        if m.line.at > 0 && c > 0 {
            assert(c - 1 < input[d].len());
            assert(row[c - 1] == input[d][c - 1]);
            assert(input[d][c - 1] == cells[q - 1]);
            assert(cells[q - 1] == input_cells(m)[m.line.at - 1]);
        }
    } else {
        // Only behind a last row that is full.
        assert(q == total && c == 0) by {
            if total > 0 {
                assert(d * w >= total) by (nonlinear_arith)
                    requires
                        w > 0,
                        total > 0,
                        d >= (total - 1) / w + 1,
                ;
            }
        }
    }
}

/// Within a row, Left and Right move the shown cursor by one column, and what is shown
/// stays as it is.
pub proof fn law_arrows_move_the_shown_cursor(m: TermModel, width: nat)
    requires
        width > 0,
        m.line.wf(),
    ensures
        ({
            let l = m.after_key(KeyEvent { code: KeyCode::Left, ctrl: false }).0;
            &&& l.rows(width) == m.rows(width)
            &&& m.line.at > 0 && m.cursor(width).1 > 0 ==> l.cursor(width).0 == m.cursor(width).0
                && l.cursor(width).1 + 1 == m.cursor(width).1
            &&& m.line.at > 0 && m.cursor(width).1 == 0 ==> l.cursor(width).0 + 1 == m.cursor(
                width,
            ).0 && l.cursor(width).1 + 1 == width
        }),
        ({
            let r = m.after_key(KeyEvent { code: KeyCode::Right, ctrl: false }).0;
            &&& r.rows(width) == m.rows(width)
            &&& m.line.at < m.line.text.len() && m.cursor(width).1 + 1 < width ==> r.cursor(width).0
                == m.cursor(width).0 && r.cursor(width).1 == m.cursor(width).1 + 1
        }),
{
    let w = width as int;
    let q = m.cursor_chars();
    assert(q % w > 0 ==> (q - 1) / w == q / w && (q - 1) % w == q % w - 1) by (nonlinear_arith)
        requires
            w > 0,
            q >= 0,
    ;
    assert(q >= 1 && q % w == 0 ==> (q - 1) / w == q / w - 1 && (q - 1) % w == w - 1)
        by (nonlinear_arith)
        requires
            w > 0,
            q >= 0,
    ;
    assert(q % w + 1 < w ==> (q + 1) / w == q / w && (q + 1) % w == q % w + 1)
        by (nonlinear_arith)
        requires
            w > 0,
            q >= 0,
    ;
    assert(0 <= q / w && 0 <= q % w < w) by (nonlinear_arith)
        requires
            w > 0,
            q >= 0,
    ;
    assert(q >= 1 && q % w == 0 ==> q / w >= 1) by (nonlinear_arith)
        requires
            w > 0,
            q >= 0,
    ;
}

/// The text at the right edge is shown exactly where there is one and at least one
/// blank is left between it and the input, which then stands in one row.
pub proof fn law_right_prompt_is_shown_where_it_fits(m: TermModel, width: nat)
    requires
        width > 0,
        on_one_line(m),
    ensures
        m.right_prompt_shown(width) == (raw_cells(m.right).len() > 0 && raw_cells(m.left).len()
            + m.line.text.len() + 1 + visible_cells(raw_cells(m.right)).len() <= width),
        m.right_prompt_shown(width) ==> m.input_rows(width) == seq![
            raw_cells(m.left) + input_cells(m),
        ],
{
    let cells = raw_cells(m.left) + input_cells(m);
    let input = m.input_rows(width);
    lemma_input_area(m);
    law_unbroken_text_fills_rows(cells, width);
    let w = width as int;
    let total = cells.len() as int;
    assert(0 * w == 0 && (0 + 1) * w == w) by (nonlinear_arith);
    assert(is_row(cells, width, 0, input[0]));
    if total < w {
        if total > 0 {
            assert((total - 1) / w == 0) by (nonlinear_arith)
                requires
                    0 < total < w,
            ;
        }
        assert(input.len() == 1);
        assert(input[0] =~= cells);
        assert(input =~= seq![cells]);
    } else {
        assert(input[0].len() == w);
    }
}

/// The prompt shows each of its zones in full, one after the other: the text above,
/// the prefix, the input, the text at the right edge up to the last column, the text
/// below.
pub proof fn law_prompt_shows_every_zone(m: TermModel, width: nat)
    requires
        width > 0,
        on_one_line(m),
    ensures
        ({
            let used = raw_cells(m.left).len() + m.line.text.len();
            let right = visible_cells(raw_cells(m.right));
            let fits = raw_cells(m.right).len() > 0 && used + 1 + right.len() <= width;
            all_rows(m.rows(width)) == visible_cells(raw_cells(m.above)) + (raw_cells(m.left)
                + input_cells(m)) + (if fits {
                blanks((width - used - right.len()) as nat) + right
            } else {
                Seq::empty()
            }) + visible_cells(raw_cells(m.below))
        }),
{
    let above = zone_rows(m.above, width);
    let below = zone_rows(m.below, width);
    let shown = shown_rows(m, width);
    let cells = raw_cells(m.left) + input_cells(m);
    assert(m.rows(width) == above + shown + below);
    lemma_all_rows_add(above, shown);
    lemma_all_rows_add(above + shown, below);
    lemma_zone_cells(m.above, width);
    lemma_zone_cells(m.below, width);
    lemma_shown_cells(m, width);
    let a = visible_cells(raw_cells(m.above));
    let b = visible_cells(raw_cells(m.below));
    let right = visible_cells(raw_cells(m.right));
    let fits = raw_cells(m.right).len() > 0 && cells.len() + 1 + right.len() <= width;
    let edge = if fits {
        blanks((width - cells.len() - right.len()) as nat) + right
    } else {
        Seq::empty()
    };
    assert(all_rows(m.rows(width)) == a + (cells + edge) + b);
    lemma_regroup(a, cells, edge, b);
    assert(cells.len() == raw_cells(m.left).len() + m.line.text.len());
}

/// The rows of prefix, input and the text at the right edge.
spec fn shown_rows(m: TermModel, width: nat) -> Seq<Seq<Cell>> {
    if m.right_prompt_shown(width) {
        seq![justified(m.input_rows(width)[0], visible_cells(raw_cells(m.right)), width)]
    } else {
        m.input_rows(width)
    }
}

proof fn lemma_regroup(a: Seq<Cell>, b: Seq<Cell>, c: Seq<Cell>, d: Seq<Cell>)
    ensures
        a + (b + c) + d == a + b + c + d,
{
    assert(a + (b + c) + d =~= a + b + c + d);
}

proof fn lemma_shown_cells(m: TermModel, width: nat)
    requires
        width > 0,
        on_one_line(m),
    ensures
        ({
            let cells = raw_cells(m.left) + input_cells(m);
            let right = visible_cells(raw_cells(m.right));
            let fits = raw_cells(m.right).len() > 0 && cells.len() + 1 + right.len() <= width;
            all_rows(shown_rows(m, width)) == cells + (if fits {
                blanks((width - cells.len() - right.len()) as nat) + right
            } else {
                Seq::empty()
            })
        }),
{
    let cells = raw_cells(m.left) + input_cells(m);
    let right = visible_cells(raw_cells(m.right));
    law_right_prompt_is_shown_where_it_fits(m, width);
    lemma_input_area(m);
    if m.right_prompt_shown(width) {
        let row = justified(cells, right, width);
        let gap = blanks((width - cells.len() - right.len()) as nat);
        assert(m.input_rows(width)[0] == cells);
        lemma_all_rows_one(row);
        assert(cells + gap + right =~= cells + (gap + right));
    } else {
        law_layout_keeps_cells(cells, width);
        lemma_visible_unbroken(cells);
        assert(cells + Seq::<Cell>::empty() =~= cells);
    }
}

/// The rows above and below the input are those of their texts, laid out on their own;
/// a zone without text takes no row.
pub proof fn law_zones_have_rows_of_their_own(m: TermModel, width: nat)
    requires
        width > 0,
    ensures
        ({
            let above = if raw_cells(m.above).len() == 0 {
                Seq::empty()
            } else {
                layout(raw_cells(m.above), width)
            };
            let below = if raw_cells(m.below).len() == 0 {
                Seq::empty()
            } else {
                layout(raw_cells(m.below), width)
            };
            &&& m.rows(width).len() > above.len() + below.len()
            &&& m.rows(width).take(above.len() as int) == above
            &&& m.rows(width).skip(m.rows(width).len() - below.len()) == below
        }),
{
    let above = zone_rows(m.above, width);
    let below = zone_rows(m.below, width);
    law_layout_fits(raw_cells(m.left.push((m.line.text, plain_style()))), width);
    assert(m.rows(width).take(above.len() as int) =~= above);
    assert(m.rows(width).skip(m.rows(width).len() - below.len()) =~= below);
}

proof fn lemma_zone_cells(text: Seq<SpanModel>, width: nat)
    ensures
        all_rows(zone_rows(text, width)) == visible_cells(raw_cells(text)),
{
    law_layout_keeps_cells(raw_cells(text), width);
    if raw_cells(text).len() == 0 {
        reveal(Seq::filter);
        assert(raw_cells(text) =~= Seq::<Cell>::empty());
        assert(visible_cells(raw_cells(text)) =~= Seq::<Cell>::empty());
    }
}

proof fn lemma_visible_unbroken(cells: Seq<Cell>)
    requires
        unbroken(cells),
    ensures
        visible_cells(cells) == cells,
    decreases cells.len(),
{
    reveal(Seq::filter);
    if cells.len() > 0 {
        let front = cells.drop_last();
        assert forall|i: int| 0 <= i < front.len() implies (#[trigger] front[i]).ch != '\n' by {
            assert(front[i] == cells[i]);
        }
        lemma_visible_unbroken(front);
        assert(cells[cells.len() - 1].ch != '\n');
        assert(front.push(cells.last()) =~= cells);
    } else {
        assert(cells =~= Seq::<Cell>::empty());
    }
}

/// A typed character goes in front of what follows the cursor, which then stands behind
/// it; Enter hands out the whole input and empties the line.
pub proof fn law_typing_inserts_at_the_cursor(m: TermModel, c: char)
    requires
        m.line.wf(),
    ensures
        ({
            let (n, r) = m.after_key(KeyEvent { code: KeyCode::Char(c), ctrl: false });
            &&& n.line.text == m.line.text.take(m.line.at) + seq![c] + m.line.text.skip(m.line.at)
            &&& n.line.at == m.line.at + 1
            &&& r.event == Some(EventModel::BufferChanged)
        }),
        ({
            let (n, r) = m.after_key(KeyEvent { code: KeyCode::Enter, ctrl: false });
            &&& n.line.text.len() == 0
            &&& n.line.at == 0
            &&& r.event == Some(EventModel::Line(m.line.text))
        }),
{
    let (n, r) = m.after_key(KeyEvent { code: KeyCode::Char(c), ctrl: false });
    assert(n.line.text =~= m.line.text.take(m.line.at) + seq![c] + m.line.text.skip(m.line.at));
}

/// The keys that delete take away the character before the cursor, the one behind it,
/// all that stands before it, or the last word before it with the blanks behind that,
/// and keep the rest.
pub proof fn law_deleting_keeps_the_rest(m: TermModel)
    requires
        m.line.wf(),
    ensures
        ({
            let n = m.after_key(KeyEvent { code: KeyCode::Backspace, ctrl: false }).0.line;
            if m.line.at > 0 {
                n.text == m.line.text.take(m.line.at - 1) + m.line.text.skip(m.line.at) && n.at
                    == m.line.at - 1
            } else {
                n == m.line
            }
        }),
        ({
            let n = m.after_key(KeyEvent { code: KeyCode::Delete, ctrl: false }).0.line;
            if m.line.at < m.line.text.len() {
                n.text == m.line.text.take(m.line.at) + m.line.text.skip(m.line.at + 1) && n.at
                    == m.line.at
            } else {
                n == m.line
            }
        }),
        ({
            let n = m.after_key(KeyEvent { code: KeyCode::Char('u'), ctrl: true }).0.line;
            n.text == m.line.text.skip(m.line.at) && n.at == 0
        }),
        ({
            let n = m.after_key(KeyEvent { code: KeyCode::Char('w'), ctrl: true }).0.line;
            &&& 0 <= n.at <= m.line.at
            &&& m.line.at > 0 ==> n.at < m.line.at
            &&& n.text == m.line.text.take(n.at) + m.line.text.skip(m.line.at)
            &&& n.at == 0 || m.line.text[n.at - 1] == ' '
            &&& forall|i: int|
                n.at <= i < m.line.at && #[trigger] m.line.text[i] == ' ' ==> forall|j: int|
                    i <= j < m.line.at ==> is_white(#[trigger] m.line.text[j])
        }),
        ({
            let n = m.after_key(KeyEvent { code: KeyCode::Char('c'), ctrl: true }).0.line;
            n.text.len() == 0 && n.at == 0
        }),
{
    let line = m.line;
    let at = line.at;
    assert(line.cut_back_to(at - 1).text =~= line.text.take(at - 1) + line.text.skip(at));
    assert(line.cut_next().text =~= line.text.take(at) + line.text.skip(at + 1));
    assert(line.cut_back_to(0).text =~= line.text.skip(at));
    let before = line.text.take(at);
    lemma_word_is_cut(before);
    let k = line.word_start();
    assert(line.cut_back_to(k).text =~= line.text.take(k) + line.text.skip(at));
    assert forall|i: int| k <= i < at && #[trigger] line.text[i] == ' ' implies forall|j: int|
        i <= j < at ==> is_white(#[trigger] line.text[j]) by {
        assert(before[i] == ' ');
        assert forall|j: int| i <= j < at implies is_white(#[trigger] line.text[j]) by {
            assert(is_white(before[j]));
        }
    }
    if k > 0 {
        assert(before[k - 1] == line.text[k - 1]);
    }
    if at == 0 {
        assert(line.text =~= line.text.take(0) + line.text.skip(0));
    }
}

/// Home and End, also by their control characters, go to the ends of the input; Left
/// and Right by one character.
pub proof fn law_moving_keeps_the_input(m: TermModel)
    requires
        m.line.wf(),
    ensures
        m.after_key(KeyEvent { code: KeyCode::Home, ctrl: false }).0.line == (LineModel {
            text: m.line.text,
            at: 0,
        }),
        m.after_key(KeyEvent { code: KeyCode::Char('a'), ctrl: true }).0.line == (LineModel {
            text: m.line.text,
            at: 0,
        }),
        m.after_key(KeyEvent { code: KeyCode::End, ctrl: false }).0.line == (LineModel {
            text: m.line.text,
            at: m.line.text.len() as int,
        }),
        m.after_key(KeyEvent { code: KeyCode::Char('e'), ctrl: true }).0.line == (LineModel {
            text: m.line.text,
            at: m.line.text.len() as int,
        }),
        m.after_key(KeyEvent { code: KeyCode::Left, ctrl: false }).0.line == (LineModel {
            text: m.line.text,
            at: if m.line.at > 0 {
                m.line.at - 1
            } else {
                0
            },
        }),
        m.after_key(KeyEvent { code: KeyCode::Right, ctrl: false }).0.line == (LineModel {
            text: m.line.text,
            at: if m.line.at < m.line.text.len() {
                m.line.at + 1
            } else {
                m.line.at
            },
        }),
        m.after_key(KeyEvent { code: KeyCode::Other, ctrl: false }).0 == m,
{
}

/// Up and Down move the shown cursor by one row and keep its column, where the input
/// reaches that far; where there is no such row, the cursor stays.
pub proof fn law_rows_are_changed_in_the_same_column(m: TermModel)
    requires
        m.width > 0,
        m.line.wf(),
    ensures
        ({
            let w = m.width as int;
            let q = raw_cells(m.left).len() + m.line.at;
            let up = m.after_key(KeyEvent { code: KeyCode::Up, ctrl: false }).0;
            let left = raw_cells(m.left).len() as int;
            &&& up.line.text == m.line.text
            &&& q < w ==> up == m
            &&& q >= w && q - w >= left ==> up.line.at == m.line.at - w
            &&& q >= w && q - w < left ==> up.line.at == 0
        }),
        ({
            let w = m.width as int;
            let left = raw_cells(m.left).len() as int;
            let q = left + m.line.at;
            let total = left + m.line.text.len();
            let down = m.after_key(KeyEvent { code: KeyCode::Down, ctrl: false }).0;
            &&& down.line.text == m.line.text
            &&& q + w <= total && (q / w + 1) * w < total ==> down.line.at == m.line.at + w
            &&& q + w > total && (q / w + 1) * w < total ==> down.line.at == m.line.text.len()
            &&& (q / w + 1) * w >= total ==> down == m
        }),
{
    let w = m.width as int;
    let left = raw_cells(m.left).len() as int;
    let q = left + m.line.at;
    let total = left + m.line.text.len();
    let row = q / w;
    let col = q % w;
    assert(0 <= row && 0 <= col < w && q == row * w + col) by (nonlinear_arith)
        requires
            w > 0,
            q >= 0,
            row == q / w,
            col == q % w,
    ;
    assert(q < w <==> row == 0) by (nonlinear_arith)
        requires
            w > 0,
            q >= 0,
            row == q / w,
    ;
    assert((row - 1) * w + col == q - w && (row + 1) * w + col == q + w) by (nonlinear_arith)
        requires
            q == row * w + col,
    ;
    if total > 0 {
        let last = (total - 1) / w;
        assert(row - 1 <= last) by (nonlinear_arith)
            requires
                w > 0,
                0 <= q <= total,
                total > 0,
                row == q / w,
                last == (total - 1) / w,
        ;
        assert(row + 1 <= last <==> (row + 1) * w < total) by (nonlinear_arith)
            requires
                w > 0,
                total > 0,
                row >= 0,
                last == (total - 1) / w,
        ;
    } else {
        assert((row + 1) * w >= 0) by (nonlinear_arith)
            requires
                w > 0,
                row >= 0,
        ;
    }
}

} // verus!

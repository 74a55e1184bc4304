//! One-line prompt with asynchronous output.
//!
//! The prompt line is erased and drawn again on every change. Output that
//! arrives while the user types is printed above it.

use crate::line::{offset, Line, LineModel};
use crate::screen::{emit_ops, last_style, lemma_emit, overwrite, write_cells_ops};
use crate::style::{cell, plain_style, Cell};
use crate::term::{KeyCode, KeyEvent, TermModel};
use crate::terminal::{lemma_run_add, lemma_run_one, TermOp, Terminal};
use crate::text::{byte_len, char_views, lines, split_lines, str_len, to_chars};
use vstd::prelude::*;

verus! {

/// Events that flow into the prompt loop from any producer.
#[derive(Debug)]
pub enum UiEvent {
    /// A key event from the input thread.
    Key(KeyEvent),
    /// Output that should be printed above the prompt.
    Output(String),
    /// A request to shut down the loop.
    Quit,
}

/// Result of one prompt interaction.
#[derive(Debug)]
pub enum PromptResult {
    /// The user submitted a line.
    Line(String),
    /// The user signalled the end of input (Ctrl-D on an empty line).
    Eof,
}

/// What a [`PromptResult`] says.
#[verifier::ext_equal]
pub enum PromptResultModel {
    Line(Seq<char>),
    Eof,
}

impl View for PromptResult {
    type V = PromptResultModel;

    open spec fn view(&self) -> PromptResultModel {
        match self {
            PromptResult::Line(s) => PromptResultModel::Line(s@),
            PromptResult::Eof => PromptResultModel::Eof,
        }
    }
}

/// The model of an optional result.
pub open spec fn result_view(r: Option<PromptResult>) -> Option<PromptResultModel> {
    match r {
        Some(r) => Some(r@),
        None => None,
    }
}

/// The command that writes `c`.
pub open spec fn print_op(c: char) -> TermOp {
    TermOp::Print(c)
}

/// The commands that write a text as it is.
pub open spec fn print_ops(s: Seq<char>) -> Seq<TermOp> {
    Seq::new(s.len(), |i: int| print_op(s[i]))
}

/// The commands that write lines, each with a line break.
pub open spec fn lines_ops(rows: Seq<Seq<char>>) -> Seq<TermOp>
    decreases rows.len(),
{
    if rows.len() == 0 {
        Seq::empty()
    } else {
        lines_ops(rows.drop_last()) + print_ops(rows.last()) + seq![TermOp::NextLine]
    }
}

/// The commands that erase the line of the cursor.
pub open spec fn clear_line_ops() -> Seq<TermOp> {
    seq![TermOp::MoveToColumn(0), TermOp::ClearLine]
}

/// What a [`Prompt`] holds.
#[verifier::ext_equal]
pub struct PromptModel {
    pub prefix: Seq<char>,
    pub line: LineModel,
}

impl PromptModel {
    /// The commands that draw the prompt on the line of the cursor. The cursor
    /// column is counted in bytes.
    pub open spec fn draw_ops(self) -> Seq<TermOp> {
        clear_line_ops() + print_ops(self.prefix) + print_ops(self.line.text) + seq![
            TermOp::MoveToColumn(
                (byte_len(self.prefix) + offset(self.line.text, self.line.at)) as u16,
            ),
        ]
    }

    /// The commands that print `text` above the prompt.
    pub open spec fn print_above_ops(self, text: Seq<char>) -> Seq<TermOp> {
        clear_line_ops() + lines_ops(lines(text)) + self.draw_ops()
    }

    /// With another input line.
    pub open spec fn with_line(self, line: LineModel) -> PromptModel {
        PromptModel { line, ..self }
    }

    /// With another input line, drawn.
    pub open spec fn redrawn(self, line: LineModel) -> (
        PromptModel,
        Option<PromptResultModel>,
        Seq<TermOp>,
    ) {
        (self.with_line(line), None, self.with_line(line).draw_ops())
    }

    /// What a key does: the new state, the result and the commands.
    pub open spec fn after_key(self, key: KeyEvent) -> (
        PromptModel,
        Option<PromptResultModel>,
        Seq<TermOp>,
    ) {
        let line = self.line;
        let end = line.text.len() as int;
        let empty = LineModel { text: Seq::empty(), at: 0 };
        let nothing = (self, None, Seq::empty());
        match key.code {
            KeyCode::Enter => (
                self.with_line(empty),
                Some(PromptResultModel::Line(line.text)),
                seq![TermOp::NextLine],
            ),
            KeyCode::Char(c) => if key.ctrl && c == 'd' {
                if end == 0 {
                    (self, Some(PromptResultModel::Eof), seq![TermOp::NextLine])
                } else {
                    nothing
                }
            } else if key.ctrl && c == 'c' {
                (
                    self.with_line(empty),
                    None,
                    seq![TermOp::Print('^'), TermOp::Print('C'), TermOp::NextLine]
                        + self.with_line(empty).draw_ops(),
                )
            } else if key.ctrl && c == 'u' {
                self.redrawn(line.cut_back_to(0))
            } else if key.ctrl && c == 'w' {
                if line.at > 0 {
                    self.redrawn(line.cut_back_to(line.word_start()))
                } else {
                    nothing
                }
            } else if key.ctrl && c == 'a' {
                self.redrawn(line.moved(0))
            } else if key.ctrl && c == 'e' {
                self.redrawn(line.moved(end))
            } else {
                self.redrawn(line.inserted(c))
            },
            KeyCode::Backspace => if line.at > 0 {
                self.redrawn(line.cut_back_to(line.at - 1))
            } else {
                nothing
            },
            KeyCode::Delete => if line.at < end {
                self.redrawn(line.cut_next())
            } else {
                nothing
            },
            KeyCode::Left => if line.at > 0 {
                self.redrawn(line.moved(line.at - 1))
            } else {
                nothing
            },
            KeyCode::Right => if line.at < end {
                self.redrawn(line.moved(line.at + 1))
            } else {
                nothing
            },
            KeyCode::Home => self.redrawn(line.moved(0)),
            KeyCode::End => self.redrawn(line.moved(end)),
            KeyCode::Up | KeyCode::Down | KeyCode::Other => nothing,
        }
    }
}

/// The interactive prompt: a display prefix and the line being edited.
pub struct Prompt {
    prefix: String,
    line: Line,
}

impl View for Prompt {
    type V = PromptModel;

    closed spec fn view(&self) -> PromptModel {
        PromptModel { prefix: self.prefix@, line: self.line@ }
    }
}

/// What the prompt does after an input.
#[derive(Debug)]
pub struct PromptStep {
    /// The result, when the interaction is over.
    pub result: Option<PromptResult>,
    /// The commands for the terminal.
    pub ops: Vec<TermOp>,
}

/// Appends the commands that write `s`.
fn push_text(ops: &mut Vec<TermOp>, s: &[char])
    ensures
        final(ops)@ == old(ops)@ + print_ops(s@),
{
    let ghost start = ops@;
    let mut i: usize = 0;
    proof {
        assert(start + print_ops(s@.take(0)) =~= start);
    }
    while i < s.len()
        invariant
            i <= s@.len(),
            ops@ == start + print_ops(s@.take(i as int)),
        decreases s@.len() - i,
    {
        ops.push(TermOp::Print(s[i]));
        proof {
            assert(print_ops(s@.take(i + 1)) =~= print_ops(s@.take(i as int)).push(
                print_op(s@[i as int]),
            ));
            assert(ops@ =~= start + print_ops(s@.take(i + 1)));
        }
        i = i + 1;
    }
    proof {
        assert(s@.take(i as int) =~= s@);
    }
}

impl Prompt {
    /// Whether the cursor stands in the input line.
    pub closed spec fn wf(self) -> bool {
        self.line.wf()
    }

    /// A new prompt with the given display prefix (such as `"> "`).
    pub fn new(prefix: &str) -> (p: Self)
        ensures
            p.wf(),
            p@ == (PromptModel {
                prefix: prefix@,
                line: LineModel { text: Seq::empty(), at: 0 },
            }),
    {
        Prompt { prefix: prefix.to_owned(), line: Line::new() }
    }

    /// Appends the commands that draw the prompt.
    fn draw_prompt_queued(&self, ops: &mut Vec<TermOp>)
        requires
            self.wf(),
            byte_len(self@.prefix) + byte_len(self@.line.text) <= usize::MAX,
        ensures
            final(ops)@ == old(ops)@ + self@.draw_ops(),
    {
        let ghost start = ops@;
        proof {
            self.line.lemma_wf();
            crate::line::lemma_offset_ends(self.line@.text);
            if self.line@.at < self.line@.text.len() {
                crate::line::lemma_offset_grows(
                    self.line@.text,
                    self.line@.at,
                    self.line@.text.len() as int,
                );
            }
        }
        let cursor_col: usize = str_len(self.prefix.as_str()) + self.line.cursor();
        ops.push(TermOp::MoveToColumn(0));
        ops.push(TermOp::ClearLine);
        push_text(ops, &to_chars(self.prefix.as_str()));
        push_text(ops, &to_chars(self.line.text()));
        ops.push(TermOp::MoveToColumn(cursor_col as u16));
        proof {
            assert(ops@ =~= start + self@.draw_ops());
        }
    }

    /// The commands that draw the prompt on the line of the cursor.
    pub fn draw_prompt(&self) -> (ops: Vec<TermOp>)
        requires
            self.wf(),
            byte_len(self@.prefix) + byte_len(self@.line.text) <= usize::MAX,
        ensures
            ops@ == self@.draw_ops(),
    {
        let mut ops: Vec<TermOp> = Vec::new();
        self.draw_prompt_queued(&mut ops);
        proof {
            assert(Seq::<TermOp>::empty() + self@.draw_ops() =~= self@.draw_ops());
        }
        ops
    }

    /// The commands that erase the prompt line, print text, and draw the
    /// prompt again.
    pub fn print_output(&self, text: &str) -> (ops: Vec<TermOp>)
        requires
            self.wf(),
            byte_len(self@.prefix) + byte_len(self@.line.text) <= usize::MAX,
        ensures
            ops@ == self@.print_above_ops(text@),
    {
        let mut ops: Vec<TermOp> = Vec::new();
        ops.push(TermOp::MoveToColumn(0));
        ops.push(TermOp::ClearLine);
        let chars = to_chars(text);
        let rows = split_lines(&chars);
        let ghost all = char_views(rows@);
        let mut i: usize = 0;
        proof {
            assert(ops@ =~= clear_line_ops() + lines_ops(all.take(0)));
        }
        while i < rows.len()
            invariant
                i <= rows@.len(),
                all == char_views(rows@),
                ops@ == clear_line_ops() + lines_ops(all.take(i as int)),
            decreases rows@.len() - i,
        {
            push_text(&mut ops, rows[i].as_slice());
            ops.push(TermOp::NextLine);
            proof {
                assert(all.take(i + 1).drop_last() =~= all.take(i as int));
                assert(all.take(i + 1).last() == rows@[i as int]@);
                assert(ops@ =~= clear_line_ops() + lines_ops(all.take(i + 1)));
            }
            i = i + 1;
        }
        proof {
            assert(all.take(i as int) =~= all);
        }
        self.draw_prompt_queued(&mut ops);
        ops
    }

    /// Handles one input; `None` says that there will be no more of them.
    pub fn read_line(&mut self, event: Option<UiEvent>) -> (step: PromptStep)
        requires
            old(self).wf(),
            byte_len(old(self)@.prefix) + byte_len(old(self)@.line.text) + 4 <= usize::MAX,
        ensures
            final(self).wf(),
            match event {
                Some(UiEvent::Key(key)) => (final(self)@, result_view(step.result), step.ops@)
                    == old(self)@.after_key(key),
                Some(UiEvent::Output(text)) => final(self)@ == old(self)@ && step.result is None
                    && step.ops@ == old(self)@.print_above_ops(text@),
                Some(UiEvent::Quit) | None => final(self)@ == old(self)@ && result_view(
                    step.result,
                ) == Some(PromptResultModel::Eof) && step.ops@.len() == 0,
            },
    {
        match event {
            Some(UiEvent::Key(key)) => self.handle_key(key),
            Some(UiEvent::Output(text)) => {
                let ops = self.print_output(text.as_str());
                PromptStep { result: None, ops }
            },
            Some(UiEvent::Quit) | None => PromptStep {
                result: Some(PromptResult::Eof),
                ops: Vec::new(),
            },
        }
    }

    /// The step that only draws the prompt.
    fn redraw(&self) -> (step: PromptStep)
        requires
            self.wf(),
            byte_len(self@.prefix) + byte_len(self@.line.text) <= usize::MAX,
        ensures
            step.result is None,
            step.ops@ == self@.draw_ops(),
    {
        PromptStep { result: None, ops: self.draw_prompt() }
    }

    /// Handles one key.
    pub fn handle_key(&mut self, key: KeyEvent) -> (step: PromptStep)
        requires
            old(self).wf(),
            byte_len(old(self)@.prefix) + byte_len(old(self)@.line.text) + 4 <= usize::MAX,
        ensures
            final(self).wf(),
            (final(self)@, result_view(step.result), step.ops@) == old(self)@.after_key(key),
    {
        let nothing = PromptStep { result: None, ops: Vec::new() };
        proof {
            self.line.lemma_wf();
            lemma_edit_sizes(self.line@);
        }
        match key.code {
            KeyCode::Enter => {
                let line = self.line.take();
                let ops: Vec<TermOp> = vec![TermOp::NextLine];
                PromptStep { result: Some(PromptResult::Line(line)), ops }
            },
            KeyCode::Char(c) => {
                if key.ctrl && c == 'd' {
                    if self.line.is_empty() {
                        let ops: Vec<TermOp> = vec![TermOp::NextLine];
                        PromptStep { result: Some(PromptResult::Eof), ops }
                    } else {
                        nothing
                    }
                } else if key.ctrl && c == 'c' {
                    self.line = Line::new();
                    let mut ops: Vec<TermOp> = vec![
                        TermOp::Print('^'),
                        TermOp::Print('C'),
                        TermOp::NextLine,
                    ];
                    self.draw_prompt_queued(&mut ops);
                    PromptStep { result: None, ops }
                } else if key.ctrl && c == 'u' {
                    self.line.cut_to_start();
                    self.redraw()
                } else if key.ctrl && c == 'w' {
                    if self.line.cut_word() {
                        self.redraw()
                    } else {
                        nothing
                    }
                } else if key.ctrl && c == 'a' {
                    self.line.move_to_start();
                    self.redraw()
                } else if key.ctrl && c == 'e' {
                    self.line.move_to_end();
                    self.redraw()
                } else {
                    proof {
                        lemma_insert_size(self.line@, c);
                    }
                    self.line.insert(c);
                    self.redraw()
                }
            },
            KeyCode::Backspace => {
                if self.line.cut_previous() {
                    self.redraw()
                } else {
                    nothing
                }
            },
            KeyCode::Delete => {
                if self.line.cut_following() {
                    self.redraw()
                } else {
                    nothing
                }
            },
            KeyCode::Left => {
                if self.line.cursor() > 0 {
                    proof {
                        lemma_offset_zero(self.line@);
                    }
                    self.line.move_back();
                    self.redraw()
                } else {
                    proof {
                        lemma_offset_zero(self.line@);
                    }
                    nothing
                }
            },
            KeyCode::Right => {
                if self.line.chars_before() < self.line.char_count() {
                    self.line.move_on();
                    self.redraw()
                } else {
                    nothing
                }
            },
            KeyCode::Home => {
                self.line.move_to_start();
                self.redraw()
            },
            KeyCode::End => {
                self.line.move_to_end();
                self.redraw()
            },
            KeyCode::Up | KeyCode::Down | KeyCode::Other => nothing,
        }
    }
}

proof fn lemma_offset_zero(line: LineModel)
    requires
        line.wf(),
    ensures
        offset(line.text, line.at) > 0 <==> line.at > 0,
{
    crate::line::lemma_offset_ends(line.text);
    if line.at > 0 {
        crate::line::lemma_offset_grows(line.text, 0, line.at);
    }
}

proof fn lemma_cut_size(s: Seq<char>, a: int, b: int)
    requires
        0 <= a <= b <= s.len(),
    ensures
        byte_len(crate::line::cut(s, a, b)) <= byte_len(s),
{
    crate::text::lemma_byte_len_add(s.take(a), s.skip(b));
    crate::text::lemma_byte_len_add(s.subrange(a, b), s.skip(b));
    assert(s.subrange(a, b) + s.skip(b) =~= s.skip(a));
    crate::text::lemma_byte_len_add(s.take(a), s.skip(a));
    assert(s.take(a) + s.skip(a) =~= s);
}

proof fn lemma_edit_sizes(line: LineModel)
    requires
        line.wf(),
    ensures
        byte_len(Seq::empty()) == 0,
        byte_len(line.cut_back_to(0).text) <= byte_len(line.text),
        line.at > 0 ==> byte_len(line.cut_back_to(line.at - 1).text) <= byte_len(line.text),
        byte_len(line.cut_back_to(line.word_start()).text) <= byte_len(line.text),
        line.at < line.text.len() ==> byte_len(line.cut_next().text) <= byte_len(line.text),
{
    lemma_cut_size(line.text, 0, line.at);
    if line.at > 0 {
        lemma_cut_size(line.text, line.at - 1, line.at);
    }
    crate::line::lemma_word_start(line.text.take(line.at));
    lemma_cut_size(line.text, line.word_start(), line.at);
    if line.at < line.text.len() {
        lemma_cut_size(line.text, line.at, line.at + 1);
    }
}

proof fn lemma_insert_size(line: LineModel, c: char)
    requires
        line.wf(),
    ensures
        byte_len(line.inserted(c).text) <= byte_len(line.text) + 4,
{
    let a = line.text.take(line.at);
    let b = line.text.skip(line.at);
    crate::text::lemma_byte_len_add(a, b);
    assert(a + b =~= line.text);
    crate::text::lemma_byte_len_push(a, c);
    crate::text::lemma_byte_len_add(a.push(c), b);
    assert(a.push(c) + b =~= line.inserted(c).text);
}

// ---------------------------------------------------------------------------
// Laws
// ---------------------------------------------------------------------------

/// The cells of plain text.
pub open spec fn plain_cells(s: Seq<char>) -> Seq<Cell> {
    Seq::new(s.len(), |i: int| cell(s[i], plain_style()))
}

proof fn lemma_print_is_emit(s: Seq<char>)
    ensures
        write_cells_ops(plain_cells(s)) == print_ops(s),
        last_style(plain_cells(s)) == plain_style(),
        emit_ops(plain_cells(s)) == print_ops(s),
    decreases s.len(),
{
    let cells = plain_cells(s);
    if s.len() > 0 {
        let before = s.drop_last();
        lemma_print_is_emit(before);
        assert(cells.drop_last() =~= plain_cells(before));
        assert(cells.last() == cell(s.last(), plain_style()));
        assert(write_cells_ops(cells) =~= print_ops(s));
    } else {
        assert(print_ops(s) =~= Seq::<TermOp>::empty());
    }
    assert(emit_ops(cells) =~= print_ops(s));
}

/// Drawing the prompt shows prefix and input on the row of the cursor and
/// nothing else there, whatever stood on that row before, and puts the cursor
/// at its place in the input.
///
/// The text fits the row, and every character before the cursor takes one byte:
/// the cursor column is counted in bytes.
pub proof fn law_draw_shows_prompt(t: Terminal, m: PromptModel)
    requires
        m.line.wf(),
        t.pen == plain_style(),
        m.prefix.len() + m.line.text.len() < t.width <= u16::MAX,
        byte_len(m.prefix) == m.prefix.len(),
        offset(m.line.text, m.line.at) == m.line.at,
    ensures
        t.run(m.draw_ops()).content(t.row) == plain_cells(m.prefix + m.line.text),
        t.run(m.draw_ops()).row == t.row,
        t.run(m.draw_ops()).col == m.prefix.len() + m.line.at,
        t.run(m.draw_ops()).pen == plain_style(),
        forall|i: int| i != t.row ==> #[trigger] t.run(m.draw_ops()).content(i) == t.content(i),
{
    let all = m.prefix + m.line.text;
    let col = (byte_len(m.prefix) + offset(m.line.text, m.line.at)) as u16;
    let a = seq![TermOp::MoveToColumn(0)];
    let b = seq![TermOp::ClearLine];
    let c = print_ops(all);
    let d = seq![TermOp::MoveToColumn(col)];
    assert(m.draw_ops() =~= a + b + c + d);
    lemma_run_add(t, a + b + c, d);
    lemma_run_add(t, a + b, c);
    lemma_run_add(t, a, b);
    lemma_run_one(t, TermOp::MoveToColumn(0));
    let t1 = t.run(a);
    lemma_run_one(t1, TermOp::ClearLine);
    let t2 = t1.run(b);
    lemma_print_is_emit(all);
    lemma_emit(t2, plain_cells(all));
    let t3 = t2.run(c);
    lemma_run_one(t3, TermOp::MoveToColumn(col));
    let t4 = t3.run(d);
    assert(overwrite(Seq::empty(), 0, plain_cells(all)) =~= plain_cells(all));
    assert(t4.content(t.row) == t3.content(t.row));
    assert forall|i: int| i != t.row implies #[trigger] t4.content(i) == t.content(i) by {
        assert(t1.content(i) == t.content(i));
        assert(t2.content(i) == t1.content(i));
        assert(t3.content(i) == t2.content(i));
        assert(t4.content(i) == t3.content(i));
    }
}

proof fn lemma_lines_printed(t: Terminal, rows: Seq<Seq<char>>)
    requires
        t.pen == plain_style(),
        t.col == 0,
        forall|i: int| i >= t.row ==> (#[trigger] t.content(i)).len() == 0,
        forall|i: int| 0 <= i < rows.len() ==> (#[trigger] rows[i]).len() <= t.width,
    ensures
        ({
            let u = t.run(lines_ops(rows));
            &&& u.pen == plain_style()
            &&& u.width == t.width
            &&& u.row == t.row + rows.len()
            &&& u.col == 0
            &&& forall|i: int|
                #[trigger] u.content(i) == if t.row <= i < t.row + rows.len() {
                    plain_cells(rows[i - t.row])
                } else {
                    t.content(i)
                }
        }),
    decreases rows.len(),
{
    if rows.len() > 0 {
        let before = rows.drop_last();
        let row = rows.last();
        let a = lines_ops(before);
        let b = print_ops(row);
        assert forall|i: int| 0 <= i < before.len() implies (#[trigger] before[i]).len()
            <= t.width by {
            assert(before[i] == rows[i]);
        }
        lemma_lines_printed(t, before);
        let t1 = t.run(a);
        lemma_run_add(t, a + b, seq![TermOp::NextLine]);
        lemma_run_add(t, a, b);
        lemma_print_is_emit(row);
        assert(t1.content(t1.row) == t.content(t1.row));
        lemma_emit(t1, plain_cells(row));
        let t2 = t1.run(b);
        lemma_run_one(t2, TermOp::NextLine);
        let t3 = t2.step(TermOp::NextLine);
        assert forall|i: int| #[trigger] t3.content(i) == if t.row <= i < t.row + rows.len() {
            plain_cells(rows[i - t.row])
        } else {
            t.content(i)
        } by {
            assert(t3.content(i) == t2.content(i));
            assert(t1.content(i) == t1.content(i));
            if i == t1.row {
                assert(t.content(i) =~= Seq::<Cell>::empty());
                assert(overwrite(t1.content(i), 0, plain_cells(row)) =~= plain_cells(row));
            }
        }
    }
}

/// Output stands above the prompt: its lines take the place of the prompt line,
/// and the prompt is drawn again on the row below them.
///
/// The rows below the prompt are empty, every line fits a row, and the prompt
/// is as [`law_draw_shows_prompt`] asks.
pub proof fn law_output_stands_above_prompt(t: Terminal, m: PromptModel, text: Seq<char>)
    requires
        m.line.wf(),
        t.pen == plain_style(),
        forall|i: int| i > t.row ==> (#[trigger] t.content(i)).len() == 0,
        forall|i: int| 0 <= i < lines(text).len() ==> (#[trigger] lines(text)[i]).len() <= t.width,
        m.prefix.len() + m.line.text.len() < t.width <= u16::MAX,
        byte_len(m.prefix) == m.prefix.len(),
        offset(m.line.text, m.line.at) == m.line.at,
    ensures
        ({
            let u = t.run(m.print_above_ops(text));
            let n = lines(text).len();
            &&& forall|i: int|
                #[trigger] u.content(i) == if i < t.row || i > t.row + n {
                    t.content(i)
                } else if i < t.row + n {
                    plain_cells(lines(text)[i - t.row])
                } else {
                    plain_cells(m.prefix + m.line.text)
                }
            &&& u.row == t.row + n
            &&& u.col == m.prefix.len() + m.line.at
            &&& u.pen == plain_style()
        }),
{
    let n = lines(text).len();
    let a = seq![TermOp::MoveToColumn(0)];
    let b = seq![TermOp::ClearLine];
    let c = lines_ops(lines(text));
    assert(clear_line_ops() =~= a + b);
    lemma_run_add(t, a + b + c, m.draw_ops());
    lemma_run_add(t, a + b, c);
    lemma_run_add(t, a, b);
    lemma_run_one(t, TermOp::MoveToColumn(0));
    let t1 = t.run(a);
    lemma_run_one(t1, TermOp::ClearLine);
    let t2 = t1.run(b);
    assert forall|i: int| i >= t2.row implies (#[trigger] t2.content(i)).len() == 0 by {
        if i > t.row {
            assert(t1.content(i) == t.content(i));
            assert(t2.content(i) == t1.content(i));
        }
    }
    lemma_lines_printed(t2, lines(text));
    let t3 = t2.run(c);
    law_draw_shows_prompt(t3, m);
    let t4 = t3.run(m.draw_ops());
    assert forall|i: int| #[trigger] t4.content(i) == if i < t.row || i > t.row + n {
        t.content(i)
    } else if i < t.row + n {
        plain_cells(lines(text)[i - t.row])
    } else {
        plain_cells(m.prefix + m.line.text)
    } by {
        assert(t1.content(i) == t.content(i));
        if i != t.row {
            assert(t2.content(i) == t1.content(i));
        }
        assert(t3.content(i) == t3.content(i));
    }
}

/// No key moves the cursor out of the line.
pub proof fn law_keys_keep_cursor_in_line(m: PromptModel, key: KeyEvent)
    requires
        m.line.wf(),
    ensures
        m.after_key(key).0.line.wf(),
        m.after_key(key).0.prefix == m.prefix,
{
    crate::line::lemma_word_start(m.line.text.take(m.line.at));
}

/// The prompt edits its line as the full terminal does; only Up and Down, which
/// go from row to row there, do nothing here.
pub proof fn law_prompt_edits_like_the_terminal(m: PromptModel, t: TermModel, key: KeyEvent)
    requires
        m.line == t.line,
        !(key.code is Up),
        !(key.code is Down),
    ensures
        m.after_key(key).0.line == t.after_key(key).0.line,
{
}

/// A line is handed out whole when Enter is pressed, and the next one starts
/// empty. The end of the input is told by Ctrl-D, and only while nothing is
/// typed. No other key hands anything out.
pub proof fn law_prompt_hands_out_the_typed_line(m: PromptModel, key: KeyEvent)
    ensures
        key.code is Enter ==> m.after_key(key).1 == Some(PromptResultModel::Line(m.line.text))
            && m.after_key(key).0.line.text.len() == 0,
        key.code == KeyCode::Char('d') && key.ctrl && m.line.text.len() == 0 ==> m.after_key(key).1
            == Some(PromptResultModel::Eof),
        key.code == KeyCode::Char('d') && key.ctrl && m.line.text.len() > 0 ==> m.after_key(key)
            == (m, None::<PromptResultModel>, Seq::<TermOp>::empty()),
        !(key.code is Enter) && !(key.code == KeyCode::Char('d') && key.ctrl) ==> m.after_key(key).1
            is None,
{
}

/// After a key that changes the line, the new line is what is drawn last, and
/// before it nothing but the mark of an interruption.
pub proof fn law_changed_line_is_drawn(m: PromptModel, key: KeyEvent)
    requires
        m.after_key(key).1 is None,
        m.after_key(key).0.line != m.line,
    ensures
        ({
            let (n, r, ops) = m.after_key(key);
            ops == if key.code == KeyCode::Char('c') && key.ctrl {
                print_ops("^C"@) + seq![TermOp::NextLine] + n.draw_ops()
            } else {
                n.draw_ops()
            }
        }),
{
    reveal_strlit("^C");
    assert(print_ops("^C"@) =~= seq![TermOp::Print('^'), TermOp::Print('C')]);
    assert(print_ops("^C"@) + seq![TermOp::NextLine] =~= seq![
        TermOp::Print('^'),
        TermOp::Print('C'),
        TermOp::NextLine,
    ]);
}

} // verus!

//! Terminal commands, the text that carries them, and what they do to a
//! terminal.

use crate::style::{cell, plain_style, Cell, Color, Style};
use crate::text::decimal;
use crossterm::style::Color as CtColor;
use vstd::prelude::*;

verus! {

/// One command to the terminal.
#[derive(Clone, Copy, PartialEq, Eq, Structural, Debug)]
pub enum TermOp {
    /// Move the cursor up by this many rows.
    MoveUp(u16),
    /// Move the cursor to this column of its row.
    MoveToColumn(u16),
    /// Go to the first column of the next row.
    NextLine,
    /// Write one character.
    Print(char),
    /// Erase from the cursor to the end of its row.
    ClearToEndOfLine,
    /// Erase the row of the cursor.
    ClearLine,
    /// Erase from the cursor to the end of the screen.
    ClearDown,
    /// Go back to plain style.
    ResetStyle,
    SetForeground(Color),
    SetBackground(Color),
    SetBold,
    SetUnderline,
    SetItalic,
}

// ---------------------------------------------------------------------------
// The text of a command
// ---------------------------------------------------------------------------

/// A control sequence: escape, bracket, body.
pub open spec fn control(body: Seq<char>) -> Seq<char> {
    seq!['\u{1b}', '['] + body
}

/// A colour as the terminal protocol knows it: one of the sixteen named
/// colours in palette order, a palette index, or a mix.
#[derive(Clone, Copy, PartialEq, Eq, Structural, Debug)]
pub enum Palette {
    Reset,
    Named(u8),
    Indexed(u8),
    Mixed(u8, u8, u8),
}

/// The palette entry of a colour.
pub open spec fn palette(color: Color) -> Palette {
    match color {
        Color::Reset => Palette::Reset,
        Color::Black => Palette::Named(0),
        Color::DarkRed => Palette::Named(1),
        Color::DarkGreen => Palette::Named(2),
        Color::DarkYellow => Palette::Named(3),
        Color::DarkBlue => Palette::Named(4),
        Color::DarkMagenta => Palette::Named(5),
        Color::DarkCyan => Palette::Named(6),
        Color::Grey => Palette::Named(7),
        Color::DarkGrey => Palette::Named(8),
        Color::Red => Palette::Named(9),
        Color::Green => Palette::Named(10),
        Color::Yellow => Palette::Named(11),
        Color::Blue => Palette::Named(12),
        Color::Magenta => Palette::Named(13),
        Color::Cyan => Palette::Named(14),
        Color::White => Palette::Named(15),
        Color::Rgb { r, g, b } => Palette::Mixed(r, g, b),
        Color::AnsiValue(n) => Palette::Indexed(n),
    }
}

/// The palette entry of a colour.
pub fn palette_of(color: Color) -> (p: Palette)
    ensures
        p == palette(color),
        p matches Palette::Named(n) ==> n < 16,
{
    match color {
        Color::Reset => Palette::Reset,
        Color::Black => Palette::Named(0),
        Color::DarkRed => Palette::Named(1),
        Color::DarkGreen => Palette::Named(2),
        Color::DarkYellow => Palette::Named(3),
        Color::DarkBlue => Palette::Named(4),
        Color::DarkMagenta => Palette::Named(5),
        Color::DarkCyan => Palette::Named(6),
        Color::Grey => Palette::Named(7),
        Color::DarkGrey => Palette::Named(8),
        Color::Red => Palette::Named(9),
        Color::Green => Palette::Named(10),
        Color::Yellow => Palette::Named(11),
        Color::Blue => Palette::Named(12),
        Color::Magenta => Palette::Named(13),
        Color::Cyan => Palette::Named(14),
        Color::White => Palette::Named(15),
        Color::Rgb { r, g, b } => Palette::Mixed(r, g, b),
        Color::AnsiValue(n) => Palette::Indexed(n),
    }
}

/// The colour parameter of a style sequence; `plane` is `3` for the foreground
/// and `4` for the background.
pub open spec fn color_parameter(plane: char, p: Palette) -> Seq<char> {
    match p {
        Palette::Reset => seq![plane, '9'],
        Palette::Named(n) => seq![plane, '8', ';', '5', ';'] + decimal(n as nat),
        Palette::Indexed(n) => seq![plane, '8', ';', '5', ';'] + decimal(n as nat),
        Palette::Mixed(r, g, b) => seq![plane, '8', ';', '2', ';'] + decimal(r as nat) + seq![';']
            + decimal(g as nat) + seq![';'] + decimal(b as nat),
    }
}

/// The style sequence that selects a colour.
pub open spec fn color_text(plane: char, p: Palette) -> Seq<char> {
    control(color_parameter(plane, p) + seq!['m'])
}

/// The style sequence without a parameter.
pub open spec fn bare_style_text() -> Seq<char> {
    control(seq!['m'])
}

/// Whether `s` is the text of the command `op`.
///
/// Colours are left out of the text where the environment asks for none.
pub open spec fn is_op_text(op: TermOp, s: Seq<char>) -> bool {
    match op {
        TermOp::MoveUp(n) => s == control(decimal(n as nat) + seq!['A']),
        TermOp::MoveToColumn(n) => s == control(decimal((n + 1) as nat) + seq!['G']),
        TermOp::NextLine => s == seq!['\r', '\n'],
        TermOp::Print(c) => s == seq![c],
        TermOp::ClearToEndOfLine => s == control(seq!['K']),
        TermOp::ClearLine => s == control(seq!['2', 'K']),
        TermOp::ClearDown => s == control(seq!['J']),
        TermOp::ResetStyle => s == control(seq!['0', 'm']),
        TermOp::SetForeground(c) => s == color_text('3', palette(c)) || s == bare_style_text(),
        TermOp::SetBackground(c) => s == color_text('4', palette(c)) || s == bare_style_text(),
        TermOp::SetBold => s == control(seq!['1', 'm']),
        TermOp::SetUnderline => s == control(seq!['4', 'm']),
        TermOp::SetItalic => s == control(seq!['3', 'm']),
    }
}

/// Whether `s` is the texts of the commands one after the other.
pub open spec fn is_ops_text(ops: Seq<TermOp>, s: Seq<char>) -> bool
    decreases ops.len(),
{
    if ops.len() == 0 {
        s.len() == 0
    } else {
        exists|k: int|
            #![trigger s.take(k)]
            0 <= k <= s.len() && is_ops_text(ops.drop_last(), s.take(k)) && is_op_text(
                ops.last(),
                s.skip(k),
            )
    }
}

pub proof fn lemma_ops_text_push(ops: Seq<TermOp>, s: Seq<char>, op: TermOp, t: Seq<char>)
    requires
        is_ops_text(ops, s),
        is_op_text(op, t),
    ensures
        is_ops_text(ops.push(op), s + t),
{
    let k = s.len() as int;
    assert(ops.push(op).drop_last() =~= ops);
    assert((s + t).take(k) =~= s);
    assert((s + t).skip(k) =~= t);
}

/// A column that the terminal protocol can address.
pub open spec fn addressable(op: TermOp) -> bool {
    op != TermOp::MoveToColumn(u16::MAX)
}

/// Appends the text of crossterm's `MoveUp` command: `CSI n A`.
#[verifier::external_body]
fn write_move_up(out: &mut String, n: u16)
    ensures
        final(out)@ == old(out)@ + control(decimal(n as nat) + seq!['A']),
{
    let _ = crossterm::Command::write_ansi(&crossterm::cursor::MoveUp(n), out);
}

/// Appends the text of crossterm's `MoveToColumn` command: `CSI n+1 G`. The
/// addition must not overflow.
#[verifier::external_body]
fn write_move_to_column(out: &mut String, n: u16)
    requires
        n < u16::MAX,
    ensures
        final(out)@ == old(out)@ + control(decimal((n + 1) as nat) + seq!['G']),
{
    let _ = crossterm::Command::write_ansi(&crossterm::cursor::MoveToColumn(n), out);
}

/// Appends the text of crossterm's `Print` command for one character: the
/// character itself.
#[verifier::external_body]
fn write_print(out: &mut String, c: char)
    ensures
        final(out)@ == old(out)@ + seq![c],
{
    let _ = crossterm::Command::write_ansi(&crossterm::style::Print(c), out);
}

/// Which part of the screen a clear command erases.
#[derive(Clone, Copy, PartialEq, Eq, Structural, Debug)]
pub enum ClearPart {
    ToEndOfLine,
    Line,
    Down,
}

/// Appends the text of crossterm's `Clear` command: `CSI K` up to the end of
/// the row, `CSI 2 K` for the row, `CSI J` down to the end of the screen.
#[verifier::external_body]
fn write_clear(out: &mut String, part: ClearPart)
    ensures
        final(out)@ == old(out)@ + control(
            match part {
                ClearPart::ToEndOfLine => seq!['K'],
                ClearPart::Line => seq!['2', 'K'],
                ClearPart::Down => seq!['J'],
            },
        ),
{
    let kind = match part {
        ClearPart::ToEndOfLine => crossterm::terminal::ClearType::UntilNewLine,
        ClearPart::Line => crossterm::terminal::ClearType::CurrentLine,
        ClearPart::Down => crossterm::terminal::ClearType::FromCursorDown,
    };
    let _ = crossterm::Command::write_ansi(&crossterm::terminal::Clear(kind), out);
}

/// A text attribute.
#[derive(Clone, Copy, PartialEq, Eq, Structural, Debug)]
pub enum Attribute {
    Reset,
    Bold,
    Underline,
    Italic,
}

/// Appends the text of crossterm's `SetAttribute` command: `CSI n m`, where
/// `n` is 0 for reset, 1 for bold, 4 for underlined and 3 for italic.
#[verifier::external_body]
fn write_attribute(out: &mut String, attribute: Attribute)
    ensures
        final(out)@ == old(out)@ + control(
            match attribute {
                Attribute::Reset => seq!['0', 'm'],
                Attribute::Bold => seq!['1', 'm'],
                Attribute::Underline => seq!['4', 'm'],
                Attribute::Italic => seq!['3', 'm'],
            },
        ),
{
    let kind = match attribute {
        Attribute::Reset => crossterm::style::Attribute::Reset,
        Attribute::Bold => crossterm::style::Attribute::Bold,
        Attribute::Underline => crossterm::style::Attribute::Underlined,
        Attribute::Italic => crossterm::style::Attribute::Italic,
    };
    let _ = crossterm::Command::write_ansi(&crossterm::style::SetAttribute(kind), out);
}

/// Appends the text of crossterm's `SetForegroundColor` command: `CSI 38;5;n m`
/// for a named colour or a palette index, `CSI 38;2;r;g;b m` for a mix,
/// `CSI 39 m` for reset; only `CSI m` where the environment variable
/// `NO_COLOR` is set.
#[verifier::external_body]
fn write_foreground(out: &mut String, color: Palette)
    requires
        color matches Palette::Named(n) ==> n < 16,
    ensures
        final(out)@ == old(out)@ + color_text('3', color) || final(out)@ == old(out)@
            + bare_style_text(),
{
    let named = [CtColor::Black, CtColor::DarkRed, CtColor::DarkGreen, CtColor::DarkYellow,
        CtColor::DarkBlue, CtColor::DarkMagenta, CtColor::DarkCyan, CtColor::Grey,
        CtColor::DarkGrey, CtColor::Red, CtColor::Green, CtColor::Yellow,
        CtColor::Blue, CtColor::Magenta, CtColor::Cyan, CtColor::White];
    let c = match color {
        Palette::Reset => CtColor::Reset,
        Palette::Named(n) => named[n as usize],
        Palette::Indexed(n) => CtColor::AnsiValue(n),
        Palette::Mixed(r, g, b) => CtColor::Rgb { r, g, b },
    };
    let _ = crossterm::Command::write_ansi(&crossterm::style::SetForegroundColor(c), out);
}

/// Appends the text of crossterm's `SetBackgroundColor` command: `CSI 48;5;n m`
/// for a named colour or a palette index, `CSI 48;2;r;g;b m` for a mix,
/// `CSI 49 m` for reset; only `CSI m` where the environment variable
/// `NO_COLOR` is set.
#[verifier::external_body]
fn write_background(out: &mut String, color: Palette)
    requires
        color matches Palette::Named(n) ==> n < 16,
    ensures
        final(out)@ == old(out)@ + color_text('4', color) || final(out)@ == old(out)@
            + bare_style_text(),
{
    let named = [CtColor::Black, CtColor::DarkRed, CtColor::DarkGreen, CtColor::DarkYellow,
        CtColor::DarkBlue, CtColor::DarkMagenta, CtColor::DarkCyan, CtColor::Grey,
        CtColor::DarkGrey, CtColor::Red, CtColor::Green, CtColor::Yellow,
        CtColor::Blue, CtColor::Magenta, CtColor::Cyan, CtColor::White];
    let c = match color {
        Palette::Reset => CtColor::Reset,
        Palette::Named(n) => named[n as usize],
        Palette::Indexed(n) => CtColor::AnsiValue(n),
        Palette::Mixed(r, g, b) => CtColor::Rgb { r, g, b },
    };
    let _ = crossterm::Command::write_ansi(&crossterm::style::SetBackgroundColor(c), out);
}

/// Appends the text of one command.
pub fn write_op(out: &mut String, op: TermOp)
    requires
        addressable(op),
    ensures
        final(out)@.len() >= old(out)@.len(),
        final(out)@.take(old(out)@.len() as int) == old(out)@,
        is_op_text(op, final(out)@.skip(old(out)@.len() as int)),
{
    let ghost start = out@;
    match op {
        TermOp::MoveUp(n) => write_move_up(out, n),
        TermOp::MoveToColumn(n) => write_move_to_column(out, n),
        TermOp::NextLine => {
            write_print(out, '\r');
            write_print(out, '\n');
            proof {
                assert(out@ =~= start + seq!['\r', '\n']);
            }
        },
        TermOp::Print(c) => write_print(out, c),
        TermOp::ClearToEndOfLine => write_clear(out, ClearPart::ToEndOfLine),
        TermOp::ClearLine => write_clear(out, ClearPart::Line),
        TermOp::ClearDown => write_clear(out, ClearPart::Down),
        TermOp::ResetStyle => write_attribute(out, Attribute::Reset),
        TermOp::SetForeground(c) => write_foreground(out, palette_of(c)),
        TermOp::SetBackground(c) => write_background(out, palette_of(c)),
        TermOp::SetBold => write_attribute(out, Attribute::Bold),
        TermOp::SetUnderline => write_attribute(out, Attribute::Underline),
        TermOp::SetItalic => write_attribute(out, Attribute::Italic),
    }
    proof {
        assert(exists|t: Seq<char>| is_op_text(op, t) && #[trigger] (start + t) == out@);
        let t = choose|t: Seq<char>| is_op_text(op, t) && #[trigger] (start + t) == out@;
        assert(out@.take(start.len() as int) =~= start);
        assert(out@.skip(start.len() as int) =~= t);
    }
}

/// Appends the texts of the commands.
pub fn write_ops(out: &mut String, ops: &[TermOp])
    requires
        forall|i: int| 0 <= i < ops@.len() ==> addressable(#[trigger] ops@[i]),
    ensures
        final(out)@.len() >= old(out)@.len(),
        final(out)@.take(old(out)@.len() as int) == old(out)@,
        is_ops_text(ops@, final(out)@.skip(old(out)@.len() as int)),
{
    let ghost start = out@;
    let ghost n = start.len() as int;
    let mut i: usize = 0;
    proof {
        assert(out@.take(n) =~= start);
        assert(out@.skip(n) =~= Seq::<char>::empty());
    }
    while i < ops.len()
        invariant
            i <= ops@.len(),
            n == start.len(),
            forall|j: int| 0 <= j < ops@.len() ==> addressable(#[trigger] ops@[j]),
            out@.len() >= n,
            out@.take(n) == start,
            is_ops_text(ops@.take(i as int), out@.skip(n)),
        decreases ops@.len() - i,
    {
        let ghost before = out@;
        write_op(out, ops[i]);
        proof {
            let t = out@.skip(before.len() as int);
            assert(out@ =~= before + t);
            assert(out@.take(n) =~= before.take(n));
            assert(out@.skip(n) =~= before.skip(n) + t);
            lemma_ops_text_push(ops@.take(i as int), before.skip(n), ops@[i as int], t);
            assert(ops@.take(i as int).push(ops@[i as int]) =~= ops@.take(i + 1));
        }
        i = i + 1;
    }
    proof {
        assert(ops@.take(i as int) =~= ops@);
    }
}

// ---------------------------------------------------------------------------
// What the commands do
// ---------------------------------------------------------------------------

/// A terminal as seen from the row where the prompt starts.
///
/// A row holds the cells that were written to it; the rest of it is blank.
/// Every character takes one column. The screen is tall enough for all rows
/// from the prompt's first one on. After a character in the last column the
/// cursor stands behind that column (at `width`) until it moves.
#[verifier::ext_equal]
pub struct Terminal {
    pub width: nat,
    pub rows: Map<int, Seq<Cell>>,
    pub row: int,
    pub col: int,
    pub pen: Style,
}

/// `content` with `c` written at column `col`, with blanks before it where
/// nothing was.
pub open spec fn put_cell(content: Seq<Cell>, col: int, c: Cell) -> Seq<Cell> {
    if col < content.len() {
        content.update(col, c)
    } else {
        (content + Seq::new((col - content.len()) as nat, |i: int| cell(' ', plain_style()))).push(
            c,
        )
    }
}

impl Terminal {
    /// The cells written to row `i`.
    pub open spec fn content(self, i: int) -> Seq<Cell> {
        if self.rows.contains_key(i) {
            self.rows[i]
        } else {
            Seq::empty()
        }
    }

    /// The column that an erase command starts from.
    pub open spec fn erase_from(self) -> int {
        if self.col < self.width {
            self.col
        } else {
            self.width - 1
        }
    }

    /// The rest of row `i` after everything from `col` on is erased.
    pub open spec fn cut(self, i: int, col: int) -> Seq<Cell> {
        if col < self.content(i).len() {
            self.content(i).take(col)
        } else {
            self.content(i)
        }
    }

    /// The terminal after one command.
    pub open spec fn step(self, op: TermOp) -> Terminal {
        match op {
            TermOp::MoveUp(n) => Terminal {
                row: self.row - n,
                col: self.erase_from(),
                ..self
            },
            TermOp::MoveToColumn(n) => Terminal {
                col: if n < self.width {
                    n as int
                } else {
                    self.width - 1
                },
                ..self
            },
            TermOp::NextLine => Terminal { row: self.row + 1, col: 0, ..self },
            TermOp::Print(ch) => {
                let at = if self.col < self.width {
                    (self.row, self.col)
                } else {
                    (self.row + 1, 0)
                };
                Terminal {
                    rows: self.rows.insert(
                        at.0,
                        put_cell(self.content(at.0), at.1, cell(ch, self.pen)),
                    ),
                    row: at.0,
                    col: at.1 + 1,
                    ..self
                }
            },
            TermOp::ClearToEndOfLine => Terminal {
                rows: self.rows.insert(self.row, self.cut(self.row, self.erase_from())),
                ..self
            },
            TermOp::ClearLine => Terminal {
                rows: self.rows.insert(self.row, Seq::empty()),
                ..self
            },
            TermOp::ClearDown => Terminal {
                rows: Map::new(
                    |i: int| self.rows.contains_key(i) && i <= self.row,
                    |i: int|
                        if i < self.row {
                            self.rows[i]
                        } else {
                            self.cut(i, self.erase_from())
                        },
                ),
                ..self
            },
            TermOp::ResetStyle => Terminal { pen: plain_style(), ..self },
            TermOp::SetForeground(c) => Terminal {
                pen: Style { fg: Some(c), ..self.pen },
                ..self
            },
            TermOp::SetBackground(c) => Terminal {
                pen: Style { bg: Some(c), ..self.pen },
                ..self
            },
            TermOp::SetBold => Terminal { pen: Style { bold: true, ..self.pen }, ..self },
            TermOp::SetUnderline => Terminal { pen: Style { underline: true, ..self.pen }, ..self },
            TermOp::SetItalic => Terminal { pen: Style { italic: true, ..self.pen }, ..self },
        }
    }

    /// The terminal after the commands in order.
    pub open spec fn run(self, ops: Seq<TermOp>) -> Terminal
        decreases ops.len(),
    {
        if ops.len() == 0 {
            self
        } else {
            self.run(ops.drop_last()).step(ops.last())
        }
    }

    /// Whether the rows from the prompt's first one on hold exactly `lines`.
    pub open spec fn shows(self, lines: Seq<Seq<Cell>>) -> bool {
        forall|i: int|
            0 <= i ==> #[trigger] self.content(i) == if i < lines.len() {
                lines[i]
            } else {
                Seq::empty()
            }
    }
}

pub proof fn lemma_run_add(t: Terminal, a: Seq<TermOp>, b: Seq<TermOp>)
    ensures
        t.run(a + b) == t.run(a).run(b),
    decreases b.len(),
{
    if b.len() == 0 {
        assert(a + b =~= a);
    } else {
        lemma_run_add(t, a, b.drop_last());
        assert((a + b).drop_last() =~= a + b.drop_last());
    }
}

pub proof fn lemma_run_one(t: Terminal, op: TermOp)
    ensures
        t.run(seq![op]) == t.step(op),
{
    assert(seq![op].drop_last() =~= Seq::<TermOp>::empty());
    reveal_with_fuel(Terminal::run, 2);
}

// ---------------------------------------------------------------------------
// Laws
// ---------------------------------------------------------------------------

/// Each of the eight hues has a dark and a bright entry of the palette, eight
/// apart, and no two colours share an entry.
pub proof fn law_bright_colors_are_eight_above_dark_ones(a: Color, b: Color)
    ensures
        palette(Color::Black) == Palette::Named(0) && palette(Color::DarkGrey) == Palette::Named(8),
        palette(Color::Grey) == Palette::Named(7) && palette(Color::White) == Palette::Named(15),
        palette(Color::DarkRed) matches Palette::Named(n) && palette(Color::Red) == Palette::Named(
            (n + 8) as u8,
        ),
        palette(Color::DarkGreen) matches Palette::Named(n) && palette(Color::Green)
            == Palette::Named((n + 8) as u8),
        palette(Color::DarkYellow) matches Palette::Named(n) && palette(Color::Yellow)
            == Palette::Named((n + 8) as u8),
        palette(Color::DarkBlue) matches Palette::Named(n) && palette(Color::Blue)
            == Palette::Named((n + 8) as u8),
        palette(Color::DarkMagenta) matches Palette::Named(n) && palette(Color::Magenta)
            == Palette::Named((n + 8) as u8),
        palette(Color::DarkCyan) matches Palette::Named(n) && palette(Color::Cyan)
            == Palette::Named((n + 8) as u8),
        palette(a) == palette(b) <==> a == b,
{
}

/// The text of two runs of commands, one after the other, is the text of both
/// together.
pub proof fn law_commands_are_written_one_after_the_other(
    a: Seq<TermOp>,
    s: Seq<char>,
    b: Seq<TermOp>,
    t: Seq<char>,
)
    requires
        is_ops_text(a, s),
        is_ops_text(b, t),
    ensures
        is_ops_text(a + b, s + t),
    decreases b.len(),
{
    if b.len() == 0 {
        assert(a + b =~= a);
        assert(s + t =~= s);
    } else {
        let k = choose|k: int|
            #![trigger t.take(k)]
            0 <= k <= t.len() && is_ops_text(b.drop_last(), t.take(k)) && is_op_text(
                b.last(),
                t.skip(k),
            );
        law_commands_are_written_one_after_the_other(a, s, b.drop_last(), t.take(k));
        lemma_ops_text_push(a + b.drop_last(), s + t.take(k), b.last(), t.skip(k));
        assert((a + b.drop_last()).push(b.last()) =~= a + b);
        assert(s + t.take(k) + t.skip(k) =~= s + t);
    }
}

} // verus!

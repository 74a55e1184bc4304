//! Dual-buffer diff-based screen renderer.
//!
//! A [`Screen`] remembers what is currently on the terminal and compares it
//! with what should be there, so that only the changed characters are written.
//! Cursor movement is always relative: upwards with a cursor-up command,
//! downwards with line feeds (which scroll at the bottom of the screen), and
//! within the row with an absolute column.

use crate::style::{plain_style, Cell, Style, StyledText};
use crate::terminal::{
    addressable, is_ops_text, lemma_run_add, lemma_run_one, write_ops, TermOp, Terminal,
};
use vstd::prelude::*;

verus! {

// ---------------------------------------------------------------------------
// Layout
// ---------------------------------------------------------------------------

/// The rows of cells of a list of vectors.
pub open spec fn row_views(rows: Seq<Vec<Cell>>) -> Seq<Seq<Cell>> {
    Seq::new(rows.len(), |i: int| rows[i]@)
}

/// The cells split into logical lines at the newlines.
pub open spec fn logical_lines(cells: Seq<Cell>) -> Seq<Seq<Cell>>
    decreases cells.len(),
{
    if cells.len() == 0 {
        seq![Seq::empty()]
    } else {
        let before = logical_lines(cells.drop_last());
        let c = cells.last();
        if c.ch == '\n' {
            before.push(Seq::empty())
        } else {
            before.drop_last().push(before.last().push(c))
        }
    }
}

/// The lines without a last line that is empty, unless it is the only one.
pub open spec fn drop_final_empty(lines: Seq<Seq<Cell>>) -> Seq<Seq<Cell>> {
    if lines.len() > 1 && lines.last().len() == 0 {
        lines.drop_last()
    } else {
        lines
    }
}

/// One line cut into rows of at most `width` cells.
pub open spec fn wrap_line(line: Seq<Cell>, width: nat) -> Seq<Seq<Cell>>
    decreases line.len(),
{
    if line.len() <= width || width == 0 {
        seq![line]
    } else {
        seq![line.take(width as int)] + wrap_line(line.skip(width as int), width)
    }
}

/// The rows of all lines.
pub open spec fn wrap_lines(lines: Seq<Seq<Cell>>, width: nat) -> Seq<Seq<Cell>>
    decreases lines.len(),
{
    if lines.len() == 0 {
        Seq::empty()
    } else {
        wrap_lines(lines.drop_last(), width) + wrap_line(lines.last(), width)
    }
}

/// A width of at least one column.
pub open spec fn at_least_one(width: nat) -> nat {
    if width == 0 {
        1
    } else {
        width
    }
}

/// The physical rows of `cells` on a terminal of the given width.
pub open spec fn layout(cells: Seq<Cell>, width: nat) -> Seq<Seq<Cell>> {
    wrap_lines(drop_final_empty(logical_lines(cells)), at_least_one(width))
}

/// All rows one after the other.
pub open spec fn all_rows(rows: Seq<Seq<Cell>>) -> Seq<Cell>
    decreases rows.len(),
{
    if rows.len() == 0 {
        Seq::empty()
    } else {
        all_rows(rows.drop_last()) + rows.last()
    }
}

proof fn lemma_logical_nonempty(cells: Seq<Cell>)
    ensures
        logical_lines(cells).len() > 0,
    decreases cells.len(),
{
    if cells.len() > 0 {
        lemma_logical_nonempty(cells.drop_last());
    }
}

pub proof fn lemma_all_rows_add(a: Seq<Seq<Cell>>, b: Seq<Seq<Cell>>)
    ensures
        all_rows(a + b) == all_rows(a) + all_rows(b),
    decreases b.len(),
{
    if b.len() == 0 {
        assert(a + b =~= a);
        assert(all_rows(a) + all_rows(b) =~= all_rows(a));
    } else {
        lemma_all_rows_add(a, b.drop_last());
        assert((a + b).drop_last() =~= a + b.drop_last());
        assert(all_rows(a + b) =~= all_rows(a) + all_rows(b));
    }
}

pub proof fn lemma_all_rows_one(row: Seq<Cell>)
    ensures
        all_rows(seq![row]) == row,
{
    assert(seq![row].drop_last() =~= Seq::<Seq<Cell>>::empty());
    reveal_with_fuel(all_rows, 2);
    assert(Seq::<Cell>::empty() + row =~= row);
}

proof fn lemma_wrap_line(line: Seq<Cell>, width: nat)
    requires
        width > 0,
    ensures
        all_rows(wrap_line(line, width)) == line,
        wrap_line(line, width).len() > 0,
        forall|i: int|
            0 <= i < wrap_line(line, width).len() ==> (#[trigger] wrap_line(
                line,
                width,
            )[i]).len() <= width,
    decreases line.len(),
{
    if line.len() <= width {
        lemma_all_rows_one(line);
    } else {
        let head = line.take(width as int);
        let tail = line.skip(width as int);
        lemma_wrap_line(tail, width);
        lemma_all_rows_add(seq![head], wrap_line(tail, width));
        lemma_all_rows_one(head);
        assert(head + tail =~= line);
        assert forall|i: int| 0 <= i < wrap_line(line, width).len() implies (#[trigger] wrap_line(
            line,
            width,
        )[i]).len() <= width by {
            if i > 0 {
                assert(wrap_line(line, width)[i] == wrap_line(tail, width)[i - 1]);
            }
        }
    }
}

proof fn lemma_wrap_lines(lines: Seq<Seq<Cell>>, width: nat)
    requires
        width > 0,
    ensures
        all_rows(wrap_lines(lines, width)) == all_rows(lines),
        wrap_lines(lines, width).len() >= lines.len(),
        forall|i: int|
            0 <= i < wrap_lines(lines, width).len() ==> (#[trigger] wrap_lines(
                lines,
                width,
            )[i]).len() <= width,
    decreases lines.len(),
{
    if lines.len() > 0 {
        let a = wrap_lines(lines.drop_last(), width);
        let b = wrap_line(lines.last(), width);
        lemma_wrap_lines(lines.drop_last(), width);
        lemma_wrap_line(lines.last(), width);
        lemma_all_rows_add(a, b);
        assert forall|i: int| 0 <= i < (a + b).len() implies (#[trigger] (a + b)[i]).len()
            <= width by {
            if i >= a.len() {
                assert((a + b)[i] == b[i - a.len()]);
            } else {
                assert((a + b)[i] == a[i]);
            }
        }
    }
}

proof fn lemma_logical_cells(cells: Seq<Cell>)
    ensures
        all_rows(logical_lines(cells)) == crate::style::visible_cells(cells),
    decreases cells.len(),
{
    reveal(Seq::filter);
    if cells.len() == 0 {
        lemma_all_rows_one(Seq::empty());
        assert(crate::style::visible_cells(cells) =~= Seq::<Cell>::empty());
    } else {
        let before = logical_lines(cells.drop_last());
        let c = cells.last();
        lemma_logical_cells(cells.drop_last());
        lemma_logical_nonempty(cells.drop_last());
        crate::style::lemma_visible_push(cells.drop_last(), c);
        assert(cells.drop_last().push(c) =~= cells);
        assert(before.drop_last().push(before.last()) =~= before);
        if c.ch == '\n' {
            assert(before.push(Seq::<Cell>::empty()).drop_last() =~= before);
            assert(all_rows(before) + Seq::<Cell>::empty() =~= all_rows(before));
        } else {
            let last = before.last().push(c);
            assert(before.drop_last().push(last).drop_last() =~= before.drop_last());
            assert(all_rows(before.drop_last()) + last =~= (all_rows(before.drop_last())
                + before.last()).push(c));
        }
    }
}

/// Laying text out loses and adds no character: the rows one after the other
/// are the cells of the text without its newlines.
pub proof fn law_layout_keeps_cells(cells: Seq<Cell>, width: nat)
    ensures
        all_rows(layout(cells, width)) == crate::style::visible_cells(cells),
{
    let lines = logical_lines(cells);
    lemma_logical_cells(cells);
    lemma_logical_nonempty(cells);
    lemma_wrap_lines(drop_final_empty(lines), at_least_one(width));
    if lines.len() > 1 && lines.last().len() == 0 {
        assert(all_rows(lines.drop_last()) + lines.last() =~= all_rows(lines.drop_last()));
    }
}

/// Every laid out row fits the terminal, and there is always at least one row.
pub proof fn law_layout_fits(cells: Seq<Cell>, width: nat)
    ensures
        layout(cells, width).len() > 0,
        forall|i: int|
            0 <= i < layout(cells, width).len() ==> (#[trigger] layout(cells, width)[i]).len()
                <= at_least_one(width),
{
    lemma_logical_nonempty(cells);
    lemma_wrap_lines(drop_final_empty(logical_lines(cells)), at_least_one(width));
}

/// A copy of the cells from `from` up to `to`.
fn copy_cells(cells: &[Cell], from: usize, to: usize) -> (row: Vec<Cell>)
    requires
        from <= to <= cells@.len(),
    ensures
        row@ == cells@.subrange(from as int, to as int),
{
    let mut row: Vec<Cell> = Vec::new();
    let mut i: usize = from;
    while i < to
        invariant
            from <= i <= to <= cells@.len(),
            row@ == cells@.subrange(from as int, i as int),
        decreases to - i,
    {
        row.push(cells[i]);
        proof {
            assert(cells@.subrange(from as int, i as int).push(cells@[i as int])
                =~= cells@.subrange(from as int, i + 1));
        }
        i = i + 1;
    }
    row
}

/// Appends the rows of one line.
fn push_wrapped(rows: &mut Vec<Vec<Cell>>, line: &[Cell], width: usize)
    requires
        width > 0,
    ensures
        row_views(final(rows)@) == row_views(old(rows)@) + wrap_line(line@, width as nat),
{
    let mut pos: usize = 0;
    let ghost start = row_views(rows@);
    let ghost target = start + wrap_line(line@, width as nat);
    proof {
        assert(line@.skip(0) =~= line@);
    }
    while line.len() - pos > width
        invariant
            width > 0,
            pos <= line@.len(),
            row_views(rows@) + wrap_line(line@.skip(pos as int), width as nat) == target,
        decreases line@.len() - pos,
    {
        let ghost rest = line@.skip(pos as int);
        let ghost done = rows@;
        let row = copy_cells(line, pos, pos + width);
        rows.push(row);
        proof {
            assert(row@ =~= rest.take(width as int));
            assert(rest.skip(width as int) =~= line@.skip(pos + width));
            assert(row_views(rows@) =~= row_views(done).push(row@));
            assert(row_views(rows@) + wrap_line(line@.skip(pos + width), width as nat)
                =~= row_views(done) + wrap_line(rest, width as nat));
        }
        pos = pos + width;
    }
    let ghost done = rows@;
    let row = copy_cells(line, pos, line.len());
    rows.push(row);
    proof {
        assert(row@ =~= line@.skip(pos as int));
        assert(row_views(rows@) =~= row_views(done).push(row@));
        assert(row_views(rows@) =~= row_views(done) + seq![row@]);
    }
}

/// Splits styled content into physical terminal rows.
///
/// Each newline starts a new logical line, and lines are wrapped at the
/// terminal width. There is always at least one (possibly empty) row.
pub fn layout_lines(content: &StyledText, width: usize) -> (rows: Vec<Vec<Cell>>)
    ensures
        row_views(rows@) == layout(crate::style::raw_cells(content@), width as nat),
{
    let w: usize = if width == 0 {
        1
    } else {
        width
    };
    let cells = content.all_cells();

    let mut lines: Vec<Vec<Cell>> = Vec::new();
    let mut current: Vec<Cell> = Vec::new();
    let mut i: usize = 0;
    proof {
        assert(cells@.take(0) =~= Seq::<Cell>::empty());
        assert(row_views(lines@).push(current@) =~= seq![Seq::<Cell>::empty()]);
    }
    while i < cells.len()
        invariant
            i <= cells@.len(),
            row_views(lines@).push(current@) == logical_lines(cells@.take(i as int)),
        decreases cells@.len() - i,
    {
        let ghost before = row_views(lines@).push(current@);
        let ghost done = lines@;
        proof {
            assert(cells@.take(i + 1).drop_last() =~= cells@.take(i as int));
            assert(cells@.take(i + 1).last() == cells@[i as int]);
            assert(before.drop_last() =~= row_views(lines@));
        }
        if cells[i].ch == '\n' {
            lines.push(current);
            current = Vec::new();
            proof {
                assert(row_views(lines@) =~= before);
                assert(current@ =~= Seq::<Cell>::empty());
            }
        } else {
            current.push(cells[i]);
        }
        i = i + 1;
    }
    proof {
        assert(cells@.take(i as int) =~= cells@);
    }
    let ghost split = row_views(lines@).push(current@);
    if lines.len() == 0 || current.len() > 0 {
        let ghost done = lines@;
        lines.push(current);
        proof {
            assert(row_views(lines@) =~= split);
        }
    } else {
        proof {
            assert(split.drop_last() =~= row_views(lines@));
        }
    }
    proof {
        assert(row_views(lines@) == drop_final_empty(logical_lines(cells@)));
    }

    let mut rows: Vec<Vec<Cell>> = Vec::new();
    let mut k: usize = 0;
    proof {
        assert(row_views(rows@) =~= wrap_lines(row_views(lines@).take(0), w as nat));
    }
    while k < lines.len()
        invariant
            w > 0,
            k <= lines@.len(),
            row_views(rows@) == wrap_lines(row_views(lines@).take(k as int), w as nat),
        decreases lines@.len() - k,
    {
        proof {
            let all = row_views(lines@);
            assert(all.take(k + 1).drop_last() =~= all.take(k as int));
            assert(all.take(k + 1).last() == lines@[k as int]@);
        }
        push_wrapped(&mut rows, lines[k].as_slice(), w);
        k = k + 1;
    }
    proof {
        assert(row_views(lines@).take(k as int) =~= row_views(lines@));
    }
    rows
}

// ---------------------------------------------------------------------------
// Emitting styled cells
// ---------------------------------------------------------------------------

/// The commands that turn plain style into `style`.
pub open spec fn apply_ops(style: Style) -> Seq<TermOp> {
    let fg = match style.fg {
        Some(c) => seq![TermOp::SetForeground(c)],
        None => Seq::empty(),
    };
    let bg = match style.bg {
        Some(c) => seq![TermOp::SetBackground(c)],
        None => Seq::empty(),
    };
    let bold = if style.bold {
        seq![TermOp::SetBold]
    } else {
        Seq::empty()
    };
    let underline = if style.underline {
        seq![TermOp::SetUnderline]
    } else {
        Seq::empty()
    };
    let italic = if style.italic {
        seq![TermOp::SetItalic]
    } else {
        Seq::empty()
    };
    fg + bg + bold + underline + italic
}

/// The commands that turn the style `from` into `to`.
pub open spec fn switch_ops(from: Style, to: Style) -> Seq<TermOp> {
    if from == to {
        Seq::empty()
    } else {
        let reset = if from != plain_style() {
            seq![TermOp::ResetStyle]
        } else {
            Seq::empty()
        };
        reset + apply_ops(to)
    }
}

/// The commands that write `cells` from plain style on, up to but not back to
/// plain style.
pub open spec fn write_cells_ops(cells: Seq<Cell>) -> Seq<TermOp>
    decreases cells.len(),
{
    if cells.len() == 0 {
        Seq::empty()
    } else {
        write_cells_ops(cells.drop_last()) + switch_ops(
            last_style(cells.drop_last()),
            cells.last().style,
        ) + seq![TermOp::Print(cells.last().ch)]
    }
}

/// The style of the last cell, plain where there is none.
pub open spec fn last_style(cells: Seq<Cell>) -> Style {
    if cells.len() == 0 {
        plain_style()
    } else {
        cells.last().style
    }
}

/// The commands that write `cells`, from plain style back to plain style.
/// Style commands stand only where the style changes.
pub open spec fn emit_ops(cells: Seq<Cell>) -> Seq<TermOp> {
    write_cells_ops(cells) + switch_ops(last_style(cells), plain_style())
}

/// Appends the commands that turn plain style into `style`.
fn push_style(ops: &mut Vec<TermOp>, style: Style)
    ensures
        final(ops)@ == old(ops)@ + apply_ops(style),
{
    if let Some(c) = style.fg {
        ops.push(TermOp::SetForeground(c));
    }
    if let Some(c) = style.bg {
        ops.push(TermOp::SetBackground(c));
    }
    if style.bold {
        ops.push(TermOp::SetBold);
    }
    if style.underline {
        ops.push(TermOp::SetUnderline);
    }
    if style.italic {
        ops.push(TermOp::SetItalic);
    }
    proof {
        assert(ops@ =~= old(ops)@ + apply_ops(style));
    }
}

/// Appends the commands that turn the style `from` into `to`.
fn push_switch(ops: &mut Vec<TermOp>, from: Style, to: Style)
    ensures
        final(ops)@ == old(ops)@ + switch_ops(from, to),
{
    if from != to {
        if from != Style::default() {
            ops.push(TermOp::ResetStyle);
        }
        push_style(ops, to);
    }
    proof {
        assert(ops@ =~= old(ops)@ + switch_ops(from, to));
    }
}

/// Appends the commands that write a run of styled cells.
///
/// Style commands are only written where the style differs from that of the
/// cell before. The terminal must be in plain style, and is left in it.
pub fn emit_styled_cells(ops: &mut Vec<TermOp>, cells: &[Cell])
    ensures
        final(ops)@ == old(ops)@ + emit_ops(cells@),
{
    let ghost start = ops@;
    let mut current = Style::default();
    let mut i: usize = 0;
    proof {
        assert(ops@ =~= start + write_cells_ops(cells@.take(0)));
    }
    while i < cells.len()
        invariant
            i <= cells@.len(),
            current == last_style(cells@.take(i as int)),
            ops@ == start + write_cells_ops(cells@.take(i as int)),
        decreases cells@.len() - i,
    {
        let c = cells[i];
        push_switch(ops, current, c.style);
        ops.push(TermOp::Print(c.ch));
        proof {
            assert(cells@.take(i + 1).drop_last() =~= cells@.take(i as int));
            assert(cells@.take(i + 1).last() == c);
            assert(ops@ =~= start + write_cells_ops(cells@.take(i + 1)));
        }
        current = c.style;
        i = i + 1;
    }
    push_switch(ops, current, Style::default());
    proof {
        assert(cells@.take(i as int) =~= cells@);
        assert(ops@ =~= start + emit_ops(cells@));
    }
}

// ---------------------------------------------------------------------------
// The difference between two screens
// ---------------------------------------------------------------------------

/// A cursor position: row and column.
pub type Position = (nat, nat);

/// The commands that move the cursor with relative vertical movement.
pub open spec fn move_ops(from: Position, to: Position) -> Seq<TermOp> {
    let vertical = if to.0 < from.0 {
        seq![TermOp::MoveUp((from.0 - to.0) as u16)]
    } else {
        Seq::new((to.0 - from.0) as nat, |i: int| TermOp::NextLine)
    };
    let col = if to.0 > from.0 {
        0
    } else {
        from.1
    };
    let horizontal = if to.1 != col {
        seq![TermOp::MoveToColumn(to.1 as u16)]
    } else {
        Seq::empty()
    };
    vertical + horizontal
}

/// Number of cells from the left in which the two rows agree.
pub open spec fn common_prefix(a: Seq<Cell>, b: Seq<Cell>) -> nat
    decreases a.len(),
{
    if a.len() == 0 || b.len() == 0 || a[0] != b[0] {
        0
    } else {
        1 + common_prefix(a.drop_first(), b.drop_first())
    }
}

proof fn lemma_common_prefix(a: Seq<Cell>, b: Seq<Cell>, k: int)
    requires
        0 <= k <= a.len(),
        k <= b.len(),
        forall|j: int| 0 <= j < k ==> a[j] == b[j],
        k < a.len() && k < b.len() ==> a[k] != b[k],
    ensures
        common_prefix(a, b) == k,
    decreases a.len(),
{
    if k > 0 {
        assert(a[0] == b[0]);
        assert forall|j: int| 0 <= j < k - 1 implies a.drop_first()[j] == b.drop_first()[j] by {
            assert(a[j + 1] == b[j + 1]);
        }
        lemma_common_prefix(a.drop_first(), b.drop_first(), k - 1);
    }
}

/// What [`common_prefix`] says: the rows agree before it and not at it.
pub proof fn lemma_common_prefix_props(a: Seq<Cell>, b: Seq<Cell>)
    ensures
        common_prefix(a, b) <= a.len(),
        common_prefix(a, b) <= b.len(),
        a.take(common_prefix(a, b) as int) == b.take(common_prefix(a, b) as int),
        common_prefix(a, b) < a.len() && common_prefix(a, b) < b.len() ==> a[common_prefix(
            a,
            b,
        ) as int] != b[common_prefix(a, b) as int],
    decreases a.len(),
{
    if a.len() == 0 || b.len() == 0 || a[0] != b[0] {
        assert(a.take(0) =~= b.take(0));
    } else {
        let x = a.drop_first();
        let y = b.drop_first();
        lemma_common_prefix_props(x, y);
        let k = common_prefix(x, y) as int;
        assert forall|j: int| 0 <= j < k + 1 implies a[j] == b[j] by {
            if j > 0 {
                assert(x.take(k)[j - 1] == a[j]);
                assert(y.take(k)[j - 1] == b[j]);
            }
        }
        assert(a.take(k + 1) =~= b.take(k + 1));
        if k < x.len() && k < y.len() {
            assert(x[k] == a[k + 1]);
            assert(y[k] == b[k + 1]);
        }
    }
}

/// Row `i` of `lines`, empty where there is none.
pub open spec fn row_at(lines: Seq<Seq<Cell>>, i: int) -> Seq<Cell> {
    if 0 <= i < lines.len() {
        lines[i]
    } else {
        Seq::empty()
    }
}

/// The commands that turn the row `actual` into `desired` on a terminal of the
/// given width, and where they leave the cursor. `last` says that all rows below
/// are to disappear.
///
/// An unchanged row takes no command. Otherwise only what follows the common
/// prefix is written, and what is left over behind it is erased. Behind a row that
/// fills the width there is no column to erase from, so the rows below it are
/// erased from the start of the next one.
pub open spec fn row_ops(
    width: nat,
    actual: Seq<Cell>,
    desired: Seq<Cell>,
    row: nat,
    last: bool,
    from: Position,
) -> (Seq<TermOp>, Position) {
    let p = common_prefix(actual, desired);
    let tail = emit_ops(desired.skip(p as int));
    if actual == desired && !last {
        (Seq::empty(), from)
    } else if last && desired.len() >= width {
        let drawn = if p < desired.len() {
            (move_ops(from, (row, p)) + tail, (row, desired.len()))
        } else {
            (Seq::empty(), from)
        };
        (drawn.0 + move_ops(drawn.1, (row + 1, 0)) + seq![TermOp::ClearDown], (row + 1, 0))
    } else {
        let written = if p < desired.len() {
            tail
        } else {
            Seq::empty()
        };
        let erased = if last {
            seq![TermOp::ClearDown]
        } else if actual.len() > desired.len() {
            seq![TermOp::ClearToEndOfLine]
        } else {
            Seq::empty()
        };
        (move_ops(from, (row, p)) + written + erased, (row, desired.len()))
    }
}

/// The commands for the first `n` rows, and where they leave the cursor.
pub open spec fn rows_ops(
    width: nat,
    actual: Seq<Seq<Cell>>,
    desired: Seq<Seq<Cell>>,
    n: nat,
    from: Position,
) -> (Seq<TermOp>, Position)
    decreases n,
{
    if n == 0 {
        (Seq::empty(), from)
    } else {
        let before = rows_ops(width, actual, desired, (n - 1) as nat, from);
        let this = row_ops(
            width,
            row_at(actual, n - 1),
            desired[n - 1],
            (n - 1) as nat,
            n == desired.len() && actual.len() > n,
            before.1,
        );
        (before.0 + this.0, this.1)
    }
}

/// The commands that turn the screen content `actual` with the cursor at
/// `from` into `desired` with the cursor at `to`, on a terminal of the given
/// width.
pub open spec fn diff_ops(
    width: nat,
    actual: Seq<Seq<Cell>>,
    from: Position,
    desired: Seq<Seq<Cell>>,
    to: Position,
) -> Seq<TermOp> {
    if desired.len() == 0 {
        if actual.len() == 0 {
            Seq::empty()
        } else {
            move_ops(from, (0, 0)) + seq![TermOp::ClearDown]
        }
    } else {
        let rows = rows_ops(width, actual, desired, desired.len(), from);
        rows.0 + move_ops(rows.1, to)
    }
}

/// Whether the terminal protocol can express every command.
pub open spec fn all_addressable(ops: Seq<TermOp>) -> bool {
    forall|i: int| 0 <= i < ops.len() ==> addressable(#[trigger] ops[i])
}

proof fn lemma_addressable_add(a: Seq<TermOp>, b: Seq<TermOp>)
    requires
        all_addressable(a),
        all_addressable(b),
    ensures
        all_addressable(a + b),
{
    assert forall|i: int| 0 <= i < (a + b).len() implies addressable(#[trigger] (a + b)[i]) by {
        if i < a.len() {
            assert((a + b)[i] == a[i]);
        } else {
            assert((a + b)[i] == b[i - a.len()]);
        }
    }
}

proof fn lemma_addressable_emit(cells: Seq<Cell>)
    ensures
        all_addressable(write_cells_ops(cells)),
        all_addressable(emit_ops(cells)),
    decreases cells.len(),
{
    if cells.len() > 0 {
        let before = cells.drop_last();
        let print = seq![TermOp::Print(cells.last().ch)];
        lemma_addressable_emit(before);
        let switch = switch_ops(last_style(before), cells.last().style);
        assert(all_addressable(switch));
        lemma_addressable_add(write_cells_ops(before), switch);
        lemma_addressable_add(write_cells_ops(before) + switch, print);
    }
    let back = switch_ops(last_style(cells), plain_style());
    assert(all_addressable(back));
    lemma_addressable_add(write_cells_ops(cells), back);
}

proof fn lemma_addressable_rows(
    width: nat,
    actual: Seq<Seq<Cell>>,
    desired: Seq<Seq<Cell>>,
    n: nat,
    from: Position,
)
    requires
        n <= desired.len(),
        rows_fit(desired, 65534),
    ensures
        all_addressable(rows_ops(width, actual, desired, n, from).0),
    decreases n,
{
    if n > 0 {
        let m = n - 1;
        lemma_addressable_rows(width, actual, desired, m as nat, from);
        let before = rows_ops(width, actual, desired, m as nat, from);
        let old_row = row_at(actual, m);
        let new_row = desired[m];
        lemma_common_prefix_props(old_row, new_row);
        let p = common_prefix(old_row, new_row);
        let moves = move_ops(before.1, (m as nat, p));
        assert(all_addressable(moves));
        let written = if p < new_row.len() {
            emit_ops(new_row.skip(p as int))
        } else {
            Seq::empty()
        };
        lemma_addressable_emit(new_row.skip(p as int));
        lemma_addressable_add(moves, written);
        lemma_addressable_add(moves + written, seq![TermOp::ClearDown]);
        lemma_addressable_add(moves + written, seq![TermOp::ClearToEndOfLine]);
        lemma_addressable_add(moves + written, Seq::empty());
        let last = n == desired.len() && actual.len() > n;
        let drawn = if p < new_row.len() {
            (moves + written, (m as nat, new_row.len()))
        } else {
            (Seq::empty(), before.1)
        };
        let down = move_ops(drawn.1, (n, 0));
        assert(all_addressable(down));
        lemma_addressable_add(drawn.0, down);
        lemma_addressable_add(drawn.0 + down, seq![TermOp::ClearDown]);
        lemma_addressable_add(before.0, row_ops(width, old_row, new_row, m as nat, last, before.1).0);
    }
}

/// Where rows and cursor stay below the last column number of the terminal
/// protocol, every command of an update can be expressed.
pub proof fn law_updates_can_be_written(
    width: nat,
    actual: Seq<Seq<Cell>>,
    from: Position,
    desired: Seq<Seq<Cell>>,
    to: Position,
)
    requires
        rows_fit(desired, 65534),
        to.1 <= 65534,
    ensures
        all_addressable(diff_ops(width, actual, from, desired, to)),
{
    if desired.len() == 0 {
        assert(all_addressable(move_ops(from, (0, 0))));
        lemma_addressable_add(move_ops(from, (0, 0)), seq![TermOp::ClearDown]);
    } else {
        let rows = rows_ops(width, actual, desired, desired.len(), from);
        lemma_addressable_rows(width, actual, desired, desired.len(), from);
        assert(all_addressable(move_ops(rows.1, to)));
        lemma_addressable_add(rows.0, move_ops(rows.1, to));
    }
}

/// What a screen remembers: the rows on the terminal, the cursor and the width.
#[verifier::ext_equal]
pub struct ScreenModel {
    pub lines: Seq<Seq<Cell>>,
    pub cursor: Position,
    pub width: nat,
}

impl ScreenModel {
    /// What always holds: the width is positive, and on an empty screen the
    /// cursor stands at its start.
    pub open spec fn wf(self) -> bool {
        self.width > 0 && (self.lines.len() == 0 ==> self.cursor == (0nat, 0nat))
    }
}

/// Virtual screen state with diff-based updates.
pub struct Screen {
    /// What is displayed on the terminal.
    lines: Vec<Vec<Cell>>,
    /// Cursor row, counted from the first row of the prompt.
    cursor_row: usize,
    cursor_col: usize,
    /// Terminal width in columns.
    width: usize,
}

impl View for Screen {
    type V = ScreenModel;

    closed spec fn view(&self) -> ScreenModel {
        ScreenModel {
            lines: row_views(self.lines@),
            cursor: (self.cursor_row as nat, self.cursor_col as nat),
            width: self.width as nat,
        }
    }
}

/// Copies the rows.
fn copy_rows(rows: &[Vec<Cell>]) -> (out: Vec<Vec<Cell>>)
    ensures
        row_views(out@) == row_views(rows@),
{
    let mut out: Vec<Vec<Cell>> = Vec::new();
    let mut i: usize = 0;
    while i < rows.len()
        invariant
            i <= rows@.len(),
            row_views(out@) == row_views(rows@).take(i as int),
        decreases rows@.len() - i,
    {
        let row = copy_cells(rows[i].as_slice(), 0, rows[i].len());
        let ghost done = out@;
        out.push(row);
        proof {
            assert(row@ =~= rows@[i as int]@);
            assert(row_views(out@) =~= row_views(done).push(row@));
            assert(row_views(rows@).take(i as int).push(row@) =~= row_views(rows@).take(i + 1));
        }
        i = i + 1;
    }
    proof {
        assert(row_views(rows@).take(i as int) =~= row_views(rows@));
    }
    out
}

/// Number of cells from the left in which the two rows agree.
fn count_common(a: &[Cell], b: &[Cell]) -> (k: usize)
    ensures
        k == common_prefix(a@, b@),
        k <= a@.len(),
        k <= b@.len(),
        k == a@.len() && k == b@.len() <==> a@ == b@,
{
    let mut k: usize = 0;
    while k < a.len() && k < b.len() && a[k] == b[k]
        invariant
            k <= a@.len(),
            k <= b@.len(),
            forall|j: int| 0 <= j < k ==> a@[j] == b@[j],
        decreases a@.len() - k,
    {
        k = k + 1;
    }
    proof {
        lemma_common_prefix(a@, b@, k as int);
        if k == a@.len() && k == b@.len() {
            assert(a@ =~= b@);
        }
    }
    k
}

impl Screen {
    /// An empty screen of the given width, at least one column wide.
    pub fn new(width: usize) -> (s: Self)
        ensures
            s@ == (ScreenModel {
                lines: Seq::empty(),
                cursor: (0, 0),
                width: at_least_one(width as nat),
            }),
            s@.wf(),
    {
        let s = Screen {
            lines: Vec::new(),
            cursor_row: 0,
            cursor_col: 0,
            width: if width == 0 {
                1
            } else {
                width
            },
        };
        proof {
            assert(s@.lines =~= Seq::<Seq<Cell>>::empty());
        }
        s
    }

    /// Updates the terminal width. Call after a resize.
    pub fn set_width(&mut self, width: usize)
        ensures
            final(self)@ == (ScreenModel { width: at_least_one(width as nat), ..old(self)@ }),
            old(self)@.wf() ==> final(self)@.wf(),
    {
        self.width = if width == 0 {
            1
        } else {
            width
        };
    }

    /// The terminal width.
    pub fn width(&self) -> (w: usize)
        ensures
            w == self@.width,
    {
        self.width
    }

    /// Number of physical rows that are on the screen.
    pub fn actual_line_count(&self) -> (n: usize)
        ensures
            n == self@.lines.len(),
    {
        self.lines.len()
    }

    /// Forgets what is on the screen. Call after the prompt area was cleared;
    /// the next update then treats everything as new.
    pub fn invalidate(&mut self)
        ensures
            final(self)@ == (ScreenModel {
                lines: Seq::empty(),
                cursor: (0, 0),
                ..old(self)@
            }),
            old(self)@.wf() ==> final(self)@.wf(),
    {
        self.lines = Vec::new();
        self.cursor_row = 0;
        self.cursor_col = 0;
        proof {
            assert(self@.lines =~= Seq::<Seq<Cell>>::empty());
        }
    }

    /// Appends the commands that move the cursor to `(row, col)`.
    fn move_to(&mut self, ops: &mut Vec<TermOp>, row: usize, col: usize)
        ensures
            final(self)@ == (ScreenModel { cursor: (row as nat, col as nat), ..old(self)@ }),
            final(self).lines == old(self).lines,
            final(ops)@ == old(ops)@ + move_ops(old(self)@.cursor, (row as nat, col as nat)),
    {
        let ghost start = ops@;
        let ghost from = self@.cursor;
        if row < self.cursor_row {
            ops.push(TermOp::MoveUp((self.cursor_row - row) as u16));
        } else if row > self.cursor_row {
            let down: usize = row - self.cursor_row;
            let mut i: usize = 0;
            proof {
                assert(ops@ =~= start + Seq::new(0, |j: int| TermOp::NextLine));
            }
            while i < down
                invariant
                    i <= down,
                    ops@ == start + Seq::new(i as nat, |j: int| TermOp::NextLine),
                decreases down - i,
            {
                ops.push(TermOp::NextLine);
                proof {
                    assert(ops@ =~= start + Seq::new((i + 1) as nat, |j: int| TermOp::NextLine));
                }
                i = i + 1;
            }
            self.cursor_col = 0;
        }
        if col != self.cursor_col {
            ops.push(TermOp::MoveToColumn(col as u16));
        }
        self.cursor_row = row;
        self.cursor_col = col;
        proof {
            assert(ops@ =~= start + move_ops(from, (row as nat, col as nat)));
        }
    }

    /// Appends the commands that write what `desired` holds from column `col` on.
    fn draw_tail(&mut self, ops: &mut Vec<TermOp>, row: usize, desired: &[Cell], col: usize)
        requires
            col < desired@.len(),
        ensures
            final(self)@ == (ScreenModel { cursor: (row as nat, desired@.len()), ..old(self)@ }),
            final(self).lines == old(self).lines,
            final(ops)@ == old(ops)@ + (move_ops(old(self)@.cursor, (row as nat, col as nat))
                + emit_ops(desired@.skip(col as int))),
    {
        let ghost start = ops@;
        let ghost moves = move_ops(self@.cursor, (row as nat, col as nat));
        self.move_to(ops, row, col);
        emit_styled_cells(ops, vstd::slice::slice_subrange(desired, col, desired.len()));
        self.cursor_col = desired.len();
        proof {
            let tail = desired@.skip(col as int);
            assert(desired@.subrange(col as int, desired@.len() as int) =~= tail);
            assert(start + moves + emit_ops(tail) =~= start + (moves + emit_ops(tail)));
        }
    }

    /// Appends the commands that turn the row `actual` into `desired`. `last` says
    /// that all rows below are to disappear.
    fn draw_row(
        &mut self,
        ops: &mut Vec<TermOp>,
        row: usize,
        actual: &[Cell],
        desired: &[Cell],
        last: bool,
    )
        requires
            row < usize::MAX,
        ensures
            ({
                let r = row_ops(
                    old(self)@.width,
                    actual@,
                    desired@,
                    row as nat,
                    last,
                    old(self)@.cursor,
                );
                final(ops)@ == old(ops)@ + r.0 && final(self)@ == (ScreenModel {
                    cursor: r.1,
                    ..old(self)@
                })
            }),
            final(self).lines == old(self).lines,
    {
        let ghost start = ops@;
        let ghost from = self@.cursor;
        let prefix = count_common(actual, desired);
        if prefix == actual.len() && prefix == desired.len() && !last {
            proof {
                assert(start + Seq::<TermOp>::empty() =~= start);
            }
            return;
        }
        let full = last && desired.len() >= self.width;
        if prefix < desired.len() {
            self.draw_tail(ops, row, desired, prefix);
        } else if !full {
            self.move_to(ops, row, prefix);
        }
        if full {
            self.move_to(ops, row + 1, 0);
        }
        if last {
            ops.push(TermOp::ClearDown);
        } else if actual.len() > desired.len() {
            ops.push(TermOp::ClearToEndOfLine);
        }
        proof {
            let r = row_ops(self@.width, actual@, desired@, row as nat, last, from);
            assert(ops@ =~= start + r.0);
        }
    }

    /// The commands that make the terminal match `desired_lines`, the content
    /// split into physical rows, with the cursor at `desired_cursor`.
    pub fn diff(&mut self, desired_lines: &[Vec<Cell>], desired_cursor: (usize, usize)) -> (ops:
        Vec<TermOp>)
        ensures
            ops@ == diff_ops(
                old(self)@.width,
                old(self)@.lines,
                old(self)@.cursor,
                row_views(desired_lines@),
                (desired_cursor.0 as nat, desired_cursor.1 as nat),
            ),
            final(self)@ == (ScreenModel {
                lines: row_views(desired_lines@),
                cursor: if desired_lines@.len() == 0 {
                    (0, 0)
                } else {
                    (desired_cursor.0 as nat, desired_cursor.1 as nat)
                },
                ..old(self)@
            }),
            old(self)@.wf() ==> final(self)@.wf(),
    {
        let mut ops: Vec<TermOp> = Vec::new();
        let ghost width = self@.width;
        let ghost actual = self@.lines;
        let ghost from = self@.cursor;
        let ghost desired = row_views(desired_lines@);
        if desired_lines.len() == 0 {
            if self.lines.len() != 0 {
                self.move_to(&mut ops, 0, 0);
                ops.push(TermOp::ClearDown);
            }
            self.invalidate();
            proof {
                assert(ops@ =~= diff_ops(
                    width,
                    actual,
                    from,
                    desired,
                    (desired_cursor.0 as nat, desired_cursor.1 as nat),
                ));
                assert(desired =~= Seq::<Seq<Cell>>::empty());
            }
            return ops;
        }
        let count = desired_lines.len();
        let mut row: usize = 0;
        while row < count
            invariant
                row <= count,
                count == desired_lines@.len(),
                self@.lines == actual,
                self@.width == width,
                width == old(self)@.width,
                desired == row_views(desired_lines@),
                ops@ == rows_ops(width, actual, desired, row as nat, from).0,
                self@.cursor == rows_ops(width, actual, desired, row as nat, from).1,
            decreases count - row,
        {
            let actual_row = if row < self.lines.len() {
                copy_cells(self.lines[row].as_slice(), 0, self.lines[row].len())
            } else {
                Vec::new()
            };
            let desired_row = &desired_lines[row];
            proof {
                assert(actual_row@ =~= row_at(actual, row as int));
                assert(desired_row@ == desired[row as int]);
            }
            let more_below = row == count - 1 && self.lines.len() > count;
            proof {
                assert(more_below == (row + 1 == desired.len() && actual.len() > row + 1));
            }
            self.draw_row(&mut ops, row, actual_row.as_slice(), desired_row.as_slice(), more_below);
            row = row + 1;
        }
        self.move_to(&mut ops, desired_cursor.0, desired_cursor.1);
        self.lines = copy_rows(desired_lines);
        ops
    }

    /// Compares the desired content with the screen state and appends to `w`
    /// only the commands that make the terminal match it.
    ///
    /// `desired_lines` is the content split into physical rows.
    /// `desired_cursor` is the row and column where the cursor should end up.
    pub fn update(
        &mut self,
        w: &mut String,
        desired_lines: &[Vec<Cell>],
        desired_cursor: (usize, usize),
    )
        requires
            all_addressable(
                diff_ops(
                    old(self)@.width,
                    old(self)@.lines,
                    old(self)@.cursor,
                    row_views(desired_lines@),
                    (desired_cursor.0 as nat, desired_cursor.1 as nat),
                ),
            ),
        ensures
            exists|t: Seq<char>|
                final(w)@ == old(w)@ + t && #[trigger] is_ops_text(
                    diff_ops(
                        old(self)@.width,
                        old(self)@.lines,
                        old(self)@.cursor,
                        row_views(desired_lines@),
                        (desired_cursor.0 as nat, desired_cursor.1 as nat),
                    ),
                    t,
                ),
            final(self)@ == (ScreenModel {
                lines: row_views(desired_lines@),
                cursor: if desired_lines@.len() == 0 {
                    (0, 0)
                } else {
                    (desired_cursor.0 as nat, desired_cursor.1 as nat)
                },
                ..old(self)@
            }),
            old(self)@.wf() ==> final(self)@.wf(),
    {
        let ops = self.diff(desired_lines, desired_cursor);
        write_ops(w, &ops);
    }

    /// The commands that move the cursor to the start of the prompt area and
    /// erase everything from there down. Afterwards the screen should be
    /// invalidated.
    pub fn erase_all(&mut self) -> (ops: Vec<TermOp>)
        ensures
            ops@ == erase_ops(old(self)@.cursor),
            final(self)@ == (ScreenModel { cursor: (0, 0), ..old(self)@ }),
            old(self)@.wf() ==> final(self)@.wf(),
    {
        let mut ops: Vec<TermOp> = Vec::new();
        let ghost from = self@.cursor;
        if self.cursor_row > 0 {
            ops.push(TermOp::MoveUp(self.cursor_row as u16));
        }
        ops.push(TermOp::MoveToColumn(0));
        ops.push(TermOp::ClearDown);
        self.cursor_row = 0;
        self.cursor_col = 0;
        proof {
            assert(ops@ =~= erase_ops(from));
        }
        ops
    }
}

/// The commands that erase everything from the start of the prompt area on.
pub open spec fn erase_ops(from: Position) -> Seq<TermOp> {
    let up = if from.0 > 0 {
        seq![TermOp::MoveUp(from.0 as u16)]
    } else {
        Seq::empty()
    };
    up + seq![TermOp::MoveToColumn(0), TermOp::ClearDown]
}

// ---------------------------------------------------------------------------
// What an update does to the terminal
// ---------------------------------------------------------------------------

/// Whether the cursor of the terminal is at `pos` and writes in plain style.
pub open spec fn stands_at(t: Terminal, pos: Position) -> bool {
    t.row == pos.0 && t.col == pos.1 && t.pen == plain_style()
}

/// Whether every row is at most `width` cells long.
pub open spec fn rows_fit(rows: Seq<Seq<Cell>>, width: nat) -> bool {
    forall|i: int| 0 <= i < rows.len() ==> (#[trigger] rows[i]).len() <= width
}

proof fn lemma_next_lines(t: Terminal, n: nat)
    ensures
        t.run(Seq::new(n, |i: int| TermOp::NextLine)) == if n == 0 {
            t
        } else {
            Terminal { row: t.row + n, col: 0, ..t }
        },
    decreases n,
{
    let ops = Seq::new(n, |i: int| TermOp::NextLine);
    if n > 0 {
        let before = Seq::new((n - 1) as nat, |i: int| TermOp::NextLine);
        lemma_next_lines(t, (n - 1) as nat);
        assert(ops.drop_last() =~= before);
        assert(ops.last() == TermOp::NextLine);
    }
}

proof fn lemma_move(t: Terminal, from: Position, to: Position)
    requires
        t.row == from.0,
        t.col == from.1,
        from.1 <= t.width <= u16::MAX,
        to.1 < t.width,
        from.0 - to.0 <= u16::MAX,
    ensures
        t.run(move_ops(from, to)) == (Terminal { row: to.0 as int, col: to.1 as int, ..t }),
{
    let vertical = if to.0 < from.0 {
        seq![TermOp::MoveUp((from.0 - to.0) as u16)]
    } else {
        Seq::new((to.0 - from.0) as nat, |i: int| TermOp::NextLine)
    };
    let col = if to.0 > from.0 {
        0
    } else {
        from.1
    };
    let horizontal = if to.1 != col {
        seq![TermOp::MoveToColumn(to.1 as u16)]
    } else {
        Seq::empty()
    };
    lemma_run_add(t, vertical, horizontal);
    if to.0 < from.0 {
        lemma_run_one(t, TermOp::MoveUp((from.0 - to.0) as u16));
    } else {
        lemma_next_lines(t, (to.0 - from.0) as nat);
    }
    let mid = t.run(vertical);
    if to.1 != col {
        lemma_run_one(mid, TermOp::MoveToColumn(to.1 as u16));
    } else {
        assert(mid.run(horizontal) == mid);
    }
}

proof fn lemma_apply(t: Terminal, style: Style)
    requires
        t.pen == plain_style(),
    ensures
        t.run(apply_ops(style)) == (Terminal { pen: style, ..t }),
{
    let fg = match style.fg {
        Some(c) => seq![TermOp::SetForeground(c)],
        None => Seq::empty(),
    };
    let bg = match style.bg {
        Some(c) => seq![TermOp::SetBackground(c)],
        None => Seq::empty(),
    };
    let bold = if style.bold {
        seq![TermOp::SetBold]
    } else {
        Seq::empty()
    };
    let underline = if style.underline {
        seq![TermOp::SetUnderline]
    } else {
        Seq::empty()
    };
    let italic = if style.italic {
        seq![TermOp::SetItalic]
    } else {
        Seq::empty()
    };
    lemma_run_add(t, fg + bg + bold + underline, italic);
    lemma_run_add(t, fg + bg + bold, underline);
    lemma_run_add(t, fg + bg, bold);
    lemma_run_add(t, fg, bg);
    let t1 = t.run(fg);
    if let Some(c) = style.fg {
        lemma_run_one(t, TermOp::SetForeground(c));
    }
    let t2 = t1.run(bg);
    if let Some(c) = style.bg {
        lemma_run_one(t1, TermOp::SetBackground(c));
    }
    let t3 = t2.run(bold);
    lemma_run_one(t2, TermOp::SetBold);
    let t4 = t3.run(underline);
    lemma_run_one(t3, TermOp::SetUnderline);
    lemma_run_one(t4, TermOp::SetItalic);
}

proof fn lemma_switch(t: Terminal, to: Style)
    ensures
        t.run(switch_ops(t.pen, to)) == (Terminal { pen: to, ..t }),
{
    if t.pen != to {
        let reset = if t.pen != plain_style() {
            seq![TermOp::ResetStyle]
        } else {
            Seq::empty()
        };
        lemma_run_add(t, reset, apply_ops(to));
        lemma_run_one(t, TermOp::ResetStyle);
        lemma_apply(t.run(reset), to);
    }
}

/// `content` with `cells` written from column `col` on.
pub open spec fn overwrite(content: Seq<Cell>, col: int, cells: Seq<Cell>) -> Seq<Cell> {
    content.take(col) + cells + if col + cells.len() < content.len() {
        content.skip(col + cells.len())
    } else {
        Seq::empty()
    }
}

/// Whether `u` is `t` with `cells` written at its cursor.
pub open spec fn wrote(t: Terminal, u: Terminal, cells: Seq<Cell>) -> bool {
    &&& u.width == t.width
    &&& u.row == t.row
    &&& u.col == t.col + cells.len()
    &&& forall|i: int|
        #[trigger] u.content(i) == if i == t.row {
            overwrite(t.content(i), t.col, cells)
        } else {
            t.content(i)
        }
}

proof fn lemma_write_cells(t: Terminal, cells: Seq<Cell>)
    requires
        t.pen == plain_style(),
        0 <= t.col <= t.content(t.row).len(),
        t.col + cells.len() <= t.width,
    ensures
        t.run(write_cells_ops(cells)).pen == last_style(cells),
        wrote(t, t.run(write_cells_ops(cells)), cells),
    decreases cells.len(),
{
    if cells.len() == 0 {
        assert(overwrite(t.content(t.row), t.col, cells) =~= t.content(t.row));
    } else {
        let before = cells.drop_last();
        let c = cells.last();
        let a = write_cells_ops(before);
        let b = switch_ops(last_style(before), c.style);
        let ops = seq![TermOp::Print(c.ch)];
        lemma_write_cells(t, before);
        lemma_run_add(t, a + b, ops);
        lemma_run_add(t, a, b);
        let t1 = t.run(a);
        lemma_switch(t1, c.style);
        let t2 = t1.run(b);
        lemma_run_one(t2, TermOp::Print(c.ch));
        let t3 = t2.step(TermOp::Print(c.ch));
        let old_row = t.content(t.row);
        let mid = overwrite(old_row, t.col, before);
        assert(t1.content(t.row) == mid);
        assert(t2.content(t.row) == mid);
        assert(crate::style::cell(c.ch, c.style) == c);
        assert(before.push(c) =~= cells);
        assert(t3.content(t.row) =~= overwrite(old_row, t.col, cells));
        assert forall|i: int| #[trigger] t3.content(i) == if i == t.row {
            overwrite(t.content(i), t.col, cells)
        } else {
            t.content(i)
        } by {
            if i != t.row {
                assert(t1.content(i) == t.content(i));
                assert(t2.content(i) == t1.content(i));
            }
        }
    }
}

/// The commands that write cells write them at the cursor.
pub proof fn lemma_emit(t: Terminal, cells: Seq<Cell>)
    requires
        t.pen == plain_style(),
        0 <= t.col <= t.content(t.row).len(),
        t.col + cells.len() <= t.width,
    ensures
        t.run(emit_ops(cells)).pen == plain_style(),
        wrote(t, t.run(emit_ops(cells)), cells),
{
    let a = write_cells_ops(cells);
    let b = switch_ops(last_style(cells), plain_style());
    lemma_write_cells(t, cells);
    lemma_run_add(t, a, b);
    let t1 = t.run(a);
    lemma_switch(t1, plain_style());
    let t2 = t1.run(b);
    assert forall|i: int| #[trigger] t2.content(i) == t1.content(i) by {}
    assert(wrote(t, t2, cells));
}

/// Whether the first `n` rows of the terminal are those of `desired`, and the
/// rest those of `actual`.
spec fn mixed(t: Terminal, actual: Seq<Seq<Cell>>, desired: Seq<Seq<Cell>>, n: int) -> bool {
    forall|i: int|
        0 <= i ==> #[trigger] t.content(i) == if i < n {
            desired[i]
        } else {
            row_at(actual, i)
        }
}

proof fn lemma_full_row(
    t: Terminal,
    actual: Seq<Seq<Cell>>,
    desired: Seq<Seq<Cell>>,
    row: nat,
    from: Position,
)
    requires
        row == desired.len() - 1,
        actual.len() > desired.len(),
        mixed(t, actual, desired, row as int),
        stands_at(t, from),
        0 < t.width <= u16::MAX,
        from.1 <= t.width,
        from.0 <= u16::MAX,
        rows_fit(actual, t.width),
        desired[row as int].len() == t.width,
    ensures
        ({
            let r = row_ops(
                t.width,
                row_at(actual, row as int),
                desired[row as int],
                row,
                true,
                from,
            );
            let u = t.run(r.0);
            stands_at(u, (row + 1, 0)) && u.width == t.width && u.shows(desired)
        }),
{
    let old_row = row_at(actual, row as int);
    let new_row = desired[row as int];
    let p = common_prefix(old_row, new_row);
    assert(t.content(row as int) == old_row);
    assert(old_row.len() <= t.width);
    lemma_common_prefix_props(old_row, new_row);
    let cells = new_row.skip(p as int);
    let moves = move_ops(from, (row, p));
    let drawn = if p < new_row.len() {
        (moves + emit_ops(cells), (row, new_row.len()))
    } else {
        (Seq::empty(), from)
    };
    let down = move_ops(drawn.1, (row + 1, 0));
    lemma_run_add(t, drawn.0 + down, seq![TermOp::ClearDown]);
    lemma_run_add(t, drawn.0, down);
    let t1 = t.run(drawn.0);
    if p < new_row.len() {
        lemma_run_add(t, moves, emit_ops(cells));
        lemma_move(t, from, (row, p));
        let t0 = t.run(moves);
        assert forall|i: int| #[trigger] t0.content(i) == t.content(i) by {}
        lemma_emit(t0, cells);
        assert(overwrite(old_row, p as int, cells) =~= new_row) by {
            assert forall|j: int| 0 <= j < p implies old_row[j] == new_row[j] by {
                assert(old_row.take(p as int)[j] == new_row.take(p as int)[j]);
            }
        }
        assert forall|i: int| i != row implies #[trigger] t1.content(i) == t.content(i) by {
            assert(t0.content(i) == t.content(i));
        }
    } else {
        assert(old_row.take(p as int) =~= old_row);
        assert(new_row.take(p as int) =~= new_row);
    }
    assert(t1.content(row as int) == new_row);
    lemma_move(t1, drawn.1, (row + 1, 0));
    let t2 = t1.run(down);
    lemma_run_one(t2, TermOp::ClearDown);
    let t3 = t2.step(TermOp::ClearDown);
    assert forall|i: int| 0 <= i implies #[trigger] t3.content(i) == if i < desired.len() {
        desired[i]
    } else {
        Seq::empty()
    } by {
        assert(t2.content(i) == t1.content(i));
        assert(t2.content(i).take(0) =~= Seq::<Cell>::empty());
        if t2.content(i).len() == 0 {
            assert(t2.content(i) =~= Seq::<Cell>::empty());
        }
        if i < row {
            assert(t1.content(i) == t.content(i));
        }
    }
}

proof fn lemma_row(
    t: Terminal,
    actual: Seq<Seq<Cell>>,
    desired: Seq<Seq<Cell>>,
    row: nat,
    from: Position,
)
    requires
        row < desired.len(),
        mixed(t, actual, desired, row as int),
        stands_at(t, from),
        0 < t.width <= u16::MAX,
        from.1 <= t.width,
        from.0 <= u16::MAX,
        rows_fit(actual, t.width),
        rows_fit(desired, t.width),
    ensures
        ({
            let last = row == desired.len() - 1 && actual.len() > desired.len();
            let r = row_ops(
                t.width,
                row_at(actual, row as int),
                desired[row as int],
                row,
                last,
                from,
            );
            let u = t.run(r.0);
            &&& stands_at(u, r.1)
            &&& u.width == t.width
            &&& r.1.1 <= t.width
            &&& r.1.0 == from.0 || r.1.0 == row || r.1.0 == row + 1
            &&& if last {
                u.shows(desired)
            } else {
                mixed(u, actual, desired, row as int + 1)
            }
        }),
{
    let old_row = row_at(actual, row as int);
    let new_row = desired[row as int];
    let last = row == desired.len() - 1 && actual.len() > desired.len();
    let p = common_prefix(old_row, new_row);
    assert(t.content(row as int) == old_row);
    assert(old_row.len() <= t.width);
    assert(new_row.len() <= t.width);
    if old_row == new_row && !last {
        assert(mixed(t, actual, desired, row as int + 1));
    } else if last && new_row.len() >= t.width {
        lemma_full_row(t, actual, desired, row, from);
    } else {
        lemma_common_prefix_props(old_row, new_row);
        if p == t.width {
            assert(old_row.take(p as int) =~= old_row);
            assert(new_row.take(p as int) =~= new_row);
            assert(false);
        }
        let moves = move_ops(from, (row, p));
        let written = if p < new_row.len() {
            emit_ops(new_row.skip(p as int))
        } else {
            Seq::empty()
        };
        let erased = if last {
            seq![TermOp::ClearDown]
        } else if old_row.len() > new_row.len() {
            seq![TermOp::ClearToEndOfLine]
        } else {
            Seq::empty()
        };
        lemma_run_add(t, moves + written, erased);
        lemma_run_add(t, moves, written);
        lemma_move(t, from, (row, p));
        let t1 = t.run(moves);
        assert forall|i: int| #[trigger] t1.content(i) == t.content(i) by {}
        let t2 = t1.run(written);
        let tail = if new_row.len() < old_row.len() {
            old_row.skip(new_row.len() as int)
        } else {
            Seq::empty()
        };
        if p < new_row.len() {
            lemma_emit(t1, new_row.skip(p as int));
            assert(overwrite(old_row, p as int, new_row.skip(p as int)) =~= new_row + tail) by {
                assert(old_row.take(p as int) + new_row.skip(p as int) =~= new_row) by {
                    assert forall|j: int| 0 <= j < p implies old_row[j] == new_row[j] by {
                        assert(old_row.take(p as int)[j] == new_row.take(p as int)[j]);
                    }
                }
            }
        } else {
            assert(new_row.take(p as int) =~= new_row);
            assert(new_row + tail =~= old_row) by {
                assert(old_row.take(p as int) + old_row.skip(p as int) =~= old_row);
            }
        }
        assert(t2.content(row as int) == new_row + tail);
        assert(t2.col == new_row.len());
        assert forall|i: int| i != row implies #[trigger] t2.content(i) == t.content(i) by {
            assert(t1.content(i) == t.content(i));
        }
        let t3 = t2.run(erased);
        if last {
            lemma_run_one(t2, TermOp::ClearDown);
            assert((new_row + tail).take(new_row.len() as int) =~= new_row);
            if tail.len() == 0 {
                assert(new_row + tail =~= new_row);
            }
            assert forall|i: int| 0 <= i implies #[trigger] t3.content(i) == if i < desired.len() {
                desired[i]
            } else {
                Seq::empty()
            } by {
                assert(t2.content(i) == t2.content(i));
                if i < row {
                    assert(t3.content(i) == t2.content(i));
                }
            }
        } else if old_row.len() > new_row.len() {
            lemma_run_one(t2, TermOp::ClearToEndOfLine);
            assert((new_row + tail).take(new_row.len() as int) =~= new_row);
            assert forall|i: int| 0 <= i implies #[trigger] t3.content(i) == if i < row + 1 {
                desired[i]
            } else {
                row_at(actual, i)
            } by {
                assert(t2.content(i) == t2.content(i));
            }
        } else {
            assert(new_row + tail =~= new_row);
            assert forall|i: int| 0 <= i implies #[trigger] t3.content(i) == if i < row + 1 {
                desired[i]
            } else {
                row_at(actual, i)
            } by {
                assert(t2.content(i) == t2.content(i));
            }
        }
    }
}

proof fn lemma_rows(
    t: Terminal,
    actual: Seq<Seq<Cell>>,
    desired: Seq<Seq<Cell>>,
    n: nat,
    from: Position,
)
    requires
        n <= desired.len() <= u16::MAX,
        t.shows(actual),
        stands_at(t, from),
        0 < t.width <= u16::MAX,
        from.1 <= t.width,
        from.0 <= u16::MAX,
        rows_fit(actual, t.width),
        rows_fit(desired, t.width),
    ensures
        ({
            let r = rows_ops(t.width, actual, desired, n, from);
            let u = t.run(r.0);
            &&& stands_at(u, r.1)
            &&& u.width == t.width
            &&& r.1.1 <= t.width
            &&& r.1.0 <= u16::MAX
            &&& if n == desired.len() && n > 0 && actual.len() > desired.len() {
                u.shows(desired)
            } else {
                mixed(u, actual, desired, n as int)
            }
        }),
    decreases n,
{
    if n > 0 {
        let m = (n - 1) as nat;
        lemma_rows(t, actual, desired, m, from);
        let before = rows_ops(t.width, actual, desired, m, from);
        let u = t.run(before.0);
        lemma_row(u, actual, desired, m, before.1);
        let this = row_ops(
            t.width,
            row_at(actual, m as int),
            desired[m as int],
            m,
            n == desired.len() && actual.len() > n,
            before.1,
        );
        lemma_run_add(t, before.0, this.0);
    } else {
        assert(mixed(t, actual, desired, 0));
    }
}

/// After the commands of an update the terminal shows the desired content,
/// with the cursor where it should be and in plain style.
///
/// The rows fit the terminal and its columns and rows can be addressed.
pub proof fn law_update_shows_desired(
    t: Terminal,
    screen: ScreenModel,
    desired: Seq<Seq<Cell>>,
    to: Position,
)
    requires
        screen.wf(),
        t.width == screen.width,
        t.width <= u16::MAX,
        t.shows(screen.lines),
        stands_at(t, screen.cursor),
        screen.cursor.0 <= u16::MAX,
        screen.cursor.1 <= t.width,
        desired.len() <= u16::MAX,
        rows_fit(screen.lines, t.width),
        rows_fit(desired, t.width),
        to.1 < t.width,
    ensures
        t.run(diff_ops(screen.width, screen.lines, screen.cursor, desired, to)).shows(desired),
        stands_at(
            t.run(diff_ops(screen.width, screen.lines, screen.cursor, desired, to)),
            if desired.len() == 0 {
                (0, 0)
            } else {
                to
            },
        ),
{
    let actual = screen.lines;
    let from = screen.cursor;
    if desired.len() == 0 {
        if actual.len() > 0 {
            let moves = move_ops(from, (0, 0));
            lemma_run_add(t, moves, seq![TermOp::ClearDown]);
            lemma_move(t, from, (0, 0));
            let t1 = t.run(moves);
            lemma_run_one(t1, TermOp::ClearDown);
            let t2 = t1.step(TermOp::ClearDown);
            assert forall|i: int| 0 <= i implies #[trigger] t2.content(i) == Seq::<
                Cell,
            >::empty() by {
                assert(t1.content(i).take(0) =~= Seq::<Cell>::empty());
                if t1.content(i).len() == 0 {
                    assert(t1.content(i) =~= Seq::<Cell>::empty());
                }
            }
            assert(t2.shows(desired));
        }
    } else {
        let n = desired.len();
        lemma_rows(t, actual, desired, n, from);
        let r = rows_ops(t.width, actual, desired, n, from);
        let u = t.run(r.0);
        lemma_run_add(t, r.0, move_ops(r.1, to));
        lemma_move(u, r.1, to);
        let v = u.run(move_ops(r.1, to));
        assert forall|i: int| 0 <= i implies #[trigger] v.content(i) == if i < desired.len() {
            desired[i]
        } else {
            Seq::empty()
        } by {
            assert(v.content(i) == u.content(i));
        }
    }
}

/// An update to what is already on the screen writes at most cursor movement.
pub proof fn law_unchanged_rows_write_nothing(
    width: nat,
    lines: Seq<Seq<Cell>>,
    from: Position,
    to: Position,
)
    ensures
        diff_ops(width, lines, from, lines, to) == if lines.len() == 0 {
            Seq::empty()
        } else {
            move_ops(from, to)
        },
{
    lemma_same_rows(width, lines, lines.len(), from);
    assert(Seq::<TermOp>::empty() + move_ops(from, to) =~= move_ops(from, to));
}

proof fn lemma_same_rows(width: nat, lines: Seq<Seq<Cell>>, n: nat, from: Position)
    requires
        n <= lines.len(),
    ensures
        rows_ops(width, lines, lines, n, from) == (Seq::<TermOp>::empty(), from),
    decreases n,
{
    if n > 0 {
        lemma_same_rows(width, lines, (n - 1) as nat, from);
        assert(Seq::<TermOp>::empty() + Seq::<TermOp>::empty() =~= Seq::<TermOp>::empty());
    }
}

/// Erasing keeps the width of the terminal.
pub proof fn lemma_erase_width(t: Terminal, from: Position)
    ensures
        t.run(erase_ops(from)).width == t.width,
{
    lemma_run_width(t, erase_ops(from));
}

proof fn lemma_run_width(t: Terminal, ops: Seq<TermOp>)
    ensures
        t.run(ops).width == t.width,
    decreases ops.len(),
{
    if ops.len() > 0 {
        lemma_run_width(t, ops.drop_last());
    }
}

/// After the erase commands nothing of the prompt area is left, and the cursor
/// stands at its start.
pub proof fn law_erase_clears(t: Terminal, screen: ScreenModel)
    requires
        t.width > 0,
        stands_at(t, screen.cursor),
        screen.cursor.0 <= u16::MAX,
    ensures
        t.run(erase_ops(screen.cursor)).shows(Seq::empty()),
        stands_at(t.run(erase_ops(screen.cursor)), (0, 0)),
{
    let from = screen.cursor;
    let up = if from.0 > 0 {
        seq![TermOp::MoveUp(from.0 as u16)]
    } else {
        Seq::empty()
    };
    let rest = seq![TermOp::MoveToColumn(0), TermOp::ClearDown];
    assert(rest =~= seq![TermOp::MoveToColumn(0)] + seq![TermOp::ClearDown]);
    lemma_run_add(t, up, rest);
    lemma_run_one(t, TermOp::MoveUp(from.0 as u16));
    let t1 = t.run(up);
    lemma_run_add(t1, seq![TermOp::MoveToColumn(0)], seq![TermOp::ClearDown]);
    lemma_run_one(t1, TermOp::MoveToColumn(0));
    let t2 = t1.step(TermOp::MoveToColumn(0));
    lemma_run_one(t2, TermOp::ClearDown);
    let t3 = t2.step(TermOp::ClearDown);
    assert forall|i: int| 0 <= i implies #[trigger] t3.content(i) == Seq::<Cell>::empty() by {
        assert(t2.content(i).take(0) =~= Seq::<Cell>::empty());
        if t2.content(i).len() == 0 {
            assert(t2.content(i) =~= Seq::<Cell>::empty());
        }
    }
}

/// Whether no cell is a newline.
pub open spec fn unbroken(cells: Seq<Cell>) -> bool {
    forall|i: int| 0 <= i < cells.len() ==> (#[trigger] cells[i]).ch != '\n'
}

proof fn lemma_unbroken_line(cells: Seq<Cell>)
    requires
        unbroken(cells),
    ensures
        logical_lines(cells) == seq![cells],
    decreases cells.len(),
{
    if cells.len() == 0 {
        assert(cells =~= Seq::<Cell>::empty());
    } else {
        let front = cells.drop_last();
        assert forall|i: int| 0 <= i < front.len() implies (#[trigger] front[i]).ch != '\n' by {
            assert(front[i] == cells[i]);
        }
        lemma_unbroken_line(front);
        assert(cells[cells.len() - 1] == cells.last());
        let before = seq![front];
        assert(before.drop_last() =~= Seq::<Seq<Cell>>::empty());
        assert(before.last() == front);
        assert(front.push(cells.last()) =~= cells);
        assert(before.drop_last().push(front.push(cells.last())) =~= seq![cells]);
    }
}

proof fn lemma_wrap_one(line: Seq<Cell>, width: nat)
    ensures
        wrap_lines(seq![line], width) == wrap_line(line, width),
{
    assert(seq![line].drop_last() =~= Seq::<Seq<Cell>>::empty());
    assert(seq![line].last() == line);
    assert(wrap_lines(seq![line].drop_last(), width) =~= Seq::<Seq<Cell>>::empty());
    assert(Seq::<Seq<Cell>>::empty() + wrap_line(line, width) =~= wrap_line(line, width));
}

/// Where row `i` of cells in rows of `width` starts.
pub open spec fn row_start(width: nat, i: int) -> int {
    i * width
}

/// Where row `i` of `n` cells in rows of `width` ends.
pub open spec fn row_end(n: nat, width: nat, i: int) -> int {
    if row_start(width, i + 1) < n {
        row_start(width, i + 1)
    } else {
        n as int
    }
}

/// Whether `row` is row `i` of cells in rows of `width`.
pub open spec fn is_row(cells: Seq<Cell>, width: nat, i: int, row: Seq<Cell>) -> bool {
    &&& 0 <= row_start(width, i) <= row_end(cells.len(), width, i)
    &&& row == cells.subrange(row_start(width, i), row_end(cells.len(), width, i))
}

proof fn lemma_wrapped_rows(line: Seq<Cell>, width: nat)
    requires
        width > 0,
    ensures
        wrap_line(line, width).len() == if line.len() == 0 {
            1
        } else {
            (line.len() - 1) / (width as int) + 1
        },
        forall|i: int|
            0 <= i < wrap_line(line, width).len() ==> is_row(line, width, i, #[trigger] wrap_line(line, width)[i]),
    decreases line.len(),
{
    let w = width as int;
    let n = line.len() as int;
    let rows = wrap_line(line, width);
    if n <= w {
        assert(rows =~= seq![line]);
        if n > 0 {
            assert((n - 1) / w == 0) by (nonlinear_arith)
                requires
                    0 < n <= w,
            ;
        }
        assert(line.subrange(0, n) =~= line);
        assert(0 * w == 0 && (0 + 1) * w == w) by (nonlinear_arith);
        assert forall|i: int| 0 <= i < rows.len() implies is_row(
            line,
            width,
            i,
            #[trigger] rows[i],
        ) by {
            assert(i == 0);
        }
    } else {
        let tail = line.skip(w);
        lemma_wrapped_rows(tail, width);
        let more = wrap_line(tail, width);
        assert((n - 1) / w == (n - w - 1) / w + 1) by (nonlinear_arith)
            requires
                w > 0,
                n > w,
        ;
        assert forall|i: int| 0 <= i < rows.len() implies is_row(
            line,
            width,
            i,
            #[trigger] rows[i],
        ) by {
            if i == 0 {
                assert(0 * w == 0 && (0 + 1) * w == w) by (nonlinear_arith);
                assert(rows[0] =~= line.take(w));
                assert(line.subrange(0, w) =~= line.take(w));
            } else {
                let j = i - 1;
                assert(rows[i] == more[j]);
                assert(i * w == j * w + w && (i + 1) * w == (j + 1) * w + w) by (nonlinear_arith)
                    requires
                        j == i - 1,
                ;
                let e = row_end(tail.len(), width, j);
                assert(row_end(line.len(), width, i) == e + w);
                assert(is_row(tail, width, j, more[j]));
                assert(more[j] =~= line.subrange(row_start(width, i), e + w));
            }
        }
    }
}

/// Text without newlines fills one row after the other: row `i` holds the cells from
/// `i` times the width on, as many as fit, and there are no more rows than that takes.
pub proof fn law_unbroken_text_fills_rows(cells: Seq<Cell>, width: nat)
    requires
        width > 0,
        unbroken(cells),
    ensures
        layout(cells, width).len() == if cells.len() == 0 {
            1
        } else {
            (cells.len() - 1) / (width as int) + 1
        },
        forall|i: int|
            0 <= i < layout(cells, width).len() ==> is_row(cells, width, i, #[trigger] layout(cells, width)[i]),
{
    lemma_unbroken_line(cells);
    lemma_wrap_one(cells, width);
    lemma_wrapped_rows(cells, width);
    assert(drop_final_empty(seq![cells]) == seq![cells]);
    let rows = layout(cells, width);
    assert(rows == wrap_line(cells, width));
    assert forall|i: int| 0 <= i < rows.len() implies is_row(
        cells,
        width,
        i,
        #[trigger] rows[i],
    ) by {
        assert(is_row(cells, width, i, wrap_line(cells, width)[i]));
    }
}

proof fn lemma_wrap_lines_add(a: Seq<Seq<Cell>>, b: Seq<Seq<Cell>>, width: nat)
    ensures
        wrap_lines(a + b, width) == wrap_lines(a, width) + wrap_lines(b, width),
    decreases b.len(),
{
    if b.len() == 0 {
        assert(a + b =~= a);
        assert(wrap_lines(a, width) + wrap_lines(b, width) =~= wrap_lines(a, width));
    } else {
        lemma_wrap_lines_add(a, b.drop_last(), width);
        assert((a + b).drop_last() =~= a + b.drop_last());
        assert((a + b).last() == b.last());
        assert(wrap_lines(a + b, width) =~= wrap_lines(a, width) + wrap_lines(b, width));
    }
}

proof fn lemma_logical_add(a: Seq<Cell>, nl: Cell, b: Seq<Cell>)
    requires
        nl.ch == '\n',
    ensures
        logical_lines(a + seq![nl] + b) == logical_lines(a) + logical_lines(b),
    decreases b.len(),
{
    let all = a + seq![nl] + b;
    if b.len() == 0 {
        assert(all.drop_last() =~= a);
        assert(all.last() == nl);
        assert(b =~= Seq::<Cell>::empty());
        assert(logical_lines(a).push(Seq::<Cell>::empty()) =~= logical_lines(a) + logical_lines(b));
    } else {
        let front = b.drop_last();
        let c = b.last();
        lemma_logical_add(a, nl, front);
        assert(all.drop_last() =~= a + seq![nl] + front);
        assert(all.last() == c);
        let x = logical_lines(a);
        let y = logical_lines(front);
        lemma_logical_nonempty(front);
        assert((x + y).last() == y.last());
        assert((x + y).drop_last() =~= x + y.drop_last());
        if c.ch == '\n' {
            assert((x + y).push(Seq::<Cell>::empty()) =~= x + y.push(Seq::<Cell>::empty()));
        } else {
            let last = y.last().push(c);
            assert((x + y).drop_last().push(last) =~= x + y.drop_last().push(last));
        }
    }
}

/// A newline starts a new row, and one at the end of the text starts none.
pub proof fn law_newline_starts_a_row(a: Seq<Cell>, nl: Cell, b: Seq<Cell>, width: nat)
    requires
        nl.ch == '\n',
        unbroken(a),
    ensures
        b.len() > 0 ==> layout(a + seq![nl] + b, width) == layout(a, width) + layout(b, width),
        layout(a + seq![nl], width) == layout(a, width),
{
    let w = at_least_one(width);
    let none = Seq::<Cell>::empty();
    lemma_unbroken_line(a);
    lemma_logical_add(a, nl, b);
    lemma_logical_add(a, nl, none);
    assert(a + seq![nl] + none =~= a + seq![nl]);
    let x = seq![a];
    assert((x + logical_lines(none)).drop_last() =~= x);
    assert((x + logical_lines(none)).last() == none);
    if b.len() > 0 {
        let y = logical_lines(b);
        lemma_logical_nonempty(b);
        assert((x + y).last() == y.last());
        if y.len() == 1 {
            lemma_logical_cells(b);
            lemma_single_line(b);
        }
        if y.len() > 1 && y.last().len() == 0 {
            assert((x + y).drop_last() =~= x + y.drop_last());
        }
        lemma_wrap_lines_add(x, drop_final_empty(y), w);
    }
}

proof fn lemma_single_line(b: Seq<Cell>)
    requires
        logical_lines(b).len() == 1,
    ensures
        logical_lines(b)[0] == b,
    decreases b.len(),
{
    if b.len() == 0 {
        assert(b =~= Seq::<Cell>::empty());
    } else {
        let front = b.drop_last();
        let before = logical_lines(front);
        lemma_logical_nonempty(front);
        if b.last().ch != '\n' {
            lemma_single_line(front);
            assert(front.push(b.last()) =~= b);
        }
    }
}

} // verus!

//! Demo animations for the prompt: a bouncing ball, a tick counter, a clock
//! and a progress bar.

use crate::style::{
    cell, plain_style, raw_cells, span_cells, Color, Span, SpanModel, Style, StyledText,
};
use crate::text::{
    decimal, digits_value, law_decimal_digits_stand_for_the_number, push_decimal, push_repeated,
    repeated,
};
use vstd::prelude::*;

verus! {

// ---------------------------------------------------------------------------
// Texts
// ---------------------------------------------------------------------------

/// `n` with at least two digits.
pub open spec fn two_digits(n: nat) -> Seq<char> {
    if n < 10 {
        seq!['0'] + decimal(n)
    } else {
        decimal(n)
    }
}

/// The time of day, `secs` seconds after a midnight.
pub open spec fn clock(secs: nat) -> Seq<char> {
    two_digits((secs / 3600) % 24) + seq![':'] + two_digits((secs / 60) % 60) + seq![':']
        + two_digits(secs % 60)
}

/// The tick counter in front of the input.
pub open spec fn tick_prefix(tick: nat) -> Seq<char> {
    "["@ + decimal(tick) + "] > "@
}

/// The message that is logged at every fifth tick.
pub open spec fn tick_message(tick: nat) -> Option<Seq<char>> {
    if tick % 5 == 0 {
        Some("[tick "@ + decimal(tick / 5) + "]"@)
    } else {
        None
    }
}

/// The model of an optional string.
pub open spec fn text_opt(s: Option<String>) -> Option<Seq<char>> {
    match s {
        Some(s) => Some(s@),
        None => None,
    }
}

fn push_two_digits(s: &mut String, n: u64)
    ensures
        final(s)@ == old(s)@ + two_digits(n as nat),
{
    if n < 10 {
        s.push('0');
    }
    push_decimal(s, n as u128);
    proof {
        assert(s@ =~= old(s)@ + two_digits(n as nat));
    }
}

/// The time of day, `secs` seconds after a midnight.
pub fn clock_text(secs: u64) -> (s: String)
    ensures
        s@ == clock(secs as nat),
{
    let mut s = String::new();
    push_two_digits(&mut s, (secs / 3600) % 24);
    s.push(':');
    push_two_digits(&mut s, (secs / 60) % 60);
    s.push(':');
    push_two_digits(&mut s, secs % 60);
    proof {
        assert(s@ =~= clock(secs as nat));
    }
    s
}

fn tick_prefix_text(tick: u64) -> (s: String)
    ensures
        s@ == tick_prefix(tick as nat),
{
    let mut s = "[".to_owned();
    push_decimal(&mut s, tick as u128);
    s.append("] > ");
    s
}

fn tick_message_text(tick: u64) -> (s: Option<String>)
    ensures
        text_opt(s) == tick_message(tick as nat),
{
    if tick % 5 != 0 {
        return None;
    }
    let mut s = "[tick ".to_owned();
    push_decimal(&mut s, (tick / 5) as u128);
    s.append("]");
    Some(s)
}

// ---------------------------------------------------------------------------
// Ball over three lines of a fixed box
// ---------------------------------------------------------------------------

/// Width of the box of the plain animation.
pub const BALL_WIDTH: usize = 30;

/// What the plain animation shows at one tick.
#[derive(Debug)]
pub struct PlainFrame {
    pub above: String,
    pub left: String,
    pub right: String,
    pub log: Option<String>,
}

/// The plain animation: three balls, one per line.
#[derive(Debug)]
pub struct PlainAnimator {
    tick: u64,
    pos: usize,
    forward: bool,
}

/// State of the plain animation.
#[verifier::ext_equal]
pub struct PlainModel {
    pub tick: nat,
    pub pos: int,
    pub forward: bool,
}

impl View for PlainAnimator {
    type V = PlainModel;

    closed spec fn view(&self) -> PlainModel {
        PlainModel { tick: self.tick as nat, pos: self.pos as int, forward: self.forward }
    }
}

/// Column of the ball in line `row`: every line is three steps ahead of the
/// one above, and the way back counts down.
pub open spec fn ball_column(pos: int, row: int) -> int {
    let p = (pos + row * 3) % 60;
    if p < 30 {
        p
    } else {
        60 - p
    }
}

/// One line with a ball.
pub open spec fn ball_line(col: int) -> Seq<char> {
    repeated(' ', col as nat).push('o')
}

impl PlainModel {
    /// The ball is in the box, and at an edge it moves inwards.
    pub open spec fn wf(self) -> bool {
        0 <= self.pos <= 29 && (self.pos == 0 ==> self.forward) && (self.pos == 29
            ==> !self.forward)
    }

    /// The three lines.
    pub open spec fn picture(self) -> Seq<char> {
        ball_line(ball_column(self.pos, 0)).push('\n') + ball_line(
            ball_column(self.pos, 1),
        ).push('\n') + ball_line(ball_column(self.pos, 2))
    }

    /// The next state: one step, and a turn at the edges.
    pub open spec fn next(self) -> PlainModel {
        let pos = if self.forward {
            self.pos + 1
        } else {
            self.pos - 1
        };
        PlainModel {
            tick: self.tick + 1,
            pos,
            forward: if pos == 0 || pos >= 29 {
                !self.forward
            } else {
                self.forward
            },
        }
    }
}

/// The ball never leaves the box.
pub proof fn law_ball_stays_in_box(m: PlainModel)
    requires
        m.wf(),
    ensures
        m.next().wf(),
{
}

fn push_ball_line(s: &mut String, pos: usize, row: usize)
    requires
        pos <= 29,
        row <= 2,
    ensures
        final(s)@ == old(s)@ + ball_line(ball_column(pos as int, row as int)),
{
    let line_pos: usize = (pos + row * 3) % (BALL_WIDTH * 2);
    let col: usize = if line_pos < BALL_WIDTH {
        line_pos
    } else {
        BALL_WIDTH * 2 - line_pos
    };
    push_repeated(s, ' ', col);
    s.push('o');
    proof {
        assert(s@ =~= old(s)@ + ball_line(col as int));
    }
}

impl PlainAnimator {
    /// Whether the ball is in its box.
    pub closed spec fn wf(self) -> bool {
        self@.wf()
    }

    /// What [`PlainAnimator::wf`] gives.
    pub proof fn lemma_wf(self)
        ensures
            self.wf() <==> self@.wf(),
    {
    }

    /// The start: no tick yet, the ball at the left edge.
    pub fn new() -> (a: Self)
        ensures
            a.wf(),
            a@ == (PlainModel { tick: 0, pos: 0, forward: true }),
    {
        PlainAnimator { tick: 0, pos: 0, forward: true }
    }

    /// How many ticks have passed.
    pub fn ticks(&self) -> (n: u64)
        ensures
            n == self@.tick,
    {
        self.tick
    }

    /// Advances by one tick and returns what to show; `secs` is the current
    /// time in seconds.
    pub fn next_frame(&mut self, secs: u64) -> (f: PlainFrame)
        requires
            old(self).wf(),
            old(self)@.tick < u64::MAX,
        ensures
            final(self).wf(),
            final(self)@ == old(self)@.next(),
            f.above@ == old(self)@.picture(),
            f.left@ == tick_prefix(old(self)@.tick + 1),
            f.right@ == clock(secs as nat),
            text_opt(f.log) == tick_message(old(self)@.tick + 1),
    {
        let ghost before = self@;
        self.tick = self.tick + 1;
        let mut above = String::new();
        push_ball_line(&mut above, self.pos, 0);
        above.push('\n');
        push_ball_line(&mut above, self.pos, 1);
        above.push('\n');
        push_ball_line(&mut above, self.pos, 2);
        proof {
            assert(above@ =~= before.picture());
        }
        self.pos = if self.forward {
            self.pos + 1
        } else {
            self.pos - 1
        };
        if self.pos == 0 || self.pos >= BALL_WIDTH - 1 {
            self.forward = !self.forward;
        }
        PlainFrame {
            above,
            left: tick_prefix_text(self.tick),
            right: clock_text(secs),
            log: tick_message_text(self.tick),
        }
    }
}

// ---------------------------------------------------------------------------
// Ball in a box of terminal width
// ---------------------------------------------------------------------------

/// What the styled animation shows at one tick.
#[derive(Debug)]
pub struct StyledFrame {
    pub above: StyledText,
    pub left: String,
    pub right: String,
    pub below: StyledText,
    pub log: Option<String>,
}

/// The styled animation: a ball in a box three lines high, as wide as the
/// terminal, and a bar that fills and clears.
#[derive(Debug)]
pub struct StyledAnimator {
    tick: u64,
    x: usize,
    y: usize,
    rightwards: bool,
    downwards: bool,
}

/// State of the styled animation.
#[verifier::ext_equal]
pub struct StyledModel {
    pub tick: nat,
    pub x: int,
    pub y: int,
    pub rightwards: bool,
    pub downwards: bool,
}

impl View for StyledAnimator {
    type V = StyledModel;

    closed spec fn view(&self) -> StyledModel {
        StyledModel {
            tick: self.tick as nat,
            x: self.x as int,
            y: self.y as int,
            rightwards: self.rightwards,
            downwards: self.downwards,
        }
    }
}

/// Width of the box on a terminal with the given number of columns, if it is
/// known.
pub open spec fn box_width(columns: Option<u16>) -> int {
    let w = match columns {
        Some(w) => w as int,
        None => 80,
    };
    if w < 2 {
        2
    } else {
        w
    }
}

/// The style of the ball.
pub open spec fn ball_style() -> Style {
    Style { fg: Some(Color::Blue), bold: true, ..plain_style() }
}

/// The style of the bar.
pub open spec fn bar_style() -> Style {
    Style { fg: Some(Color::DarkYellow), ..plain_style() }
}

/// A run of blanks, left out where it is empty.
pub open spec fn blank_run(n: int) -> Seq<SpanModel> {
    if n > 0 {
        seq![(repeated(' ', n as nat), plain_style())]
    } else {
        Seq::empty()
    }
}

/// One line of the box.
pub open spec fn box_line(row: int, x: int, y: int, w: int) -> Seq<SpanModel> {
    if row == y && x < w {
        blank_run(x) + seq![("o"@, ball_style())] + blank_run(w - x - 1)
    } else {
        blank_run(w)
    }
}

/// The line break between two lines of the box.
pub open spec fn line_break() -> Seq<SpanModel> {
    seq![("\n"@, plain_style())]
}

/// The bar of a box of width `w`.
pub open spec fn bar(tick: nat, w: int) -> Seq<SpanModel> {
    let cycle = tick % ((w - 1) as nat);
    seq![
        ("["@, bar_style()),
        (repeated('=', cycle), bar_style()),
        (repeated(' ', (w - 2 - cycle) as nat), plain_style()),
        ("]"@, bar_style()),
    ]
}

impl StyledModel {
    /// The ball is on one of the three lines, and on the outer ones it moves
    /// inwards.
    pub open spec fn wf(self) -> bool {
        0 <= self.x <= usize::MAX && 0 <= self.y <= 2 && (self.y == 0 ==> self.downwards) && (self.y
            == 2 ==> !self.downwards)
    }

    /// The box.
    pub open spec fn picture(self, w: int) -> Seq<SpanModel> {
        box_line(0, self.x, self.y, w) + line_break() + box_line(1, self.x, self.y, w)
            + line_break() + box_line(2, self.x, self.y, w)
    }

    /// The next state in a box of width `w`: a ball at or beyond the right edge
    /// is put before it and moves left; then one step in both directions, and a
    /// turn at the edges. In a box of two columns the step left of the first
    /// one ends at the largest column number.
    pub open spec fn next(self, w: int) -> StyledModel {
        let clamped = self.x >= w - 1;
        let x0 = if clamped {
            w - 2
        } else {
            self.x
        };
        let rightwards = self.rightwards && !clamped;
        let x = if rightwards {
            x0 + 1
        } else if x0 > 0 {
            x0 - 1
        } else {
            usize::MAX as int
        };
        let y = if self.downwards {
            self.y + 1
        } else {
            self.y - 1
        };
        StyledModel {
            tick: self.tick + 1,
            x,
            y,
            rightwards: if x == 0 || x >= w - 1 {
                !rightwards
            } else {
                rightwards
            },
            downwards: if y == 0 || y >= 2 {
                !self.downwards
            } else {
                self.downwards
            },
        }
    }

    /// The ball is inside a box of width `w`, and in the first column it moves
    /// right.
    pub open spec fn inside(self, w: int) -> bool {
        self.wf() && self.x < w && (self.x == 0 ==> self.rightwards)
    }
}

/// In a box of at least three columns the ball stays inside, also when the box
/// gets another width of at least three columns.
pub proof fn law_styled_ball_stays_in_box(m: StyledModel, w: int)
    requires
        m.wf(),
        m.x == 0 ==> m.rightwards,
        w >= 3,
        w <= usize::MAX,
    ensures
        m.next(w).inside(w),
{
}

fn push_blanks(t: &mut StyledText, n: usize)
    ensures
        final(t)@ == old(t)@ + blank_run(n as int),
{
    if n > 0 {
        let mut s = String::new();
        push_repeated(&mut s, ' ', n);
        proof {
            assert(s@ =~= repeated(' ', n as nat));
        }
        t.push(Span::plain(s.as_str()));
    }
    proof {
        assert(t@ =~= old(t)@ + blank_run(n as int));
    }
}

fn push_box_line(t: &mut StyledText, row: usize, x: usize, y: usize, w: usize)
    ensures
        final(t)@ == old(t)@ + box_line(row as int, x as int, y as int, w as int),
{
    let ghost start = t@;
    if row == y && x < w {
        push_blanks(t, x);
        t.push(Span::new("o", Style::default().fg(Color::Blue).bold()));
        push_blanks(t, w - x - 1);
        proof {
            assert(t@ =~= start + box_line(row as int, x as int, y as int, w as int));
        }
    } else {
        push_blanks(t, w);
    }
}

fn push_break(t: &mut StyledText)
    ensures
        final(t)@ == old(t)@ + line_break(),
{
    t.push(Span::plain("\n"));
    proof {
        assert(t@ =~= old(t)@ + line_break());
    }
}

fn bar_text(tick: u64, w: usize) -> (t: StyledText)
    requires
        2 <= w <= 65535,
    ensures
        t@ == bar(tick as nat, w as int),
{
    let bar_width: usize = w - 2;
    let cycle: usize = (tick % (bar_width as u64 + 1)) as usize;
    let busy_style = Style::default().fg(Color::DarkYellow);
    let mut filled = String::new();
    push_repeated(&mut filled, '=', cycle);
    let mut empty = String::new();
    push_repeated(&mut empty, ' ', bar_width - cycle);
    let mut t = StyledText::new();
    t.push(Span::new("[", busy_style));
    t.push(Span::new(filled.as_str(), busy_style));
    t.push(Span::new(empty.as_str(), Style::default()));
    t.push(Span::new("]", busy_style));
    proof {
        assert(filled@ =~= repeated('=', cycle as nat));
        assert(empty@ =~= repeated(' ', (bar_width - cycle) as nat));
        assert(t@ =~= bar(tick as nat, w as int));
    }
    t
}

impl StyledAnimator {
    /// Whether the ball is on one of the three lines.
    pub closed spec fn wf(self) -> bool {
        self@.wf()
    }

    /// What [`StyledAnimator::wf`] gives.
    pub proof fn lemma_wf(self)
        ensures
            self.wf() <==> self@.wf(),
    {
    }

    /// The start: no tick yet, the ball in the second column of the first line.
    pub fn new() -> (a: Self)
        ensures
            a.wf(),
            a@ == (StyledModel { tick: 0, x: 1, y: 0, rightwards: true, downwards: true }),
    {
        StyledAnimator { tick: 0, x: 1, y: 0, rightwards: true, downwards: true }
    }

    /// How many ticks have passed.
    pub fn ticks(&self) -> (n: u64)
        ensures
            n == self@.tick,
    {
        self.tick
    }

    /// Advances by one tick and returns what to show; `columns` is the terminal
    /// width, if it is known, and `secs` the current time in seconds.
    pub fn next_frame(&mut self, columns: Option<u16>, secs: u64) -> (f: StyledFrame)
        requires
            old(self).wf(),
            old(self)@.tick < u64::MAX,
        ensures
            final(self).wf(),
            final(self)@ == old(self)@.next(box_width(columns)),
            f.above@ == old(self)@.picture(box_width(columns)),
            f.left@ == tick_prefix(old(self)@.tick + 1),
            f.right@ == clock(secs as nat),
            f.below@ == bar(old(self)@.tick + 1, box_width(columns)),
            text_opt(f.log) == tick_message(old(self)@.tick + 1),
    {
        let ghost before = self@;
        self.tick = self.tick + 1;
        let mut w: usize = match columns {
            Some(w) => w as usize,
            None => 80,
        };
        if w < 2 {
            w = 2;
        }
        let mut above = StyledText::new();
        push_box_line(&mut above, 0, self.x, self.y, w);
        push_break(&mut above);
        push_box_line(&mut above, 1, self.x, self.y, w);
        push_break(&mut above);
        push_box_line(&mut above, 2, self.x, self.y, w);
        proof {
            assert(above@ =~= before.picture(w as int));
        }
        if self.x >= w - 1 {
            self.x = w - 2;
            self.rightwards = false;
        }
        self.x = if self.rightwards {
            self.x + 1
        } else {
            self.x.wrapping_sub(1)
        };
        self.y = if self.downwards {
            self.y + 1
        } else {
            self.y - 1
        };
        if self.x == 0 || self.x >= w - 1 {
            self.rightwards = !self.rightwards;
        }
        if self.y == 0 || self.y >= 2 {
            self.downwards = !self.downwards;
        }
        let below = bar_text(self.tick, w);
        StyledFrame {
            above,
            left: tick_prefix_text(self.tick),
            right: clock_text(secs),
            below,
            log: tick_message_text(self.tick),
        }
    }
}

// ---------------------------------------------------------------------------
// Laws
// ---------------------------------------------------------------------------

proof fn lemma_two_digits(n: nat)
    requires
        n < 100,
    ensures
        two_digits(n).len() == 2,
        digits_value(two_digits(n)) == n,
{
    law_decimal_digits_stand_for_the_number(n);
    let t = two_digits(n);
    reveal_with_fuel(decimal, 2);
    reveal_with_fuel(digits_value, 3);
    assert(t.drop_last().drop_last() =~= Seq::<char>::empty());
}

/// The clock shows hours, minutes and seconds, each with two digits, and starts
/// anew every day.
pub proof fn law_clock_shows_the_time_of_day(
    days: nat,
    hours: nat,
    minutes: nat,
    seconds: nat,
)
    requires
        hours < 24,
        minutes < 60,
        seconds < 60,
    ensures
        ({
            let shown = clock(86400 * days + 3600 * hours + 60 * minutes + seconds);
            &&& shown.len() == 8
            &&& digits_value(shown.take(2)) == hours
            &&& shown[2] == ':'
            &&& digits_value(shown.subrange(3, 5)) == minutes
            &&& shown[5] == ':'
            &&& digits_value(shown.skip(6)) == seconds
        }),
{
    let secs: nat = 86400 * days + 3600 * hours + 60 * minutes + seconds;
    assert(secs % 60 == seconds);
    assert((secs / 60) % 60 == minutes);
    assert((secs / 3600) % 24 == hours);
    lemma_two_digits(hours);
    lemma_two_digits(minutes);
    lemma_two_digits(seconds);
    let shown = clock(secs);
    assert(shown.take(2) =~= two_digits(hours));
    assert(shown.subrange(3, 5) =~= two_digits(minutes));
    assert(shown.skip(6) =~= two_digits(seconds));
}

/// Every fifth tick is logged, with its number among those.
pub proof fn law_every_fifth_tick_is_logged(k: nat, rest: nat)
    requires
        0 < rest < 5,
    ensures
        tick_message(5 * k) == Some("[tick "@ + decimal(k) + "]"@),
        tick_message(5 * k + rest) is None,
{
}

/// A ball goes from column to column, in every line: with each step by one, to
/// the right up to the middle of its way and then back.
pub proof fn law_ball_moves_by_one_column(pos: int, row: int)
    requires
        0 <= pos,
        0 <= row,
    ensures
        0 <= ball_column(pos, row) <= 30,
        ball_column(pos + 60, row) == ball_column(pos, row),
        (pos + row * 3) % 60 < 30 ==> ball_column(pos + 1, row) == ball_column(pos, row) + 1,
        (pos + row * 3) % 60 >= 30 ==> ball_column(pos + 1, row) == ball_column(pos, row) - 1,
        ball_column(pos, row + 1) == ball_column(pos + 3, row),
        ball_line(ball_column(pos, row)).len() == ball_column(pos, row) + 1,
        ball_line(ball_column(pos, row)).last() == 'o',
{
}

/// The ball goes on in its direction until an edge of the box, and then back.
pub proof fn law_ball_turns_at_the_edges(m: PlainModel)
    requires
        m.wf(),
    ensures
        m.next().tick == m.tick + 1,
        m.next().pos == if m.forward {
            m.pos + 1
        } else {
            m.pos - 1
        },
        0 < m.next().pos < 29 ==> m.next().forward == m.forward,
        m.next().pos == 29 ==> !m.next().forward,
        m.next().pos == 0 ==> m.next().forward,
{
}

proof fn lemma_raw_cells_add(a: Seq<SpanModel>, b: Seq<SpanModel>)
    ensures
        raw_cells(a + b) == raw_cells(a) + raw_cells(b),
    decreases b.len(),
{
    if b.len() == 0 {
        assert(a + b =~= a);
        assert(raw_cells(a) + raw_cells(b) =~= raw_cells(a));
    } else {
        assert((a + b).drop_last() =~= a + b.drop_last());
        assert((a + b).last() == b.last());
        lemma_raw_cells_add(a, b.drop_last());
        assert(raw_cells(a + b) =~= raw_cells(a) + raw_cells(b));
    }
}

proof fn lemma_raw_cells_one(s: SpanModel)
    ensures
        raw_cells(seq![s]) == span_cells(s),
{
    assert(seq![s].drop_last() =~= Seq::<SpanModel>::empty());
    assert(seq![s].last() == s);
    reveal_with_fuel(raw_cells, 2);
    assert(raw_cells(seq![s]) =~= span_cells(s));
}

proof fn lemma_blank_run(n: int)
    requires
        n >= 0,
    ensures
        raw_cells(blank_run(n)) == Seq::new(n as nat, |i: int| cell(' ', plain_style())),
{
    if n > 0 {
        lemma_raw_cells_one((repeated(' ', n as nat), plain_style()));
    }
    assert(raw_cells(blank_run(n)) =~= Seq::new(n as nat, |i: int| cell(' ', plain_style())));
}

/// Every line of the box is as wide as the box. The ball stands in its line at
/// its column, and everything else is blank.
pub proof fn law_box_shows_the_ball_at_its_place(row: int, x: int, y: int, w: int, i: int)
    requires
        0 <= x,
        0 <= w,
    ensures
        raw_cells(box_line(row, x, y, w)).len() == w,
        0 <= i < w ==> raw_cells(box_line(row, x, y, w))[i] == if row == y && i == x {
            cell('o', ball_style())
        } else {
            cell(' ', plain_style())
        },
{
    if row == y && x < w {
        let ball = ("o"@, ball_style());
        reveal_strlit("o");
        lemma_blank_run(x);
        lemma_blank_run(w - x - 1);
        lemma_raw_cells_one(ball);
        lemma_raw_cells_add(blank_run(x), seq![ball]);
        lemma_raw_cells_add(blank_run(x) + seq![ball], blank_run(w - x - 1));
    } else {
        lemma_blank_run(w);
    }
}

/// The bar is as wide as the box, with brackets at its ends; between them it
/// grows by one mark with every tick, and starts anew when it is full.
pub proof fn law_bar_grows_with_every_tick(tick: nat, w: int, i: int)
    requires
        w >= 2,
    ensures
        raw_cells(bar(tick, w)).len() == w,
        raw_cells(bar(tick, w))[0] == cell('[', bar_style()),
        raw_cells(bar(tick, w))[w - 1] == cell(']', bar_style()),
        0 < i < w - 1 ==> raw_cells(bar(tick, w))[i] == if i <= tick % ((w - 1) as nat) {
            cell('=', bar_style())
        } else {
            cell(' ', plain_style())
        },
{
    let cycle = tick % ((w - 1) as nat);
    assert(0 <= cycle < w - 1);
    reveal_strlit("[");
    reveal_strlit("]");
    let a: SpanModel = ("["@, bar_style());
    let b: SpanModel = (repeated('=', cycle), bar_style());
    let c: SpanModel = (repeated(' ', (w - 2 - cycle) as nat), plain_style());
    let d: SpanModel = ("]"@, bar_style());
    assert(bar(tick, w) =~= seq![a] + seq![b] + seq![c] + seq![d]);
    lemma_raw_cells_one(a);
    lemma_raw_cells_one(b);
    lemma_raw_cells_one(c);
    lemma_raw_cells_one(d);
    lemma_raw_cells_add(seq![a], seq![b]);
    lemma_raw_cells_add(seq![a] + seq![b], seq![c]);
    lemma_raw_cells_add(seq![a] + seq![b] + seq![c], seq![d]);
}

} // verus!

//! Styled text for terminal rendering.
//!
//! Content is a sequence of [`Span`]s, each pairing a plain string with a
//! [`Style`]. Display width is always computable from the text alone: no ANSI
//! escape codes are stored in the data model.

use crate::text::to_chars;
use vstd::prelude::*;

verus! {

/// A terminal colour.
#[derive(Clone, Copy, PartialEq, Eq, Structural, Debug)]
pub enum Color {
    Reset,
    Black,
    DarkGrey,
    Red,
    DarkRed,
    Green,
    DarkGreen,
    Yellow,
    DarkYellow,
    Blue,
    DarkBlue,
    Magenta,
    DarkMagenta,
    Cyan,
    DarkCyan,
    White,
    Grey,
    Rgb { r: u8, g: u8, b: u8 },
    AnsiValue(u8),
}

/// Visual attributes of a single character cell.
#[derive(Clone, Copy, PartialEq, Eq, Structural, Debug)]
pub struct Style {
    pub fg: Option<Color>,
    pub bg: Option<Color>,
    pub bold: bool,
    pub underline: bool,
    pub italic: bool,
}

/// The style of plain text.
pub open spec fn plain_style() -> Style {
    Style { fg: None, bg: None, bold: false, underline: false, italic: false }
}

impl Default for Style {
    fn default() -> (s: Self)
        ensures
            s == plain_style(),
    {
        Style { fg: None, bg: None, bold: false, underline: false, italic: false }
    }
}

impl Style {
    /// The style with the foreground colour replaced.
    pub fn fg(self, color: Color) -> (s: Self)
        ensures
            s == (Style { fg: Some(color), ..self }),
    {
        Style { fg: Some(color), ..self }
    }

    /// The style with the background colour replaced.
    pub fn bg(self, color: Color) -> (s: Self)
        ensures
            s == (Style { bg: Some(color), ..self }),
    {
        Style { bg: Some(color), ..self }
    }

    /// The style made bold.
    pub fn bold(self) -> (s: Self)
        ensures
            s == (Style { bold: true, ..self }),
    {
        Style { bold: true, ..self }
    }

    /// The style made underlined.
    pub fn underline(self) -> (s: Self)
        ensures
            s == (Style { underline: true, ..self }),
    {
        Style { underline: true, ..self }
    }

    /// The style made italic.
    pub fn italic(self) -> (s: Self)
        ensures
            s == (Style { italic: true, ..self }),
    {
        Style { italic: true, ..self }
    }
}

/// A character cell: one character and its style.
#[derive(Clone, Copy, PartialEq, Eq, Structural, Debug)]
pub struct Cell {
    pub ch: char,
    pub style: Style,
}

impl Cell {
    /// The cell with the given character and style.
    pub fn new(ch: char, style: Style) -> (c: Self)
        ensures
            c == (Cell { ch, style }),
    {
        Cell { ch, style }
    }

    /// The unstyled cell with the given character.
    pub fn plain(ch: char) -> (c: Self)
        ensures
            c == (Cell { ch, style: plain_style() }),
    {
        Cell { ch, style: Style::default() }
    }
}

/// A run of text with a uniform style.
#[derive(Clone, Debug)]
pub struct Span {
    pub text: String,
    pub style: Style,
}

/// The text of a span and its style.
pub type SpanModel = (Seq<char>, Style);

impl View for Span {
    type V = SpanModel;

    open spec fn view(&self) -> SpanModel {
        (self.text@, self.style)
    }
}

impl Span {
    /// A styled run of text.
    pub fn new(text: &str, style: Style) -> (s: Self)
        ensures
            s@ == (text@, style),
    {
        Span { text: text.to_owned(), style }
    }

    /// An unstyled run of text.
    pub fn plain(text: &str) -> (s: Self)
        ensures
            s@ == (text@, plain_style()),
    {
        Span { text: text.to_owned(), style: Style::default() }
    }

    /// The same run again.
    pub fn duplicate(&self) -> (s: Self)
        ensures
            s@ == self@,
    {
        Span { text: self.text.clone(), style: self.style }
    }
}

/// A sequence of styled spans.
#[derive(Clone, Debug)]
pub struct StyledText {
    spans: Vec<Span>,
}

impl View for StyledText {
    type V = Seq<SpanModel>;

    closed spec fn view(&self) -> Seq<SpanModel> {
        Seq::new(self.spans@.len(), |i: int| self.spans@[i]@)
    }
}

/// The cell with the given character and style.
pub open spec fn cell(ch: char, style: Style) -> Cell {
    Cell { ch, style }
}

/// The cells of one run of text, newlines included.
pub open spec fn span_cells(span: SpanModel) -> Seq<Cell> {
    Seq::new(span.0.len(), |i: int| cell(span.0[i], span.1))
}

/// The cells of all spans one after the other, newlines included.
pub open spec fn raw_cells(text: Seq<SpanModel>) -> Seq<Cell>
    decreases text.len(),
{
    if text.len() == 0 {
        Seq::empty()
    } else {
        raw_cells(text.drop_last()) + span_cells(text.last())
    }
}

/// The cells without the newlines.
pub open spec fn visible_cells(cells: Seq<Cell>) -> Seq<Cell> {
    cells.filter(|c: Cell| c.ch != '\n')
}

pub proof fn lemma_visible_push(cells: Seq<Cell>, c: Cell)
    ensures
        visible_cells(cells.push(c)) == if c.ch != '\n' {
            visible_cells(cells).push(c)
        } else {
            visible_cells(cells)
        },
{
    reveal(Seq::filter);
    assert(cells.push(c).drop_last() =~= cells);
}

impl StyledText {
    /// The empty text.
    pub fn new() -> (t: Self)
        ensures
            t@ == Seq::<SpanModel>::empty(),
    {
        let t = StyledText { spans: Vec::new() };
        proof {
            assert(t@ =~= Seq::<SpanModel>::empty());
        }
        t
    }

    /// One unstyled run.
    pub fn plain(s: &str) -> (t: Self)
        ensures
            t@ == seq![(s@, plain_style())],
    {
        let mut t = StyledText::new();
        t.push(Span::plain(s));
        proof {
            assert(t@ =~= seq![(s@, plain_style())]);
        }
        t
    }

    /// One run.
    pub fn single(span: Span) -> (t: Self)
        ensures
            t@ == seq![span@],
    {
        let mut t = StyledText::new();
        t.push(span);
        proof {
            assert(t@ =~= seq![span@]);
        }
        t
    }

    /// The given runs.
    pub fn of_spans(spans: Vec<Span>) -> (t: Self)
        ensures
            t@ == Seq::new(spans@.len(), |i: int| spans@[i]@),
    {
        StyledText { spans }
    }

    /// Appends a run.
    pub fn push(&mut self, span: Span)
        ensures
            final(self)@ == old(self)@.push(span@),
    {
        self.spans.push(span);
        proof {
            assert(self@ =~= old(self)@.push(span@));
        }
    }

    /// The runs.
    pub fn spans(&self) -> (s: &[Span])
        ensures
            Seq::new(s@.len(), |i: int| s@[i]@) == self@,
    {
        self.spans.as_slice()
    }

    /// The same text again.
    pub fn duplicate(&self) -> (t: Self)
        ensures
            t@ == self@,
    {
        let mut t = StyledText::new();
        let mut i: usize = 0;
        while i < self.spans.len()
            invariant
                i <= self.spans@.len(),
                t@ == self@.take(i as int),
            decreases self.spans@.len() - i,
        {
            t.push(self.spans[i].duplicate());
            proof {
                assert(self@.take(i as int).push(self@[i as int]) =~= self@.take(i + 1));
            }
            i = i + 1;
        }
        proof {
            assert(self@.take(i as int) =~= self@);
        }
        t
    }

    /// All cells, newlines included.
    pub(crate) fn all_cells(&self) -> (cells: Vec<Cell>)
        ensures
            cells@ == raw_cells(self@),
    {
        let mut cells: Vec<Cell> = Vec::new();
        let mut i: usize = 0;
        while i < self.spans.len()
            invariant
                i <= self.spans@.len(),
                cells@ == raw_cells(self@.take(i as int)),
            decreases self.spans@.len() - i,
        {
            let style = self.spans[i].style;
            let chars = to_chars(self.spans[i].text.as_str());
            let ghost done = cells@;
            let ghost all = span_cells(self@[i as int]);
            let mut k: usize = 0;
            proof {
                assert(self@[i as int] == self.spans@[i as int]@);
                assert(all =~= Seq::new(chars@.len(), |j: int| cell(chars@[j], style)));
                assert(done + all.take(0) =~= done);
            }
            while k < chars.len()
                invariant
                    k <= chars@.len(),
                    all == Seq::new(chars@.len(), |j: int| cell(chars@[j], style)),
                    cells@ == done + all.take(k as int),
                decreases chars@.len() - k,
            {
                cells.push(Cell { ch: chars[k], style });
                proof {
                    assert((done + all.take(k as int)).push(all[k as int]) =~= done + all.take(
                        k + 1,
                    ));
                }
                k = k + 1;
            }
            proof {
                assert(all.take(k as int) =~= all);
                assert(self@.take(i + 1).drop_last() =~= self@.take(i as int));
                assert(self@.take(i + 1).last() == self@[i as int]);
            }
            i = i + 1;
        }
        proof {
            assert(self@.take(i as int) =~= self@);
        }
        cells
    }

    /// Total display width in characters.
    pub fn char_count(&self) -> (n: usize)
        ensures
            n == raw_cells(self@).len(),
    {
        let cells = self.all_cells();
        cells.len()
    }

    /// Whether there is no text content.
    pub fn is_empty(&self) -> (r: bool)
        ensures
            r == (raw_cells(self@).len() == 0),
    {
        let cells = self.all_cells();
        cells.len() == 0
    }

    /// The cells in order, newlines left out.
    pub fn to_cells(&self) -> (cells: Vec<Cell>)
        ensures
            cells@ == visible_cells(raw_cells(self@)),
    {
        let all = self.all_cells();
        let mut cells: Vec<Cell> = Vec::new();
        let mut i: usize = 0;
        proof {
            reveal(Seq::filter);
            assert(visible_cells(all@.take(0)) =~= Seq::<Cell>::empty());
        }
        while i < all.len()
            invariant
                i <= all@.len(),
                cells@ == visible_cells(all@.take(i as int)),
            decreases all@.len() - i,
        {
            proof {
                lemma_visible_push(all@.take(i as int), all@[i as int]);
                assert(all@.take(i as int).push(all@[i as int]) =~= all@.take(i + 1));
            }
            if all[i].ch != '\n' {
                cells.push(all[i]);
            }
            i = i + 1;
        }
        proof {
            assert(all@.take(i as int) =~= all@);
        }
        cells
    }
}

impl From<&str> for StyledText {
    fn from(s: &str) -> (t: Self)
        ensures
            t@ == seq![(s@, plain_style())],
    {
        StyledText::plain(s)
    }
}

impl vstd::std_specs::convert::FromSpecImpl<&str> for StyledText {
    open spec fn obeys_from_spec() -> bool {
        false
    }

    open spec fn from_spec(s: &str) -> Self {
        arbitrary()
    }
}

impl From<String> for StyledText {
    fn from(s: String) -> (t: Self)
        ensures
            t@ == seq![(s@, plain_style())],
    {
        StyledText::plain(s.as_str())
    }
}

impl vstd::std_specs::convert::FromSpecImpl<String> for StyledText {
    open spec fn obeys_from_spec() -> bool {
        false
    }

    open spec fn from_spec(s: String) -> Self {
        arbitrary()
    }
}

impl From<Span> for StyledText {
    fn from(s: Span) -> (t: Self)
        ensures
            t@ == seq![s@],
    {
        StyledText::single(s)
    }
}

impl vstd::std_specs::convert::FromSpecImpl<Span> for StyledText {
    open spec fn obeys_from_spec() -> bool {
        false
    }

    open spec fn from_spec(s: Span) -> Self {
        arbitrary()
    }
}

impl From<Vec<Span>> for StyledText {
    fn from(s: Vec<Span>) -> (t: Self)
        ensures
            t@ == Seq::new(s@.len(), |i: int| s@[i]@),
    {
        StyledText::of_spans(s)
    }
}

impl vstd::std_specs::convert::FromSpecImpl<Vec<Span>> for StyledText {
    open spec fn obeys_from_spec() -> bool {
        false
    }

    open spec fn from_spec(s: Vec<Span>) -> Self {
        arbitrary()
    }
}

} // verus!

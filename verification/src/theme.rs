//! Theme styles and their terminal counterparts.

use crate::style::{Color, Span, SpanModel, Style, StyledText};
use vstd::prelude::*;

verus! {

/// A colour that a theme can name.
#[derive(Clone, Copy, PartialEq, Eq, Structural, Debug)]
pub enum ThemeColor {
    Black,
    DarkRed,
    DarkGreen,
    DarkYellow,
    DarkBlue,
    DarkMagenta,
    DarkCyan,
    DarkGrey,
    Red,
    Green,
    Yellow,
    Blue,
    Magenta,
    Cyan,
    White,
    Grey,
    Rgb { r: u8, g: u8, b: u8 },
}

/// The style that a theme gives to a name.
#[derive(Clone, Copy, PartialEq, Eq, Structural, Debug)]
pub struct ThemeStyle {
    pub fg: Option<ThemeColor>,
    pub bg: Option<ThemeColor>,
    pub bold: bool,
    pub underline: bool,
    pub italic: bool,
}

/// The terminal colour of a theme colour.
pub open spec fn terminal_color(c: ThemeColor) -> Color {
    match c {
        ThemeColor::Black => Color::Black,
        ThemeColor::DarkRed => Color::DarkRed,
        ThemeColor::DarkGreen => Color::DarkGreen,
        ThemeColor::DarkYellow => Color::DarkYellow,
        ThemeColor::DarkBlue => Color::DarkBlue,
        ThemeColor::DarkMagenta => Color::DarkMagenta,
        ThemeColor::DarkCyan => Color::DarkCyan,
        ThemeColor::DarkGrey => Color::DarkGrey,
        ThemeColor::Red => Color::Red,
        ThemeColor::Green => Color::Green,
        ThemeColor::Yellow => Color::Yellow,
        ThemeColor::Blue => Color::Blue,
        ThemeColor::Magenta => Color::Magenta,
        ThemeColor::Cyan => Color::Cyan,
        ThemeColor::White => Color::White,
        ThemeColor::Grey => Color::Grey,
        ThemeColor::Rgb { r, g, b } => Color::Rgb { r, g, b },
    }
}

/// The terminal colour of an optional theme colour.
pub open spec fn terminal_color_opt(c: Option<ThemeColor>) -> Option<Color> {
    match c {
        Some(c) => Some(terminal_color(c)),
        None => None,
    }
}

/// Converts a theme colour to a terminal colour.
pub fn convert_color(c: ThemeColor) -> (color: Color)
    ensures
        color == terminal_color(c),
{
    match c {
        ThemeColor::Black => Color::Black,
        ThemeColor::DarkRed => Color::DarkRed,
        ThemeColor::DarkGreen => Color::DarkGreen,
        ThemeColor::DarkYellow => Color::DarkYellow,
        ThemeColor::DarkBlue => Color::DarkBlue,
        ThemeColor::DarkMagenta => Color::DarkMagenta,
        ThemeColor::DarkCyan => Color::DarkCyan,
        ThemeColor::DarkGrey => Color::DarkGrey,
        ThemeColor::Red => Color::Red,
        ThemeColor::Green => Color::Green,
        ThemeColor::Yellow => Color::Yellow,
        ThemeColor::Blue => Color::Blue,
        ThemeColor::Magenta => Color::Magenta,
        ThemeColor::Cyan => Color::Cyan,
        ThemeColor::White => Color::White,
        ThemeColor::Grey => Color::Grey,
        ThemeColor::Rgb { r, g, b } => Color::Rgb { r, g, b },
    }
}

/// Different theme colours stay different on the terminal.
pub proof fn law_colors_stay_distinct(a: ThemeColor, b: ThemeColor)
    ensures
        terminal_color(a) == terminal_color(b) <==> a == b,
{
}

fn convert_color_opt(c: Option<ThemeColor>) -> (color: Option<Color>)
    ensures
        color == terminal_color_opt(c),
{
    match c {
        Some(c) => Some(convert_color(c)),
        None => None,
    }
}

/// Converts a theme style to a terminal style.
pub fn convert_style(ts: ThemeStyle) -> (style: Style)
    ensures
        style == (Style {
            fg: terminal_color_opt(ts.fg),
            bg: terminal_color_opt(ts.bg),
            bold: ts.bold,
            underline: ts.underline,
            italic: ts.italic,
        }),
{
    Style {
        fg: convert_color_opt(ts.fg),
        bg: convert_color_opt(ts.bg),
        bold: ts.bold,
        underline: ts.underline,
        italic: ts.italic,
    }
}

/// A block of styled text with an optional background that fills its width.
pub struct StyledBlock {
    content: StyledText,
    background: Option<Color>,
}

/// What a [`StyledBlock`] holds.
#[verifier::ext_equal]
pub struct BlockModel {
    pub content: Seq<SpanModel>,
    pub background: Option<Color>,
}

impl View for StyledBlock {
    type V = BlockModel;

    closed spec fn view(&self) -> BlockModel {
        BlockModel { content: self.content@, background: self.background }
    }
}

impl StyledBlock {
    /// A block without background.
    pub fn new(content: StyledText) -> (b: Self)
        ensures
            b@ == (BlockModel { content: content@, background: None }),
    {
        StyledBlock { content, background: None }
    }

    /// The block with the background replaced.
    pub fn bg(self, color: Color) -> (b: Self)
        ensures
            b@ == (BlockModel { background: Some(color), ..self@ }),
    {
        StyledBlock { content: self.content, background: Some(color) }
    }

    /// The text.
    pub fn content(&self) -> (t: &StyledText)
        ensures
            t@ == self@.content,
    {
        &self.content
    }

    /// The background.
    pub fn background(&self) -> (c: Option<Color>)
        ensures
            c == self@.background,
    {
        self.background
    }
}

/// A block in a theme style.
///
/// Foreground and attributes of the style apply to the text; its background
/// fills the width of the block.
pub fn themed_block(ts: ThemeStyle, text: &str) -> (block: StyledBlock)
    ensures
        block@ == (BlockModel {
            content: seq![
                (
                    text@,
                    Style {
                        fg: terminal_color_opt(ts.fg),
                        bg: None,
                        bold: ts.bold,
                        underline: ts.underline,
                        italic: ts.italic,
                    },
                ),
            ],
            background: terminal_color_opt(ts.bg),
        }),
{
    let span_style = Style {
        fg: convert_color_opt(ts.fg),
        bg: None,
        bold: ts.bold,
        underline: ts.underline,
        italic: ts.italic,
    };
    let block = StyledBlock::new(StyledText::single(Span::new(text, span_style)));
    match ts.bg {
        Some(bg) => block.bg(convert_color(bg)),
        None => block,
    }
}

/// A named colour keeps its name on the terminal, and a mixed one its parts.
pub proof fn law_colors_keep_their_names(c: ThemeColor, red: u8, green: u8, blue: u8)
    ensures
        terminal_color(c) is Black <==> c is Black,
        terminal_color(c) is DarkRed <==> c is DarkRed,
        terminal_color(c) is DarkGreen <==> c is DarkGreen,
        terminal_color(c) is DarkYellow <==> c is DarkYellow,
        terminal_color(c) is DarkBlue <==> c is DarkBlue,
        terminal_color(c) is DarkMagenta <==> c is DarkMagenta,
        terminal_color(c) is DarkCyan <==> c is DarkCyan,
        terminal_color(c) is DarkGrey <==> c is DarkGrey,
        terminal_color(c) is Red <==> c is Red,
        terminal_color(c) is Green <==> c is Green,
        terminal_color(c) is Yellow <==> c is Yellow,
        terminal_color(c) is Blue <==> c is Blue,
        terminal_color(c) is Magenta <==> c is Magenta,
        terminal_color(c) is Cyan <==> c is Cyan,
        terminal_color(c) is White <==> c is White,
        terminal_color(c) is Grey <==> c is Grey,
        terminal_color(c) == (Color::Rgb { r: red, g: green, b: blue }) <==> c == (ThemeColor::Rgb {
            r: red,
            g: green,
            b: blue,
        }),
{
}

} // verus!

//! The escape sequences of terminal commands, as `crossterm` writes them.
//!
//! Whether `crossterm` writes a colour at all depends on the environment of the process
//! (`NO_COLOR`) and on a switch that any thread may turn. What is stated of a colour
//! command therefore leaves open, for each colour in it, whether its parameters appear.

use crate::geometry::Position;
use crate::style::Color::{
    Black, Blue, Cyan, DarkGray, Gray, Green, Indexed, LightBlue, LightCyan, LightGreen, LightMagenta,
    LightRed, LightYellow, Magenta, Red, Reset, Rgb, White, Yellow,
};
use crate::style::{Attribute, ClearType, Color, SetCursorStyle};
use crossterm::cursor::{MoveTo, SetCursorStyle as Shape};
use crossterm::style::Attribute as Switch;
use crossterm::style::{Colors, Print, SetAttribute, SetBackgroundColor, SetColors, SetForegroundColor};
use crossterm::terminal::Clear;
use crossterm::Command;
use ratatui::style::Color as Paint;
use vstd::prelude::*;

verus! {

/// The digits of a number that is not negative, in base ten.
pub open spec fn decimal(n: int) -> Seq<char>
    decreases n,
{
    if n < 10 {
        seq![(48 + n) as char]
    } else {
        decimal(n / 10).push((48 + n % 10) as char)
    }
}

/// The numbers in base ten, with a semicolon between each two.
pub open spec fn joined(numbers: Seq<int>) -> Seq<char>
    decreases numbers.len(),
{
    if numbers.len() == 0 {
        seq![]
    } else if numbers.len() == 1 {
        decimal(numbers[0])
    } else {
        joined(numbers.drop_last()).push(';') + decimal(numbers.last())
    }
}

/// The control sequence with the given parameters and the given closing characters.
pub open spec fn control(parameters: Seq<char>, closing: Seq<char>) -> Seq<char> {
    seq!['\x1B', '['] + parameters + closing
}

/// The escape sequence that moves the cursor; a terminal counts rows and columns from one.
pub open spec fn move_to_sequence(position: Position) -> Seq<char> {
    control(joined(seq![position.y + 1, position.x + 1]), seq!['H'])
}

/// The number of an attribute in a control sequence.
pub open spec fn attribute_number(attribute: Attribute) -> int {
    match attribute {
        Attribute::Reset => 0,
        Attribute::Bold => 1,
        Attribute::Dim => 2,
        Attribute::Italic => 3,
        Attribute::Underlined => 4,
        Attribute::SlowBlink => 5,
        Attribute::RapidBlink => 6,
        Attribute::Reverse => 7,
        Attribute::CrossedOut => 9,
        Attribute::NormalIntensity => 22,
        Attribute::NoItalic => 23,
        Attribute::NoUnderline => 24,
        Attribute::NoBlink => 25,
        Attribute::NoReverse => 27,
        Attribute::NotCrossedOut => 29,
    }
}

/// The escape sequence that sets an attribute.
pub open spec fn attribute_sequence(attribute: Attribute) -> Seq<char> {
    control(decimal(attribute_number(attribute)), seq!['m'])
}

/// The numbers that stand for a colour, where `ground` is 30 for the foreground and 40 for
/// the background: the terminal's own colour, a colour of the palette, or one by its parts.
pub open spec fn color_numbers(ground: int, color: Color) -> Seq<int> {
    match color {
        Color::Reset => seq![ground + 9],
        Color::Black => seq![ground + 8, 5, 0],
        Color::Red => seq![ground + 8, 5, 1],
        Color::Green => seq![ground + 8, 5, 2],
        Color::Yellow => seq![ground + 8, 5, 3],
        Color::Blue => seq![ground + 8, 5, 4],
        Color::Magenta => seq![ground + 8, 5, 5],
        Color::Cyan => seq![ground + 8, 5, 6],
        Color::Gray => seq![ground + 8, 5, 7],
        Color::DarkGray => seq![ground + 8, 5, 8],
        Color::LightRed => seq![ground + 8, 5, 9],
        Color::LightGreen => seq![ground + 8, 5, 10],
        Color::LightYellow => seq![ground + 8, 5, 11],
        Color::LightBlue => seq![ground + 8, 5, 12],
        Color::LightMagenta => seq![ground + 8, 5, 13],
        Color::LightCyan => seq![ground + 8, 5, 14],
        Color::White => seq![ground + 8, 5, 15],
        Color::Rgb(r, g, b) => seq![ground + 8, 2, r as int, g as int, b as int],
        Color::Indexed(i) => seq![ground + 8, 5, i as int],
    }
}

/// The parameters of a colour in a control sequence: none where colours are switched off.
pub open spec fn color_parameters(ground: int, color: Color, shown: bool) -> Seq<char> {
    if shown {
        joined(color_numbers(ground, color))
    } else {
        seq![]
    }
}

/// The escape sequence that sets the foreground colour.
pub open spec fn foreground_sequence(color: Color, shown: bool) -> Seq<char> {
    control(color_parameters(30, color, shown), seq!['m'])
}

/// The escape sequence that sets the background colour.
pub open spec fn background_sequence(color: Color, shown: bool) -> Seq<char> {
    control(color_parameters(40, color, shown), seq!['m'])
}

/// The escape sequence that sets both colours.
pub open spec fn colors_sequence(fg: Color, bg: Color, fg_shown: bool, bg_shown: bool) -> Seq<
    char,
> {
    control(
        color_parameters(30, fg, fg_shown).push(';') + color_parameters(40, bg, bg_shown),
        seq!['m'],
    )
}

/// The escape sequence that erases a part of the screen.
pub open spec fn clear_sequence(clear_type: ClearType) -> Seq<char> {
    match clear_type {
        ClearType::Purge => control(decimal(3), seq!['J']),
        ClearType::FromCursorDown => control(seq![], seq!['J']),
        ClearType::UntilNewLine => control(seq![], seq!['K']),
    }
}

/// The number of a cursor shape in a control sequence.
pub open spec fn cursor_style_number(style: SetCursorStyle) -> int {
    match style {
        SetCursorStyle::DefaultUserShape => 0,
        SetCursorStyle::BlinkingBlock => 1,
        SetCursorStyle::SteadyBlock => 2,
        SetCursorStyle::BlinkingUnderScore => 3,
        SetCursorStyle::SteadyUnderScore => 4,
        SetCursorStyle::BlinkingBar => 5,
        SetCursorStyle::SteadyBar => 6,
    }
}

/// The escape sequence that sets the shape of the cursor.
pub open spec fn cursor_style_sequence(style: SetCursorStyle) -> Seq<char> {
    control(decimal(cursor_style_number(style)), seq![' ', 'q'])
}

/// `crossterm::cursor::MoveTo::write_ansi`: row and column, each counted from one. It adds
/// that one in `u16`, so the last row and the last column that a `u16` holds are left out.
#[verifier::external_body]
pub(crate) fn move_to_text(position: Position) -> (text: String)
    requires
        position.encodable(),
    ensures
        text@ == move_to_sequence(position),
{
    let mut text = String::new();
    let _ = MoveTo(position.x, position.y).write_ansi(&mut text);
    text
}

/// `crossterm::style::SetAttribute::write_ansi`: the attribute's number and an `m`.
#[verifier::external_body]
pub(crate) fn attribute_text(attribute: Attribute) -> (text: String)
    ensures
        text@ == attribute_sequence(attribute),
{
    let set = match attribute {
        Attribute::Reset => Switch::Reset, Attribute::Bold => Switch::Bold, Attribute::Dim => Switch::Dim,
        Attribute::Italic => Switch::Italic, Attribute::Underlined => Switch::Underlined,
        Attribute::SlowBlink => Switch::SlowBlink, Attribute::RapidBlink => Switch::RapidBlink,
        Attribute::Reverse => Switch::Reverse, Attribute::CrossedOut => Switch::CrossedOut,
        Attribute::NormalIntensity => Switch::NormalIntensity, Attribute::NoItalic => Switch::NoItalic,
        Attribute::NoUnderline => Switch::NoUnderline, Attribute::NoBlink => Switch::NoBlink,
        Attribute::NoReverse => Switch::NoReverse, Attribute::NotCrossedOut => Switch::NotCrossedOut,
    };
    let mut text = String::new();
    let _ = SetAttribute(set).write_ansi(&mut text);
    text
}

/// `crossterm::style::SetForegroundColor::write_ansi` on `Color::Reset`: the parameter of
/// the terminal's own foreground, or none where colours are switched off, and an `m`.
#[verifier::external_body]
pub(crate) fn reset_foreground_text() -> (text: String)
    ensures
        exists|shown: bool| text@ == #[trigger] foreground_sequence(Color::Reset, shown),
{
    let mut text = String::new();
    let _ = SetForegroundColor(Paint::Reset.into()).write_ansi(&mut text);
    text
}

/// `crossterm::style::SetBackgroundColor::write_ansi`, on the colour that `ratatui` converts
/// to `crossterm`'s: the colour's parameters, or none where colours are switched off, and an
/// `m`.
#[verifier::external_body]
pub(crate) fn background_text(color: Color) -> (text: String)
    ensures
        exists|shown: bool| text@ == #[trigger] background_sequence(color, shown),
{
    let paint = match color {
        Reset => Paint::Reset, Black => Paint::Black, Red => Paint::Red, Green => Paint::Green,
        Yellow => Paint::Yellow, Blue => Paint::Blue, Magenta => Paint::Magenta,
        Cyan => Paint::Cyan, Gray => Paint::Gray, DarkGray => Paint::DarkGray,
        LightRed => Paint::LightRed, LightGreen => Paint::LightGreen,
        LightYellow => Paint::LightYellow, LightBlue => Paint::LightBlue,
        LightMagenta => Paint::LightMagenta, LightCyan => Paint::LightCyan, White => Paint::White,
        Rgb(r, g, b) => Paint::Rgb(r, g, b), Indexed(i) => Paint::Indexed(i),
    };
    let mut text = String::new();
    let _ = SetBackgroundColor(paint.into()).write_ansi(&mut text);
    text
}

/// `crossterm::style::SetColors::write_ansi`, on the colours that `ratatui` converts to
/// `crossterm`'s: the parameters of each colour, or none for a colour that was written while
/// colours were switched off, with a semicolon between the two, and an `m`.
#[verifier::external_body]
pub(crate) fn colors_text(fg: Color, bg: Color) -> (text: String)
    ensures
        exists|fg_shown: bool, bg_shown: bool|
            text@ == #[trigger] colors_sequence(fg, bg, fg_shown, bg_shown),
{
    let paint = |color: Color| match color {
        Reset => Paint::Reset, Black => Paint::Black, Red => Paint::Red, Green => Paint::Green,
        Yellow => Paint::Yellow, Blue => Paint::Blue, Magenta => Paint::Magenta,
        Cyan => Paint::Cyan, Gray => Paint::Gray, DarkGray => Paint::DarkGray,
        LightRed => Paint::LightRed, LightGreen => Paint::LightGreen,
        LightYellow => Paint::LightYellow, LightBlue => Paint::LightBlue,
        LightMagenta => Paint::LightMagenta, LightCyan => Paint::LightCyan, White => Paint::White,
        Rgb(r, g, b) => Paint::Rgb(r, g, b), Indexed(i) => Paint::Indexed(i),
    };
    let mut text = String::new();
    let _ = SetColors(Colors::new(paint(fg).into(), paint(bg).into())).write_ansi(&mut text);
    text
}

/// `crossterm::terminal::Clear::write_ansi`: the sequence of each kind of clearing.
#[verifier::external_body]
pub(crate) fn clear_text(clear_type: ClearType) -> (text: String)
    ensures
        text@ == clear_sequence(clear_type),
{
    let erased = match clear_type {
        ClearType::Purge => crossterm::terminal::ClearType::Purge,
        ClearType::FromCursorDown => crossterm::terminal::ClearType::FromCursorDown,
        ClearType::UntilNewLine => crossterm::terminal::ClearType::UntilNewLine,
    };
    let mut text = String::new();
    let _ = Clear(erased).write_ansi(&mut text);
    text
}

/// `crossterm::style::Print::write_ansi` on a string: the string itself.
#[verifier::external_body]
pub(crate) fn print_text(symbol: &str) -> (text: String)
    ensures
        text@ == symbol@,
{
    let mut text = String::new();
    let _ = Print(symbol).write_ansi(&mut text);
    text
}

/// `crossterm::cursor::SetCursorStyle::write_ansi`: the shape's number, a space and a `q`.
#[verifier::external_body]
pub(crate) fn cursor_style_text(style: SetCursorStyle) -> (text: String)
    ensures
        text@ == cursor_style_sequence(style),
{
    let shape = match style {
        SetCursorStyle::DefaultUserShape => Shape::DefaultUserShape,
        SetCursorStyle::BlinkingBlock => Shape::BlinkingBlock,
        SetCursorStyle::SteadyBlock => Shape::SteadyBlock,
        SetCursorStyle::BlinkingUnderScore => Shape::BlinkingUnderScore,
        SetCursorStyle::SteadyUnderScore => Shape::SteadyUnderScore,
        SetCursorStyle::BlinkingBar => Shape::BlinkingBar,
        SetCursorStyle::SteadyBar => Shape::SteadyBar,
    };
    let mut text = String::new();
    let _ = shape.write_ansi(&mut text);
    text
}

} // verus!

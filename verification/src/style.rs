//! Colours, text modifiers and the attributes that switch them.

use vstd::prelude::*;

verus! {

/// A colour of a cell.
#[derive(Debug, Clone, Copy, PartialEq, Eq, Hash, Structural)]
pub enum Color {
    /// The terminal's own colour.
    Reset,
    Black,
    Red,
    Green,
    Yellow,
    Blue,
    Magenta,
    Cyan,
    Gray,
    DarkGray,
    LightRed,
    LightGreen,
    LightYellow,
    LightBlue,
    LightMagenta,
    LightCyan,
    White,
    /// A colour by its red, green and blue parts.
    Rgb(u8, u8, u8),
    /// A colour by its number in the palette of 256.
    Indexed(u8),
}

/// A set of text modifiers, one bit for each.
#[derive(Debug, Clone, Copy, PartialEq, Eq, Hash, Structural)]
pub struct Modifier {
    pub bits: u16,
}

/// The bit of bold text.
pub const BOLD: u16 = 0x001;

/// The bit of faint text.
pub const DIM: u16 = 0x002;

/// The bit of slanted text.
pub const ITALIC: u16 = 0x004;

/// The bit of underlined text.
pub const UNDERLINED: u16 = 0x008;

/// The bit of slowly blinking text.
pub const SLOW_BLINK: u16 = 0x010;

/// The bit of rapidly blinking text.
pub const RAPID_BLINK: u16 = 0x020;

/// The bit of text with its two colours exchanged.
pub const REVERSED: u16 = 0x040;

/// The bit of concealed text.
pub const HIDDEN: u16 = 0x080;

/// The bit of struck out text.
pub const CROSSED_OUT: u16 = 0x100;

impl Modifier {
    /// Whether all the bits of `flags` are in the set.
    pub open spec fn has(self, flags: u16) -> bool {
        self.bits & flags == flags
    }

    /// The empty set.
    pub open spec fn none() -> Modifier {
        Modifier { bits: 0 }
    }

    /// The empty set.
    pub fn empty() -> (modifier: Modifier)
        ensures
            modifier == Modifier::none(),
            modifier.bits == 0,
    {
        Modifier { bits: 0 }
    }

    /// Whether all the bits of `flags` are in the set.
    pub fn contains(self, flags: u16) -> (yes: bool)
        ensures
            yes == self.has(flags),
            yes == (self.bits & flags == flags),
    {
        self.bits & flags == flags
    }

    /// The modifiers of this set that the other lacks.
    pub fn difference(self, other: Modifier) -> (rest: Modifier)
        ensures
            rest.bits == self.bits & !other.bits,
    {
        Modifier { bits: self.bits & !other.bits }
    }
}

/// What a terminal can be told about the text that follows.
#[derive(Debug, Clone, Copy, PartialEq, Eq, Hash, Structural)]
pub enum Attribute {
    /// Back to plain text in the terminal's own colours.
    Reset,
    Bold,
    Dim,
    Italic,
    Underlined,
    SlowBlink,
    RapidBlink,
    Reverse,
    CrossedOut,
    /// Neither bold nor faint.
    NormalIntensity,
    NoItalic,
    NoUnderline,
    NoBlink,
    NoReverse,
    NotCrossedOut,
}

/// The part of the screen that a clearing command erases.
#[derive(Debug, Clone, Copy, PartialEq, Eq, Hash, Structural)]
pub enum ClearType {
    /// The lines that have scrolled off the screen.
    Purge,
    /// From the cursor to the end of the screen.
    FromCursorDown,
    /// From the cursor to the end of its line.
    UntilNewLine,
}

/// The shape of the visible cursor.
#[derive(Debug, Clone, Copy, PartialEq, Eq, Hash, Structural)]
pub enum SetCursorStyle {
    /// The shape that the user has configured.
    DefaultUserShape,
    BlinkingBlock,
    SteadyBlock,
    BlinkingUnderScore,
    SteadyUnderScore,
    BlinkingBar,
    SteadyBar,
}

} // verus!

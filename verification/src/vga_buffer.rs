//! Color codes of the text-mode console. The console buffer itself is a
//! hardware device and lives with the surrounding program; only the color
//! encoding is kept here.

use vstd::prelude::*;

verus! {

/// The sixteen text-mode colors.
#[derive(Clone, Copy, PartialEq, Eq, Structural, Debug)]
pub enum Color {
    Black,
    Blue,
    Green,
    Cyan,
    Red,
    Magenta,
    Brown,
    LightGray,
    DarkGray,
    LightBlue,
    LightGreen,
    LightCyan,
    LightRed,
    Pink,
    Yellow,
    White,
}

impl Color {
    /// The hardware code of the color.
    pub open spec fn spec_code(self) -> u8 {
        match self {
            Color::Black => 0,
            Color::Blue => 1,
            Color::Green => 2,
            Color::Cyan => 3,
            Color::Red => 4,
            Color::Magenta => 5,
            Color::Brown => 6,
            Color::LightGray => 7,
            Color::DarkGray => 8,
            Color::LightBlue => 9,
            Color::LightGreen => 10,
            Color::LightCyan => 11,
            Color::LightRed => 12,
            Color::Pink => 13,
            Color::Yellow => 14,
            Color::White => 15,
        }
    }

    pub fn code(self) -> (r: u8)
        ensures
            r == self.spec_code(),
    {
        match self {
            Color::Black => 0,
            Color::Blue => 1,
            Color::Green => 2,
            Color::Cyan => 3,
            Color::Red => 4,
            Color::Magenta => 5,
            Color::Brown => 6,
            Color::LightGray => 7,
            Color::DarkGray => 8,
            Color::LightBlue => 9,
            Color::LightGreen => 10,
            Color::LightCyan => 11,
            Color::LightRed => 12,
            Color::Pink => 13,
            Color::Yellow => 14,
            Color::White => 15,
        }
    }
}

/// One byte holding a character cell's colors: the first color in the upper
/// four bits, the second in the lower four.
#[derive(Clone, Copy, PartialEq, Eq, Structural, Debug)]
pub struct UnitColor {
    pub unit_color: u8,
}

impl UnitColor {
    pub fn new(forecolor: Color, backgroundcolor: Color) -> (r: UnitColor)
        ensures
            r.unit_color == forecolor.spec_code() * 16 + backgroundcolor.spec_code(),
    {
        let f = forecolor.code();
        let b = backgroundcolor.code();
        UnitColor { unit_color: f * 16 + b }
    }
}

} // verus!

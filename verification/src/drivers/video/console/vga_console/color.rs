use vstd::prelude::*;

verus! {

/// The sixteen colours of the text mode.
#[derive(Debug, Clone, Copy, PartialEq, Eq, Structural)]
pub enum Color {
    Black,
    Blue,
    Green,
    Cyan,
    Red,
    Magenta,
    Brown,
    LightGray,
    DarkGray,
    LightBlue,
    LightGreen,
    LightCyan,
    LightRed,
    Pink,
    Yellow,
    White,
}

impl Color {
    /// The number of the colour in the text mode's palette.
    pub open spec fn spec_code(self) -> u8 {
        match self {
            Color::Black => 0x0,
            Color::Blue => 0x1,
            Color::Green => 0x2,
            Color::Cyan => 0x3,
            Color::Red => 0x4,
            Color::Magenta => 0x5,
            Color::Brown => 0x6,
            Color::LightGray => 0x7,
            Color::DarkGray => 0x8,
            Color::LightBlue => 0x9,
            Color::LightGreen => 0xA,
            Color::LightCyan => 0xB,
            Color::LightRed => 0xC,
            Color::Pink => 0xD,
            Color::Yellow => 0xE,
            Color::White => 0xF,
        }
    }

    #[verifier::when_used_as_spec(spec_code)]
    pub fn code(self) -> (code: u8)
        ensures
            code == self.spec_code(),
            code < 16,
    {
        match self {
            Color::Black => 0x0,
            Color::Blue => 0x1,
            Color::Green => 0x2,
            Color::Cyan => 0x3,
            Color::Red => 0x4,
            Color::Magenta => 0x5,
            Color::Brown => 0x6,
            Color::LightGray => 0x7,
            Color::DarkGray => 0x8,
            Color::LightBlue => 0x9,
            Color::LightGreen => 0xA,
            Color::LightCyan => 0xB,
            Color::LightRed => 0xC,
            Color::Pink => 0xD,
            Color::Yellow => 0xE,
            Color::White => 0xF,
        }
    }
}

/// The colours of one cell of the screen: the background in the upper four bits, the
/// foreground in the lower four.
#[derive(Debug, Clone, Copy, PartialEq, Eq, Structural)]
pub struct ColorCode(pub u8);

impl ColorCode {
    pub fn new(foreground: Color, background: Color) -> (color_code: ColorCode)
        ensures
            color_code.0 == background.spec_code() * 16 + foreground.spec_code(),
    {
        let high = background.code();
        let low = foreground.code();
        assert((high << 4) | low == high * 16 + low) by (bit_vector)
            requires
                high < 16,
                low < 16,
        ;
        ColorCode((high << 4) | low)
    }
}

} // verus!

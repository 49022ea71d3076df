use vstd::prelude::*;
use vstd::string::StringSliceAdditionalSpecFns;
use crate::drivers::video::console::vga_console::color::Color;
use crate::drivers::video::console::vga_console::color::ColorCode;

pub mod color;

verus! {

/// The number of rows of the screen.
pub const BUFFER_HEIGHT: usize = 25;

/// The number of columns of the screen.
pub const BUFFER_WIDTH: usize = 80;

/// The number of cells of the screen.
pub const BUFFER_CELLS: usize = 2000;

/// One cell of the screen: a character and its colours.
#[derive(Debug, Clone, Copy, PartialEq, Eq, Structural)]
pub struct ScreenChar {
    pub ascii_character: u8,
    pub color_code: ColorCode,
}

/// The byte of the line feed.
pub const LINE_FEED: u8 = 0x0a;

/// The byte of the space.
pub const SPACE: u8 = 0x20;

/// The cell that the console clears with: a space, black on black.
pub open spec fn blank() -> ScreenChar {
    ScreenChar { ascii_character: 0x20, color_code: ColorCode(0) }
}

/// The cells after the screen was moved up by a row: the last row is blank.
pub open spec fn scrolled(cells: Seq<ScreenChar>) -> Seq<ScreenChar> {
    Seq::new(
        2000,
        |i: int|
            if i < 1920 {
                cells[i + 80]
            } else {
                blank()
            },
    )
}

/// What is on the screen, where the next character goes, and in which colours.
pub struct Screen {
    pub cells: Seq<ScreenChar>,
    pub position: int,
    pub color_code: ColorCode,
}

/// The screen after the byte `byte` was written to it. A line feed moves to the start of
/// the next row; any other byte is put into the cell at the position, which moves on by
/// one. Where the position leaves the screen, the screen moves up by a row, and the
/// position is the start of the last row.
pub open spec fn after_byte(screen: Screen, byte: u8) -> Screen {
    let written = if byte == 0x0a {
        Screen { position: (screen.position / 80 + 1) * 80, ..screen }
    } else {
        Screen {
            cells: screen.cells.update(
                screen.position,
                ScreenChar { ascii_character: byte, color_code: screen.color_code },
            ),
            position: screen.position + 1,
            ..screen
        }
    };
    if written.position >= 2000 {
        Screen { cells: scrolled(written.cells), position: 1920, ..written }
    } else {
        written
    }
}

/// The screen after the bytes `bytes` were written to it, one after the other.
pub open spec fn after_bytes(screen: Screen, bytes: Seq<u8>) -> Screen
    decreases bytes.len(),
{
    if bytes.len() == 0 {
        screen
    } else {
        after_byte(after_bytes(screen, bytes.drop_last()), bytes.last())
    }
}

/// The cells of the screen, row after row.
pub struct Buffer {
    chars: Vec<ScreenChar>,
}

impl View for Buffer {
    type V = Seq<ScreenChar>;

    closed spec fn view(&self) -> Seq<ScreenChar> {
        self.chars@
    }
}

impl Buffer {
    #[verifier::type_invariant]
    spec fn full(self) -> bool {
        self.chars@.len() == 2000
    }

    /// A buffer of which every cell holds the character 0 in black on black.
    pub fn new() -> (buffer: Buffer)
        ensures
            buffer@ == Seq::new(
                2000,
                |i: int| ScreenChar { ascii_character: 0, color_code: ColorCode(0) },
            ),
    {
        let mut chars: Vec<ScreenChar> = Vec::new();
        let mut i: usize = 0;
        while i < BUFFER_CELLS
            invariant
                i <= 2000,
                chars@.len() == i,
                forall|j: int|
                    0 <= j < i ==> #[trigger] chars@[j] == (ScreenChar {
                        ascii_character: 0,
                        color_code: ColorCode(0),
                    }),
            decreases 2000 - i,
        {
            chars.push(ScreenChar { ascii_character: 0, color_code: ColorCode(0) });
            i = i + 1;
        }
        let buffer = Buffer { chars };
        assert(buffer@ =~= Seq::new(
            2000,
            |i: int| ScreenChar { ascii_character: 0, color_code: ColorCode(0) },
        ));
        buffer
    }

    /// The cell in row `row` and column `column`.
    pub fn char_at(&self, row: usize, column: usize) -> (cell: ScreenChar)
        requires
            row < 25,
            column < 80,
        ensures
            cell == self@[row * 80 + column],
    {
        proof {
            use_type_invariant(self);
        }
        self.chars[row * BUFFER_WIDTH + column]
    }
}

/// A console on the text screen: it writes characters from left to right and from top to
/// bottom, and moves the screen up where it is full.
pub struct VgaConsole {
    buffer: Buffer,
    color_code: ColorCode,
    position: usize,
}

impl View for VgaConsole {
    type V = Screen;

    closed spec fn view(&self) -> Screen {
        Screen {
            cells: self.buffer@,
            position: self.position as int,
            color_code: self.color_code,
        }
    }
}

impl VgaConsole {
    #[verifier::type_invariant]
    spec fn on_screen(self) -> bool {
        self.position < 2000 && self.buffer@.len() == 2000
    }

    /// What the view of every console holds: 2000 cells and a position among them.
    pub open spec fn valid(screen: Screen) -> bool {
        screen.cells.len() == 2000 && 0 <= screen.position < 2000
    }

    /// A console on `buffer` that writes in green on black, from the first cell on.
    pub fn new(buffer: Buffer) -> (console: VgaConsole)
        ensures
            console@ == (Screen { cells: buffer@, position: 0, color_code: ColorCode(0x02) }),
            Self::valid(console@),
    {
        proof {
            use_type_invariant(&buffer);
        }
        VgaConsole {
            buffer,
            color_code: ColorCode::new(Color::Green, Color::Black),
            position: 0,
        }
    }

    /// The cells of the screen.
    pub fn buffer(&self) -> (buffer: &Buffer)
        ensures
            buffer@ == self@.cells,
    {
        &self.buffer
    }

    /// The number of the cell that the next character goes to.
    pub fn position(&self) -> (position: usize)
        ensures
            position == self@.position,
            position < 2000,
    {
        proof {
            use_type_invariant(self);
        }
        self.position
    }

    /// Writes `byte` at the position, or starts a new row for a line feed.
    pub fn write_byte(&mut self, byte: u8)
        ensures
            final(self)@ == after_byte(old(self)@, byte),
            Self::valid(final(self)@),
    {
        proof {
            use_type_invariant(&*self);
        }
        let current_line = self.position / BUFFER_WIDTH;
        let current_column = self.position - current_line * BUFFER_WIDTH;
        let mut position = self.position;
        if byte == LINE_FEED {
            position = (current_line + 1) * BUFFER_WIDTH;
        } else {
            let color_code = self.color_code;
            self.buffer.chars[current_line * BUFFER_WIDTH + current_column] = ScreenChar {
                ascii_character: byte,
                color_code,
            };
            position = position + 1;
        }
        if position >= BUFFER_HEIGHT * BUFFER_WIDTH {
            self.scroll();
        } else {
            self.position = position;
        }
    }

    /// Moves every row up by one, blanks the last row, and puts the position at its start.
    fn scroll(&mut self)
        ensures
            final(self)@ == (Screen {
                cells: scrolled(old(self)@.cells),
                position: 1920,
                color_code: old(self)@.color_code,
            }),
    {
        proof {
            use_type_invariant(&*self);
        }
        let mut i: usize = BUFFER_WIDTH;
        while i < BUFFER_CELLS
            invariant
                80 <= i <= 2000,
                self.buffer@.len() == 2000,
                old(self).buffer@.len() == 2000,
                self.position < 2000,
                self.position == old(self).position,
                self.color_code == old(self).color_code,
                forall|j: int| 0 <= j < i - 80 ==> #[trigger] self.buffer@[j] == old(self).buffer@[j + 80],
                forall|j: int| i - 80 <= j < 2000 ==> #[trigger] self.buffer@[j] == old(self).buffer@[j],
            decreases 2000 - i,
        {
            let character = self.buffer.chars[i];
            self.buffer.chars[i - BUFFER_WIDTH] = character;
            i = i + 1;
        }
        let mut column: usize = 0;
        while column < BUFFER_WIDTH
            invariant
                column <= 80,
                self.buffer@.len() == 2000,
                old(self).buffer@.len() == 2000,
                self.position < 2000,
                self.position == old(self).position,
                self.color_code == old(self).color_code,
                forall|j: int| 0 <= j < 1920 ==> #[trigger] self.buffer@[j] == old(self).buffer@[j + 80],
                forall|j: int| 1920 <= j < 1920 + column ==> #[trigger] self.buffer@[j] == blank(),
            decreases 80 - column,
        {
            self.buffer.chars[(BUFFER_HEIGHT - 1) * BUFFER_WIDTH + column] = ScreenChar {
                ascii_character: SPACE,
                color_code: ColorCode::new(Color::Black, Color::Black),
            };
            column = column + 1;
        }
        self.position = (BUFFER_HEIGHT - 1) * BUFFER_WIDTH;
        assert(self.buffer@ =~= scrolled(old(self).buffer@));
    }

    /// Blanks every cell and puts the position at the first.
    pub fn clear_screen(&mut self)
        ensures
            final(self)@ == (Screen {
                cells: Seq::new(2000, |i: int| blank()),
                position: 0,
                color_code: old(self)@.color_code,
            }),
    {
        proof {
            use_type_invariant(&*self);
        }
        let mut i: usize = 0;
        while i < BUFFER_CELLS
            invariant
                i <= 2000,
                self.buffer@.len() == 2000,
                old(self).buffer@.len() == 2000,
                self.position < 2000,
                self.position == old(self).position,
                self.color_code == old(self).color_code,
                forall|j: int| 0 <= j < i ==> #[trigger] self.buffer@[j] == blank(),
            decreases 2000 - i,
        {
            self.buffer.chars[i] = ScreenChar {
                ascii_character: SPACE,
                color_code: ColorCode::new(Color::Black, Color::Black),
            };
            i = i + 1;
        }
        self.position = 0;
        assert(self.buffer@ =~= Seq::new(2000, |i: int| blank()));
    }

    pub fn set_color_code(&mut self, color_code: ColorCode)
        ensures
            final(self)@ == (Screen { color_code, ..old(self)@ }),
    {
        proof {
            use_type_invariant(&*self);
        }
        self.color_code = color_code;
    }

    /// Writes the bytes of `s`, one after the other.
    pub fn write_str(&mut self, s: &str)
        ensures
            final(self)@ == after_bytes(old(self)@, s.spec_bytes()),
    {
        let bytes = s.as_bytes();
        let mut i: usize = 0;
        assert(after_bytes(self@, bytes@.take(0)) == self@);
        while i < bytes.len()
            invariant
                i <= bytes@.len(),
                self@ == after_bytes(old(self)@, bytes@.take(i as int)),
            decreases bytes@.len() - i,
        {
            self.write_byte(bytes[i]);
            proof {
                assert(bytes@.take(i + 1).drop_last() =~= bytes@.take(i as int));
            }
            i = i + 1;
        }
        assert(bytes@.take(i as int) =~= bytes@);
    }
}

} // verus!

//! Debugging support: the colors and the cursor arithmetic of the VGA
//! text screen. The writes to the video memory itself are done by the
//! surrounding program; this module decides which cell each byte lands
//! in and how the cursor moves.

use vstd::prelude::*;

verus! {

/// The maximum number of columns on the screen.
pub const NUM_COLUMNS: usize = 80;

/// The maximum number of lines on the screen.
pub const NUM_LINES: usize = 25;

/// A foreground color of the VGA text mode.
#[derive(Copy, Clone, Debug, PartialEq, Eq, Structural)]
pub enum Color {
    Black,
    Blue,
    Green,
    Cyan,
    Red,
    Purple,
    Brown,
    Gray,
    DarkGray,
    LightBlue,
    LightGreen,
    LightCyan,
    LightRed,
    LightPurple,
    Yellow,
    White,
}

/// The attribute byte of a color.
pub open spec fn color_code_spec(c: Color) -> u8 {
    match c {
        Color::Black => 0,
        Color::Blue => 1,
        Color::Green => 2,
        Color::Cyan => 3,
        Color::Red => 4,
        Color::Purple => 5,
        Color::Brown => 6,
        Color::Gray => 7,
        Color::DarkGray => 8,
        Color::LightBlue => 9,
        Color::LightGreen => 10,
        Color::LightCyan => 11,
        Color::LightRed => 12,
        Color::LightPurple => 13,
        Color::Yellow => 14,
        Color::White => 15,
    }
}

impl Color {
    /// The attribute byte the screen hardware reads for this color.
    pub fn code(&self) -> (r: u8)
        ensures
            r == color_code_spec(*self),
    {
        match self {
            Color::Black => 0,
            Color::Blue => 1,
            Color::Green => 2,
            Color::Cyan => 3,
            Color::Red => 4,
            Color::Purple => 5,
            Color::Brown => 6,
            Color::Gray => 7,
            Color::DarkGray => 8,
            Color::LightBlue => 9,
            Color::LightGreen => 10,
            Color::LightCyan => 11,
            Color::LightRed => 12,
            Color::LightPurple => 13,
            Color::Yellow => 14,
            Color::White => 15,
        }
    }
}

/// The cursor of the text screen.
pub struct Screen {
    x: usize,
    y: usize,
}

impl Screen {
    /// The cursor's column.
    pub closed spec fn x_spec(&self) -> usize {
        self.x
    }

    /// The cursor's line.
    pub closed spec fn y_spec(&self) -> usize {
        self.y
    }

    /// The cursor is on the screen.
    pub closed spec fn wf(&self) -> bool {
        self.x < NUM_COLUMNS && self.y < NUM_LINES
    }

    /// A fresh cursor at the top left.
    pub fn new() -> (r: Screen)
        ensures
            r.wf(),
            r.x_spec() == 0,
            r.y_spec() == 0,
    {
        Screen { x: 0, y: 0 }
    }

    /// Account one printed byte: a line feed starts the next line, any
    /// other byte occupies the cell at the returned position and moves
    /// the cursor on, wrapping at the right edge and at the bottom.
    pub fn putc(&mut self, byte: u8) -> (r: Option<usize>)
        requires
            old(self).wf(),
        ensures
            final(self).wf(),
            byte == 10 ==> (r is None && final(self).x_spec() == 0 && final(self).y_spec() == (
            if old(self).y_spec() + 1 == NUM_LINES {
                0int
            } else {
                old(self).y_spec() + 1
            })),
            byte != 10 ==> (r == Some((old(self).y_spec() * NUM_COLUMNS
                + old(self).x_spec()) as usize) && ({
                let nx = if old(self).x_spec() + 1 == NUM_COLUMNS {
                    0int
                } else {
                    old(self).x_spec() + 1
                };
                let ny = if old(self).x_spec() + 1 == NUM_COLUMNS {
                    if old(self).y_spec() + 1 == NUM_LINES {
                        0int
                    } else {
                        old(self).y_spec() + 1
                    }
                } else {
                    old(self).y_spec() as int
                };
                final(self).x_spec() == nx && final(self).y_spec() == ny
            })),
    {
        if byte == 10 {
            self.y = self.y + 1;
            self.x = 0;
            if self.y == NUM_LINES {
                self.y = 0;
            }
            return None;
        }
        let position = self.y * NUM_COLUMNS + self.x;

        self.x = self.x + 1;
        if self.x == NUM_COLUMNS {
            self.x = 0;
            self.y = self.y + 1;
        }
        if self.y == NUM_LINES {
            self.y = 0;
        }
        Some(position)
    }
}

} // verus!

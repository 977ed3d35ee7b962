//! A freestanding terminal over the character grid: a cursor that walks the
//! grid cell by cell and wraps from the last column to the next row, and
//! from the last row back to the top. Unlike the scrolling writer, nothing
//! ever moves: old content is overwritten in place when the cursor comes
//! around again.

use crate::vga::entry_spec;
use vstd::prelude::*;

verus! {

/// Number of character rows of the display.
pub const VGA_HEIGHT: usize = 25;

/// Number of character columns of the display.
pub const VGA_WIDTH: usize = 80;

/// The sixteen hardware color indices.
#[derive(Clone, Copy, Debug, PartialEq, Eq, Structural)]
pub enum VgaColor {
    Black,
    Blue,
    Green,
    Cyan,
    Red,
    Magenta,
    Brown,
    LightGrey,
    DarkGrey,
    LightBlue,
    LightGreen,
    LightCyan,
    LightRed,
    LightMagenta,
    LightBrown,
    White,
}

/// The 4-bit hardware code of each color.
pub open spec fn vga_color_code(c: VgaColor) -> u8 {
    match c {
        VgaColor::Black => 0,
        VgaColor::Blue => 1,
        VgaColor::Green => 2,
        VgaColor::Cyan => 3,
        VgaColor::Red => 4,
        VgaColor::Magenta => 5,
        VgaColor::Brown => 6,
        VgaColor::LightGrey => 7,
        VgaColor::DarkGrey => 8,
        VgaColor::LightBlue => 9,
        VgaColor::LightGreen => 10,
        VgaColor::LightCyan => 11,
        VgaColor::LightRed => 12,
        VgaColor::LightMagenta => 13,
        VgaColor::LightBrown => 14,
        VgaColor::White => 15,
    }
}

impl VgaColor {
    /// The 4-bit hardware code of this color.
    pub fn code(self) -> (r: u8)
        ensures
            r == vga_color_code(self),
    {
        match self {
            VgaColor::Black => 0,
            VgaColor::Blue => 1,
            VgaColor::Green => 2,
            VgaColor::Cyan => 3,
            VgaColor::Red => 4,
            VgaColor::Magenta => 5,
            VgaColor::Brown => 6,
            VgaColor::LightGrey => 7,
            VgaColor::DarkGrey => 8,
            VgaColor::LightBlue => 9,
            VgaColor::LightGreen => 10,
            VgaColor::LightCyan => 11,
            VgaColor::LightRed => 12,
            VgaColor::LightMagenta => 13,
            VgaColor::LightBrown => 14,
            VgaColor::White => 15,
        }
    }
}

/// The packed attribute of a foreground and a background color.
pub open spec fn vga_entry_color_spec(fg: VgaColor, bg: VgaColor) -> u8 {
    (vga_color_code(fg) | vga_color_code(bg) << 4) as u8
}

/// Packs a foreground and a background color into one attribute byte.
pub fn vga_entry_color(fg: VgaColor, bg: VgaColor) -> (r: u8)
    ensures
        r == vga_entry_color_spec(fg, bg),
{
    fg.code() | bg.code() << 4
}

/// Packs an ASCII byte and an attribute byte into one character cell.
pub fn vga_entry(uc: u8, color: u8) -> (r: u16)
    ensures
        r == entry_spec(uc, color),
{
    uc as u16 | (color as u16) << 8
}

/// The whole observable state of a terminal: cursor position, current
/// attribute, and the character grid in row-major order.
pub ghost struct TermState {
    pub row: int,
    pub col: int,
    pub color: u8,
    pub grid: Seq<u16>,
}

/// The terminal invariant: the cursor always points at a real cell and the
/// grid holds exactly one cell per screen position.
pub open spec fn term_wf(s: TermState) -> bool {
    &&& 0 <= s.row < VGA_HEIGHT
    &&& 0 <= s.col < VGA_WIDTH
    &&& s.grid.len() == VGA_HEIGHT * VGA_WIDTH
}

/// The effect of placing one byte: the cell under the cursor takes the byte
/// in the current attribute, then the cursor advances, wrapping from the
/// last column to the next row and from the last row back to the top.
pub open spec fn term_put_spec(s: TermState, c: u8) -> TermState {
    let g = s.grid.update(s.row * VGA_WIDTH + s.col, entry_spec(c, s.color));
    if s.col + 1 == VGA_WIDTH {
        if s.row + 1 == VGA_HEIGHT {
            TermState { row: 0, col: 0, color: s.color, grid: g }
        } else {
            TermState { row: s.row + 1, col: 0, color: s.color, grid: g }
        }
    } else {
        TermState { row: s.row, col: s.col + 1, color: s.color, grid: g }
    }
}

/// The effect of writing a whole byte sequence, front to back.
pub open spec fn term_write_spec(s: TermState, bytes: Seq<u8>) -> TermState
    decreases bytes.len(),
{
    if bytes.len() == 0 {
        s
    } else {
        term_write_spec(term_put_spec(s, bytes[0]), bytes.drop_first())
    }
}

/// Writing a sequence and then one more byte is the same as writing the
/// sequence extended by that byte.
pub proof fn lemma_term_write_snoc(s: TermState, bytes: Seq<u8>, c: u8)
    ensures
        term_write_spec(s, bytes.push(c)) == term_put_spec(term_write_spec(s, bytes), c),
    decreases bytes.len(),
{
    if bytes.len() == 0 {
        assert(bytes.push(c)[0] == c);
        assert(bytes.push(c).drop_first() =~= Seq::<u8>::empty());
        assert(term_write_spec(term_put_spec(s, c), Seq::<u8>::empty()) == term_put_spec(s, c));
    } else {
        assert(bytes.push(c)[0] == bytes[0]);
        assert(bytes.push(c).drop_first() =~= bytes.drop_first().push(c));
        lemma_term_write_snoc(term_put_spec(s, bytes[0]), bytes.drop_first(), c);
    }
}

/// The state of a freshly constructed terminal: cursor at the top left and
/// every cell blank in light grey on black.
pub open spec fn init_term_spec() -> TermState {
    TermState {
        row: 0,
        col: 0,
        color: vga_entry_color_spec(VgaColor::LightGrey, VgaColor::Black),
        grid: Seq::new(
            (VGA_HEIGHT * VGA_WIDTH) as nat,
            |i: int|
                entry_spec(
                    crate::vga::SPACE_BYTE,
                    vga_entry_color_spec(VgaColor::LightGrey, VgaColor::Black),
                ),
        ),
    }
}

/// The wrapping terminal writer.
pub struct Terminal {
    row: usize,
    col: usize,
    color: u8,
    buffer: Vec<u16>,
}

impl View for Terminal {
    type V = TermState;

    closed spec fn view(&self) -> TermState {
        TermState {
            row: self.row as int,
            col: self.col as int,
            color: self.color,
            grid: self.buffer@,
        }
    }
}

impl Terminal {
    /// The terminal invariant.
    pub open spec fn wf(self) -> bool {
        term_wf(self@)
    }

    /// Constructs the terminal with the cursor at the top left and the whole
    /// grid cleared to blanks in light grey on black.
    pub fn new() -> (t: Terminal)
        ensures
            t.wf(),
            t@ == init_term_spec(),
    {
        let color = vga_entry_color(VgaColor::LightGrey, VgaColor::Black);
        let blank = vga_entry(crate::vga::SPACE_BYTE, color);
        let mut buffer: Vec<u16> = Vec::new();
        let mut i: usize = 0;
        while i < VGA_HEIGHT * VGA_WIDTH
            invariant
                i <= VGA_HEIGHT * VGA_WIDTH,
                buffer@.len() == i,
                blank == entry_spec(
                    crate::vga::SPACE_BYTE,
                    vga_entry_color_spec(VgaColor::LightGrey, VgaColor::Black),
                ),
                forall|j: int| 0 <= j < i ==> buffer@[j] == blank,
            decreases VGA_HEIGHT * VGA_WIDTH - i,
        {
            buffer.push(blank);
            i = i + 1;
        }
        let t = Terminal { row: 0, col: 0, color, buffer };
        proof {
            assert(t@.grid =~= init_term_spec().grid);
        }
        t
    }

    /// Changes the attribute used by subsequent writes; cells already on the
    /// grid, and the cursor, are untouched.
    pub fn set_color(&mut self, color: u8)
        ensures
            final(self)@ == (TermState { color, ..old(self)@ }),
            old(self).wf() ==> final(self).wf(),
    {
        self.color = color;
    }

    /// Renders one byte in the given attribute at the given grid position,
    /// leaving the cursor and every other cell alone.
    pub fn put_entry_at(&mut self, c: u8, color: u8, x: usize, y: usize)
        requires
            old(self).wf(),
            x < VGA_WIDTH,
            y < VGA_HEIGHT,
        ensures
            final(self).wf(),
            final(self)@ == (TermState {
                grid: old(self)@.grid.update(y * VGA_WIDTH + x, entry_spec(c, color)),
                ..old(self)@
            }),
    {
        let index = y * VGA_WIDTH + x;
        self.buffer[index] = vga_entry(c, color);
    }

    /// Places one byte at the cursor in the current attribute and advances
    /// the cursor, wrapping at the last column and the last row.
    pub fn put_char(&mut self, c: u8)
        requires
            old(self).wf(),
        ensures
            final(self).wf(),
            final(self)@ == term_put_spec(old(self)@, c),
    {
        let color = self.color;
        let col = self.col;
        let row = self.row;
        self.put_entry_at(c, color, col, row);

        self.col = col + 1;
        if self.col == VGA_WIDTH {
            self.col = 0;
            self.row = row + 1;
            if self.row == VGA_HEIGHT {
                self.row = 0;
            }
        }
    }

    /// Writes every byte of the slice in order through `put_char`.
    pub fn write_string(&mut self, s: &[u8])
        requires
            old(self).wf(),
        ensures
            final(self).wf(),
            final(self)@ == term_write_spec(old(self)@, s@),
    {
        let ghost orig = self@;
        let mut i: usize = 0;
        while i < s.len()
            invariant
                i <= s@.len(),
                self.wf(),
                self@ == term_write_spec(orig, s@.take(i as int)),
            decreases s@.len() - i,
        {
            proof {
                lemma_term_write_snoc(orig, s@.take(i as int), s@[i as int]);
                assert(s@.take(i as int).push(s@[i as int]) =~= s@.take(i + 1));
            }
            self.put_char(s[i]);
            i = i + 1;
        }
        proof {
            assert(s@.take(s@.len() as int) =~= s@);
        }
    }

    /// The cursor row.
    pub fn cursor_row(&self) -> (r: usize)
        ensures
            r == self@.row,
    {
        self.row
    }

    /// The cursor column.
    pub fn cursor_col(&self) -> (r: usize)
        ensures
            r == self@.col,
    {
        self.col
    }

    /// The current attribute byte.
    pub fn color(&self) -> (r: u8)
        ensures
            r == self@.color,
    {
        self.color
    }

    /// The cell at the given grid position.
    pub fn char_at(&self, x: usize, y: usize) -> (r: u16)
        requires
            self.wf(),
            x < VGA_WIDTH,
            y < VGA_HEIGHT,
        ensures
            r == self@.grid[y * VGA_WIDTH + x],
    {
        self.buffer[y * VGA_WIDTH + x]
    }
}

} // verus!

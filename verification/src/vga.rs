//! Text-mode console writer: a color-attributed character grid over device
//! memory, with line-buffered writing and automatic scrolling. The cursor
//! always sits on the last row; a newline, or running past the last column,
//! scrolls the whole grid up by one row.

use crate::device::{cell_new, cell_read, cell_value, cell_write};
use volatile::Volatile;
use vstd::prelude::*;
use vstd::string::StringSliceAdditionalSpecFns;

verus! {

/// Number of character rows of the display.
pub const BUFFER_HEIGHT: usize = 25;

/// The byte that forces a scroll instead of rendering a glyph.
pub const NEWLINE_BYTE: u8 = 10;

/// The ASCII space byte used for blank cells.
pub const SPACE_BYTE: u8 = 32;

/// Number of character columns of the display.
pub const BUFFER_WIDTH: usize = 80;

/// The sixteen hardware color indices.
#[derive(Clone, Copy, Debug, PartialEq, Eq, Structural)]
pub enum Color {
    Black,
    Blue,
    Green,
    Cyan,
    Red,
    Magenta,
    Brown,
    LightGray,
    DarkGray,
    LightBlue,
    LightGreen,
    LightCyan,
    LightRed,
    Pink,
    Yellow,
    White,
}

/// The 4-bit hardware code of each color.
pub open spec fn color_code_spec(c: Color) -> u8 {
    match c {
        Color::Black => 0,
        Color::Blue => 1,
        Color::Green => 2,
        Color::Cyan => 3,
        Color::Red => 4,
        Color::Magenta => 5,
        Color::Brown => 6,
        Color::LightGray => 7,
        Color::DarkGray => 8,
        Color::LightBlue => 9,
        Color::LightGreen => 10,
        Color::LightCyan => 11,
        Color::LightRed => 12,
        Color::Pink => 13,
        Color::Yellow => 14,
        Color::White => 15,
    }
}

impl Color {
    /// The 4-bit hardware code of this color.
    pub fn code(self) -> (r: u8)
        ensures
            r == color_code_spec(self),
    {
        match self {
            Color::Black => 0,
            Color::Blue => 1,
            Color::Green => 2,
            Color::Cyan => 3,
            Color::Red => 4,
            Color::Magenta => 5,
            Color::Brown => 6,
            Color::LightGray => 7,
            Color::DarkGray => 8,
            Color::LightBlue => 9,
            Color::LightGreen => 10,
            Color::LightCyan => 11,
            Color::LightRed => 12,
            Color::Pink => 13,
            Color::Yellow => 14,
            Color::White => 15,
        }
    }
}

/// A packed attribute byte: foreground color in the low nibble, background
/// color in the high nibble.
pub open spec fn vga_color_spec(fg: Color, bg: Color) -> u8 {
    (color_code_spec(fg) | color_code_spec(bg) << 4) as u8
}

/// A packed color-attribute byte.
#[derive(Clone, Copy, Debug, PartialEq, Eq, Structural)]
pub struct VgaColor(pub u8);

impl VgaColor {
    /// Packs a foreground and a background color into one attribute byte.
    pub fn new(fg: Color, bg: Color) -> (r: VgaColor)
        ensures
            r.0 == vga_color_spec(fg, bg),
    {
        VgaColor(fg.code() | bg.code() << 4)
    }
}

/// A packed character cell: ASCII byte in the low half, attribute byte in
/// the high half.
pub open spec fn entry_spec(ascii: u8, attr: u8) -> u16 {
    (ascii as u16 | (attr as u16) << 8) as u16
}

/// A blank cell rendered with the given attribute.
pub open spec fn blank_entry(attr: u8) -> u16 {
    entry_spec(SPACE_BYTE, attr)
}

/// The whole observable state of the console: cursor column, current
/// attribute, and the character grid in row-major order.
pub ghost struct ConsoleState {
    pub col: int,
    pub attr: u8,
    pub grid: Seq<u16>,
}

/// The console invariant: the cursor column never passes the width, and the
/// grid always holds exactly one cell per screen position.
pub open spec fn console_wf(s: ConsoleState) -> bool {
    &&& 0 <= s.col <= BUFFER_WIDTH
    &&& s.grid.len() == BUFFER_HEIGHT * BUFFER_WIDTH
}

/// One scroll step: every row moves up by one, the last row is cleared to
/// blanks in the current attribute, and the cursor returns to column 0.
pub open spec fn scroll_spec(s: ConsoleState) -> ConsoleState {
    ConsoleState {
        col: 0,
        attr: s.attr,
        grid: Seq::new(
            (BUFFER_HEIGHT * BUFFER_WIDTH) as nat,
            |i: int|
                if i < (BUFFER_HEIGHT - 1) * BUFFER_WIDTH {
                    s.grid[i + BUFFER_WIDTH]
                } else {
                    blank_entry(s.attr)
                },
        ),
    }
}

/// The effect of writing one byte: a newline scrolls; any other byte first
/// scrolls if the cursor has run past the last column, then lands in the
/// last row at the cursor and advances it. The column check happens before
/// the write, so the cell at the last column is never overwritten without a
/// scroll in between.
pub open spec fn write_byte_spec(s: ConsoleState, byte: u8) -> ConsoleState {
    if byte == NEWLINE_BYTE {
        scroll_spec(s)
    } else {
        let s1 = if s.col >= BUFFER_WIDTH {
            scroll_spec(s)
        } else {
            s
        };
        ConsoleState {
            col: s1.col + 1,
            attr: s1.attr,
            grid: s1.grid.update(
                (BUFFER_HEIGHT - 1) * BUFFER_WIDTH + s1.col,
                entry_spec(byte, s1.attr),
            ),
        }
    }
}

/// The effect of writing a whole byte sequence, front to back.
pub open spec fn write_seq_spec(s: ConsoleState, bytes: Seq<u8>) -> ConsoleState
    decreases bytes.len(),
{
    if bytes.len() == 0 {
        s
    } else {
        write_seq_spec(write_byte_spec(s, bytes[0]), bytes.drop_first())
    }
}

/// Writing one byte preserves the console invariant.
pub proof fn lemma_write_byte_wf(s: ConsoleState, byte: u8)
    requires
        console_wf(s),
    ensures
        console_wf(write_byte_spec(s, byte)),
{
}

/// Writing any byte sequence preserves the console invariant.
pub proof fn lemma_write_seq_wf(s: ConsoleState, bytes: Seq<u8>)
    requires
        console_wf(s),
    ensures
        console_wf(write_seq_spec(s, bytes)),
    decreases bytes.len(),
{
    if bytes.len() > 0 {
        lemma_write_byte_wf(s, bytes[0]);
        lemma_write_seq_wf(write_byte_spec(s, bytes[0]), bytes.drop_first());
    }
}

/// Writing a sequence and then one more byte is the same as writing the
/// sequence extended by that byte.
pub proof fn lemma_write_seq_snoc(s: ConsoleState, bytes: Seq<u8>, byte: u8)
    ensures
        write_seq_spec(s, bytes.push(byte)) == write_byte_spec(write_seq_spec(s, bytes), byte),
    decreases bytes.len(),
{
    if bytes.len() == 0 {
        assert(bytes.push(byte)[0] == byte);
        assert(bytes.push(byte).drop_first() =~= Seq::<u8>::empty());
        assert(write_seq_spec(write_byte_spec(s, byte), Seq::<u8>::empty()) == write_byte_spec(
            s,
            byte,
        ));
    } else {
        assert(bytes.push(byte)[0] == bytes[0]);
        assert(bytes.push(byte).drop_first() =~= bytes.drop_first().push(byte));
        lemma_write_seq_snoc(write_byte_spec(s, bytes[0]), bytes.drop_first(), byte);
    }
}

/// A run of newline bytes.
pub open spec fn newlines(n: nat) -> Seq<u8> {
    Seq::new(n, |i: int| NEWLINE_BYTE)
}

/// Writing a prefix of printable bytes from column 0 fills the last row in
/// order and advances the cursor by one per byte, leaving every other cell
/// untouched.
pub proof fn lemma_row_fill_prefix(s: ConsoleState, bytes: Seq<u8>, k: int)
    requires
        console_wf(s),
        s.col == 0,
        bytes.len() <= BUFFER_WIDTH,
        0 <= k <= bytes.len(),
        forall|i: int| 0 <= i < bytes.len() ==> bytes[i] != NEWLINE_BYTE,
    ensures
        write_seq_spec(s, bytes.take(k)).col == k,
        write_seq_spec(s, bytes.take(k)).attr == s.attr,
        write_seq_spec(s, bytes.take(k)).grid.len() == s.grid.len(),
        forall|c: int|
            0 <= c < k ==> write_seq_spec(s, bytes.take(k)).grid[(BUFFER_HEIGHT - 1) * BUFFER_WIDTH
                + c] == entry_spec(bytes[c], s.attr),
        forall|i: int|
            0 <= i < BUFFER_HEIGHT * BUFFER_WIDTH && !((BUFFER_HEIGHT - 1) * BUFFER_WIDTH <= i
                < (BUFFER_HEIGHT - 1) * BUFFER_WIDTH + k) ==> write_seq_spec(s, bytes.take(k)).grid[i]
                == s.grid[i],
    decreases k,
{
    if k == 0 {
        assert(bytes.take(0) =~= Seq::<u8>::empty());
    } else {
        lemma_row_fill_prefix(s, bytes, k - 1);
        lemma_write_seq_snoc(s, bytes.take(k - 1), bytes[k - 1]);
        assert(bytes.take(k - 1).push(bytes[k - 1]) =~= bytes.take(k));
        let t = write_seq_spec(s, bytes.take(k - 1));
        assert(write_seq_spec(s, bytes.take(k)) == write_byte_spec(t, bytes[k - 1]));
    }
}

/// Console wrap: writing exactly one full row of printable bytes from
/// column 0 fills the last row in storage order and leaves the cursor just
/// past the last column; the next printable byte then scrolls first, so it
/// lands at column 0 of a fresh last row, with the full row moved up by one
/// and still equal to what was written.
pub proof fn lemma_console_wrap(s: ConsoleState, bytes: Seq<u8>, b: u8)
    requires
        console_wf(s),
        s.col == 0,
        bytes.len() == BUFFER_WIDTH,
        forall|i: int| 0 <= i < bytes.len() ==> bytes[i] != NEWLINE_BYTE,
        b != NEWLINE_BYTE,
    ensures
        write_seq_spec(s, bytes).col == BUFFER_WIDTH,
        forall|c: int|
            0 <= c < BUFFER_WIDTH ==> write_seq_spec(s, bytes).grid[(BUFFER_HEIGHT - 1)
                * BUFFER_WIDTH + c] == entry_spec(bytes[c], s.attr),
        write_byte_spec(write_seq_spec(s, bytes), b).col == 1,
        forall|c: int|
            0 <= c < BUFFER_WIDTH ==> write_byte_spec(write_seq_spec(s, bytes), b).grid[(
            BUFFER_HEIGHT - 2) * BUFFER_WIDTH + c] == entry_spec(bytes[c], s.attr),
        write_byte_spec(write_seq_spec(s, bytes), b).grid[(BUFFER_HEIGHT - 1) * BUFFER_WIDTH]
            == entry_spec(b, s.attr),
{
    lemma_row_fill_prefix(s, bytes, BUFFER_WIDTH as int);
    assert(bytes.take(BUFFER_WIDTH as int) =~= bytes);
    let t = write_seq_spec(s, bytes);
    let u = write_byte_spec(t, b);
    assert forall|c: int| 0 <= c < BUFFER_WIDTH implies u.grid[(BUFFER_HEIGHT - 2) * BUFFER_WIDTH
        + c] == entry_spec(bytes[c], s.attr) by {
        assert(scroll_spec(t).grid[(BUFFER_HEIGHT - 2) * BUFFER_WIDTH + c] == t.grid[(BUFFER_HEIGHT
            - 1) * BUFFER_WIDTH + c]);
    };
}

/// The effect of a bounded number of scrolls: the lowest rows are blank in
/// the current attribute and everything above is the original grid shifted
/// up by that many rows.
pub proof fn lemma_scroll_steps(s: ConsoleState, k: int)
    requires
        console_wf(s),
        0 <= k <= BUFFER_HEIGHT,
    ensures
        console_wf(write_seq_spec(s, newlines(k as nat))),
        write_seq_spec(s, newlines(k as nat)).attr == s.attr,
        k > 0 ==> write_seq_spec(s, newlines(k as nat)).col == 0,
        k == 0 ==> write_seq_spec(s, newlines(k as nat)) == s,
        forall|j: int|
            (BUFFER_HEIGHT - k) * BUFFER_WIDTH <= j < BUFFER_HEIGHT * BUFFER_WIDTH ==> #[trigger] write_seq_spec(
                s,
                newlines(k as nat),
            ).grid[j] == blank_entry(s.attr),
        forall|j: int|
            0 <= j < (BUFFER_HEIGHT - k) * BUFFER_WIDTH ==> #[trigger] write_seq_spec(
                s,
                newlines(k as nat),
            ).grid[j] == s.grid[j + k * BUFFER_WIDTH],
    decreases k,
{
    if k == 0 {
        assert(newlines(0) =~= Seq::<u8>::empty());
    } else {
        lemma_scroll_steps(s, k - 1);
        lemma_write_seq_snoc(s, newlines((k - 1) as nat), NEWLINE_BYTE);
        assert(newlines((k - 1) as nat).push(NEWLINE_BYTE) =~= newlines(k as nat));
        let t = write_seq_spec(s, newlines((k - 1) as nat));
        let u = write_seq_spec(s, newlines(k as nat));
        assert(u == scroll_spec(t));
        assert forall|j: int|
            (BUFFER_HEIGHT - k) * BUFFER_WIDTH <= j < BUFFER_HEIGHT * BUFFER_WIDTH implies u.grid[j]
            == blank_entry(s.attr) by {
            if j < (BUFFER_HEIGHT - 1) * BUFFER_WIDTH {
                assert(u.grid[j] == t.grid[j + BUFFER_WIDTH]);
            }
        };
        assert forall|j: int| 0 <= j < (BUFFER_HEIGHT - k) * BUFFER_WIDTH implies u.grid[j]
            == s.grid[j + k * BUFFER_WIDTH] by {
            assert(u.grid[j] == t.grid[j + BUFFER_WIDTH]);
            assert(t.grid[j + BUFFER_WIDTH] == s.grid[j + BUFFER_WIDTH + (k - 1) * BUFFER_WIDTH]);
        };
    }
}

/// Scroll correctness: after writing one newline per screen row, every
/// originally visible cell has scrolled off the grid; what remains is a
/// fully blank grid of unchanged size, with the cursor at column 0.
pub proof fn lemma_console_scroll_off(s: ConsoleState)
    requires
        console_wf(s),
    ensures
        console_wf(write_seq_spec(s, newlines(BUFFER_HEIGHT as nat))),
        write_seq_spec(s, newlines(BUFFER_HEIGHT as nat)).grid.len() == s.grid.len(),
        write_seq_spec(s, newlines(BUFFER_HEIGHT as nat)).col == 0,
        forall|j: int|
            0 <= j < BUFFER_HEIGHT * BUFFER_WIDTH ==> write_seq_spec(
                s,
                newlines(BUFFER_HEIGHT as nat),
            ).grid[j] == blank_entry(s.attr),
{
    lemma_scroll_steps(s, BUFFER_HEIGHT as int);
}

/// The synchronized writer over the device grid. The default attribute is
/// light cyan on black; construction clears the whole grid to blanks in
/// that attribute.
pub struct Writer {
    column_pos: usize,
    color: VgaColor,
    buffer: Vec<Volatile<u16>>,
}

impl View for Writer {
    type V = ConsoleState;

    closed spec fn view(&self) -> ConsoleState {
        ConsoleState {
            col: self.column_pos as int,
            attr: self.color.0,
            grid: self.buffer@.map_values(|c: Volatile<u16>| cell_value(c)),
        }
    }
}

/// The state of a freshly constructed writer: cursor at column 0 and every
/// cell blank in the default attribute.
pub open spec fn init_console_spec() -> ConsoleState {
    ConsoleState {
        col: 0,
        attr: vga_color_spec(Color::LightCyan, Color::Black),
        grid: Seq::new(
            (BUFFER_HEIGHT * BUFFER_WIDTH) as nat,
            |i: int| blank_entry(vga_color_spec(Color::LightCyan, Color::Black)),
        ),
    }
}

impl Writer {
    /// The writer invariant.
    pub open spec fn wf(self) -> bool {
        console_wf(self@)
    }

    /// Constructs the writer with the cursor at column 0 and the whole grid
    /// cleared to blanks in the default attribute.
    pub fn new() -> (w: Writer)
        ensures
            w.wf(),
            w@ == init_console_spec(),
    {
        let color = VgaColor::new(Color::LightCyan, Color::Black);
        let mut buffer: Vec<Volatile<u16>> = Vec::new();
        let blank = vga_entry(SPACE_BYTE, color.0);
        let mut i: usize = 0;
        while i < BUFFER_HEIGHT * BUFFER_WIDTH
            invariant
                i <= BUFFER_HEIGHT * BUFFER_WIDTH,
                buffer@.len() == i,
                blank == blank_entry(vga_color_spec(Color::LightCyan, Color::Black)),
                forall|j: int| 0 <= j < i ==> cell_value(buffer@[j]) == blank,
            decreases BUFFER_HEIGHT * BUFFER_WIDTH - i,
        {
            buffer.push(cell_new(blank));
            i = i + 1;
        }
        let w = Writer { column_pos: 0, color, buffer };
        proof {
            assert(w@.grid =~= init_console_spec().grid);
        }
        w
    }

    /// Changes the attribute used by subsequent writes. Cells already on the
    /// grid, and the cursor, are untouched.
    pub fn change_color(&mut self, fg: Color, bg: Color)
        ensures
            final(self)@ == (ConsoleState { attr: vga_color_spec(fg, bg), ..old(self)@ }),
            old(self).wf() ==> final(self).wf(),
    {
        self.color = VgaColor::new(fg, bg);
    }

    /// Writes one byte at the cursor in the current attribute. A newline
    /// scrolls instead of rendering a glyph; a byte arriving past the last
    /// column scrolls first and then lands at column 0.
    pub fn write_byte(&mut self, byte: u8)
        requires
            old(self).wf(),
        ensures
            final(self).wf(),
            final(self)@ == write_byte_spec(old(self)@, byte),
    {
        if byte == NEWLINE_BYTE {
            self.new_line();
        } else {
            if self.column_pos >= BUFFER_WIDTH {
                self.new_line();
            }
            let row = BUFFER_HEIGHT - 1;
            let col = self.column_pos;
            let entry = vga_entry(byte, self.color.0);
            let ghost before = self@;
            cell_write(&mut self.buffer, row * BUFFER_WIDTH + col, entry);
            self.column_pos = col + 1;
            proof {
                assert(self@.grid =~= before.grid.update(
                    (BUFFER_HEIGHT - 1) * BUFFER_WIDTH + before.col,
                    entry_spec(byte, before.attr),
                ));
            }
        }
    }

    /// Scrolls: copies row `i` into row `i - 1` for every row and column,
    /// clears the last row to blanks in the current attribute, and resets
    /// the cursor to column 0.
    fn new_line(&mut self)
        requires
            old(self).wf(),
        ensures
            final(self).wf(),
            final(self)@ == scroll_spec(old(self)@),
    {
        let ghost orig = self@;
        let mut row: usize = 1;
        while row < BUFFER_HEIGHT
            invariant
                1 <= row <= BUFFER_HEIGHT,
                self@.attr == orig.attr,
                self@.col == orig.col,
                console_wf(orig),
                console_wf(self@),
                forall|i: int|
                    0 <= i < (row - 1) * BUFFER_WIDTH ==> self@.grid[i] == orig.grid[
                        i + BUFFER_WIDTH
                    ],
                forall|i: int|
                    (row - 1) * BUFFER_WIDTH <= i < BUFFER_HEIGHT * BUFFER_WIDTH ==> self@.grid[i]
                        == orig.grid[i],
            decreases BUFFER_HEIGHT - row,
        {
            let mut col: usize = 0;
            while col < BUFFER_WIDTH
                invariant
                    1 <= row < BUFFER_HEIGHT,
                    col <= BUFFER_WIDTH,
                    self@.attr == orig.attr,
                    self@.col == orig.col,
                    console_wf(orig),
                    console_wf(self@),
                    forall|i: int|
                        0 <= i < (row - 1) * BUFFER_WIDTH + col ==> self@.grid[i] == orig.grid[
                            i + BUFFER_WIDTH
                        ],
                    forall|i: int|
                        (row - 1) * BUFFER_WIDTH + col <= i < BUFFER_HEIGHT * BUFFER_WIDTH
                            ==> self@.grid[i] == orig.grid[i],
                decreases BUFFER_WIDTH - col,
            {
                let data = cell_read(&self.buffer, row * BUFFER_WIDTH + col);
                let ghost mid = self@;
                proof {
                    assert(data == mid.grid[row * BUFFER_WIDTH + col]);
                    assert(mid.grid[row * BUFFER_WIDTH + col] == orig.grid[row * BUFFER_WIDTH
                        + col]);
                }
                cell_write(&mut self.buffer, (row - 1) * BUFFER_WIDTH + col, data);
                proof {
                    assert(forall|i: int|
                        0 <= i < BUFFER_HEIGHT * BUFFER_WIDTH && i != (row - 1) * BUFFER_WIDTH
                            + col ==> self@.grid[i] == mid.grid[i]);
                    assert(self@.grid[(row - 1) * BUFFER_WIDTH + col] == data);
                    assert forall|i: int| 0 <= i < (row - 1) * BUFFER_WIDTH + col + 1 implies self@.grid[i]
                        == orig.grid[i + BUFFER_WIDTH] by {
                        if i < (row - 1) * BUFFER_WIDTH + col {
                            assert(self@.grid[i] == mid.grid[i]);
                        } else {
                            assert(i == (row - 1) * BUFFER_WIDTH + col);
                            assert(i + BUFFER_WIDTH == row * BUFFER_WIDTH + col);
                        }
                    };
                    assert forall|i: int|
                        (row - 1) * BUFFER_WIDTH + col + 1 <= i < BUFFER_HEIGHT
                            * BUFFER_WIDTH implies self@.grid[i] == orig.grid[i] by {
                        assert(self@.grid[i] == mid.grid[i]);
                    };
                }
                col = col + 1;
            }
            row = row + 1;
        }
        self.clear_row(BUFFER_HEIGHT - 1);
        self.column_pos = 0;
        proof {
            assert(self@.grid =~= scroll_spec(orig).grid);
        }
    }

    /// Clears one row to blank cells in the current attribute.
    fn clear_row(&mut self, row: usize)
        requires
            old(self).wf(),
            row < BUFFER_HEIGHT,
        ensures
            final(self).wf(),
            final(self)@.col == old(self)@.col,
            final(self)@.attr == old(self)@.attr,
            forall|i: int|
                row * BUFFER_WIDTH <= i < row * BUFFER_WIDTH + BUFFER_WIDTH ==> final(self)@.grid[i]
                    == blank_entry(old(self)@.attr),
            forall|i: int|
                0 <= i < BUFFER_HEIGHT * BUFFER_WIDTH && !(row * BUFFER_WIDTH <= i < row
                    * BUFFER_WIDTH + BUFFER_WIDTH) ==> final(self)@.grid[i] == old(self)@.grid[i],
    {
        let ghost orig = self@;
        let empty_char = vga_entry(SPACE_BYTE, self.color.0);
        let mut col: usize = 0;
        while col < BUFFER_WIDTH
            invariant
                col <= BUFFER_WIDTH,
                row < BUFFER_HEIGHT,
                self@.attr == orig.attr,
                self@.col == orig.col,
                console_wf(orig),
                console_wf(self@),
                empty_char == blank_entry(orig.attr),
                forall|i: int|
                    row * BUFFER_WIDTH <= i < row * BUFFER_WIDTH + col ==> self@.grid[i]
                        == blank_entry(orig.attr),
                forall|i: int|
                    0 <= i < BUFFER_HEIGHT * BUFFER_WIDTH && !(row * BUFFER_WIDTH <= i < row
                        * BUFFER_WIDTH + col) ==> self@.grid[i] == orig.grid[i],
            decreases BUFFER_WIDTH - col,
        {
            let ghost mid = self@;
            cell_write(&mut self.buffer, row * BUFFER_WIDTH + col, empty_char);
            proof {
                assert(forall|i: int|
                    0 <= i < BUFFER_HEIGHT * BUFFER_WIDTH && i != row * BUFFER_WIDTH + col
                        ==> self@.grid[i] == mid.grid[i]);
                assert(self@.grid[row * BUFFER_WIDTH + col] == blank_entry(orig.attr));
                assert forall|i: int| row * BUFFER_WIDTH <= i < row * BUFFER_WIDTH + col
                    + 1 implies self@.grid[i] == blank_entry(orig.attr) by {
                    if i < row * BUFFER_WIDTH + col {
                        assert(self@.grid[i] == mid.grid[i]);
                    }
                };
                assert forall|i: int|
                    0 <= i < BUFFER_HEIGHT * BUFFER_WIDTH && !(row * BUFFER_WIDTH <= i < row
                        * BUFFER_WIDTH + col + 1) implies self@.grid[i] == orig.grid[i] by {
                    assert(self@.grid[i] == mid.grid[i]);
                };
            }
            col = col + 1;
        }
    }

    /// Writes every byte of the string in order through `write_byte`. Bytes
    /// are passed through as-is: this layer neither rejects nor transforms
    /// anything outside the renderable set.
    pub fn write_string(&mut self, s: &str)
        requires
            old(self).wf(),
        ensures
            final(self).wf(),
            final(self)@ == write_seq_spec(old(self)@, s.spec_bytes()),
    {
        let bytes = s.as_bytes();
        let ghost orig = self@;
        let mut i: usize = 0;
        while i < bytes.len()
            invariant
                i <= bytes@.len(),
                console_wf(self@),
                bytes@ == s.spec_bytes(),
                self@ == write_seq_spec(orig, bytes@.take(i as int)),
                console_wf(orig),
            decreases bytes@.len() - i,
        {
            proof {
                lemma_write_seq_wf(orig, bytes@.take(i as int));
                lemma_write_seq_snoc(orig, bytes@.take(i as int), bytes@[i as int]);
                assert(bytes@.take(i as int).push(bytes@[i as int]) =~= bytes@.take(i + 1));
            }
            self.write_byte(bytes[i]);
            i = i + 1;
        }
        proof {
            assert(bytes@.take(bytes@.len() as int) =~= bytes@);
        }
    }

    /// The cursor column.
    pub fn column(&self) -> (r: usize)
        ensures
            r == self@.col,
    {
        self.column_pos
    }

    /// The current attribute byte.
    pub fn attribute(&self) -> (r: u8)
        ensures
            r == self@.attr,
    {
        self.color.0
    }

    /// The cell at the given row and column of the grid.
    pub fn char_at(&self, row: usize, col: usize) -> (r: u16)
        requires
            self.wf(),
            row < BUFFER_HEIGHT,
            col < BUFFER_WIDTH,
        ensures
            r == self@.grid[row * BUFFER_WIDTH + col],
    {
        cell_read(&self.buffer, row * BUFFER_WIDTH + col)
    }
}

/// Packs an ASCII byte and an attribute byte into one character cell.
pub fn vga_entry(uc: u8, color: u8) -> (r: u16)
    ensures
        r == entry_spec(uc, color),
{
    uc as u16 | (color as u16) << 8
}

} // verus!

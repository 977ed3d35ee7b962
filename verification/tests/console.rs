use axiom_os::vga::{vga_entry, Color, VgaColor, Writer, BUFFER_HEIGHT, BUFFER_WIDTH};

fn ascii_of(cell: u16) -> u8 {
    (cell & 0xff) as u8
}

fn attr_of(cell: u16) -> u8 {
    (cell >> 8) as u8
}

#[test]
fn fresh_writer_is_blank() {
    let w = Writer::new();
    assert_eq!(w.column(), 0);
    assert_eq!(w.attribute(), VgaColor::new(Color::LightCyan, Color::Black).0);
    for row in 0..BUFFER_HEIGHT {
        for col in 0..BUFFER_WIDTH {
            assert_eq!(w.char_at(row, col), vga_entry(b' ', w.attribute()));
        }
    }
}

#[test]
fn packed_attribute_values() {
    assert_eq!(VgaColor::new(Color::LightCyan, Color::Black).0, 11);
    assert_eq!(VgaColor::new(Color::White, Color::Blue).0, 15 | 1 << 4);
    assert_eq!(vga_entry(b'A', 7), 0x0741);
}

#[test]
fn wrap_after_full_row() {
    let mut w = Writer::new();
    let attr = w.attribute();
    let full: String = "x".repeat(BUFFER_WIDTH);
    w.write_string(&full);
    // the column check happens before the write: the cursor sits past the
    // last column, nothing has scrolled yet
    assert_eq!(w.column(), BUFFER_WIDTH);
    for col in 0..BUFFER_WIDTH {
        assert_eq!(w.char_at(BUFFER_HEIGHT - 1, col), vga_entry(b'x', attr));
    }
    // the next printable byte scrolls first, then lands at column 0
    w.write_byte(b'y');
    assert_eq!(w.column(), 1);
    for col in 0..BUFFER_WIDTH {
        assert_eq!(w.char_at(BUFFER_HEIGHT - 2, col), vga_entry(b'x', attr));
    }
    assert_eq!(w.char_at(BUFFER_HEIGHT - 1, 0), vga_entry(b'y', attr));
    assert_eq!(w.char_at(BUFFER_HEIGHT - 1, 1), vga_entry(b' ', attr));
}

#[test]
fn newline_scrolls_rows_up() {
    let mut w = Writer::new();
    let attr = w.attribute();
    w.write_string("ab\ncd");
    assert_eq!(w.column(), 2);
    assert_eq!(w.char_at(BUFFER_HEIGHT - 2, 0), vga_entry(b'a', attr));
    assert_eq!(w.char_at(BUFFER_HEIGHT - 2, 1), vga_entry(b'b', attr));
    assert_eq!(w.char_at(BUFFER_HEIGHT - 1, 0), vga_entry(b'c', attr));
    assert_eq!(w.char_at(BUFFER_HEIGHT - 1, 1), vga_entry(b'd', attr));
}

#[test]
fn height_newlines_scroll_everything_off() {
    let mut w = Writer::new();
    let attr = w.attribute();
    w.write_string("the topmost row");
    let newlines: String = "\n".repeat(BUFFER_HEIGHT);
    w.write_string(&newlines);
    assert_eq!(w.column(), 0);
    for row in 0..BUFFER_HEIGHT {
        for col in 0..BUFFER_WIDTH {
            assert_eq!(w.char_at(row, col), vga_entry(b' ', attr));
        }
    }
}

#[test]
fn attribute_persistence() {
    let mut w = Writer::new();
    let old_attr = w.attribute();
    w.write_byte(b'A');
    w.change_color(Color::Red, Color::White);
    let new_attr = w.attribute();
    assert_ne!(old_attr, new_attr);
    w.write_byte(b'B');
    // the earlier cell keeps its attribute; only the later one has the new
    let first = w.char_at(BUFFER_HEIGHT - 1, 0);
    let second = w.char_at(BUFFER_HEIGHT - 1, 1);
    assert_eq!(ascii_of(first), b'A');
    assert_eq!(attr_of(first), old_attr);
    assert_eq!(ascii_of(second), b'B');
    assert_eq!(attr_of(second), new_attr);
}

#[test]
fn change_color_does_not_repaint() {
    let mut w = Writer::new();
    let old_attr = w.attribute();
    w.write_string("keep");
    w.change_color(Color::Yellow, Color::Blue);
    for col in 0..4 {
        assert_eq!(attr_of(w.char_at(BUFFER_HEIGHT - 1, col)), old_attr);
    }
    assert_eq!(w.column(), 4);
}

#[test]
fn bytes_pass_through_unchanged() {
    let mut w = Writer::new();
    let attr = w.attribute();
    // a byte outside the printable ASCII range is rendered as-is
    w.write_byte(0xfe);
    assert_eq!(w.char_at(BUFFER_HEIGHT - 1, 0), vga_entry(0xfe, attr));
}

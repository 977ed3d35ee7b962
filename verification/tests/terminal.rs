use axiom_os::kernel::{vga_entry, vga_entry_color, Terminal, VgaColor, VGA_HEIGHT, VGA_WIDTH};

#[test]
fn entry_color_packs_nibbles() {
    assert_eq!(vga_entry_color(VgaColor::LightGrey, VgaColor::Black), 7);
    assert_eq!(vga_entry_color(VgaColor::White, VgaColor::Blue), 15 | 1 << 4);
    assert_eq!(vga_entry_color(VgaColor::Black, VgaColor::White), 15 << 4);
}

#[test]
fn entry_packs_byte_and_attribute() {
    assert_eq!(vga_entry(b'A', 7), 0x0741);
    assert_eq!(vga_entry(0, 0), 0);
    assert_eq!(vga_entry(0xff, 0xff), 0xffff);
}

#[test]
fn fresh_terminal_is_blank() {
    let t = Terminal::new();
    assert_eq!(t.cursor_row(), 0);
    assert_eq!(t.cursor_col(), 0);
    let attr = vga_entry_color(VgaColor::LightGrey, VgaColor::Black);
    assert_eq!(t.color(), attr);
    for y in 0..VGA_HEIGHT {
        for x in 0..VGA_WIDTH {
            assert_eq!(t.char_at(x, y), vga_entry(b' ', attr));
        }
    }
}

#[test]
fn write_string_places_cells() {
    let mut t = Terminal::new();
    let attr = t.color();
    t.write_string(b"hi");
    assert_eq!(t.char_at(0, 0), vga_entry(b'h', attr));
    assert_eq!(t.char_at(1, 0), vga_entry(b'i', attr));
    assert_eq!(t.cursor_col(), 2);
    assert_eq!(t.cursor_row(), 0);
}

#[test]
fn cursor_wraps_to_next_row() {
    let mut t = Terminal::new();
    let row: Vec<u8> = vec![b'z'; VGA_WIDTH];
    t.write_string(&row);
    assert_eq!(t.cursor_row(), 1);
    assert_eq!(t.cursor_col(), 0);
    let attr = t.color();
    assert_eq!(t.char_at(VGA_WIDTH - 1, 0), vga_entry(b'z', attr));
}

#[test]
fn cursor_wraps_around_whole_grid() {
    let mut t = Terminal::new();
    let screen: Vec<u8> = vec![b'.'; VGA_WIDTH * VGA_HEIGHT];
    t.write_string(&screen);
    assert_eq!(t.cursor_row(), 0);
    assert_eq!(t.cursor_col(), 0);
}

#[test]
fn set_color_affects_later_cells_only() {
    let mut t = Terminal::new();
    let old = t.color();
    t.write_string(b"a");
    let new = vga_entry_color(VgaColor::Red, VgaColor::Black);
    t.set_color(new);
    t.write_string(b"b");
    assert_eq!(t.char_at(0, 0), vga_entry(b'a', old));
    assert_eq!(t.char_at(1, 0), vga_entry(b'b', new));
}

#[test]
fn put_entry_at_leaves_cursor_alone() {
    let mut t = Terminal::new();
    t.put_entry_at(b'Q', 7, 5, 3);
    assert_eq!(t.char_at(5, 3), vga_entry(b'Q', 7));
    assert_eq!(t.cursor_row(), 0);
    assert_eq!(t.cursor_col(), 0);
}

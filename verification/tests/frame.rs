use chip8::display::Display;
use chip8::ram::Ram;

#[test]
fn ram_font_written_at_construction() {
    let ram = Ram::new();
    assert_eq!(ram.read_byte(0), 0xF0);
    assert_eq!(ram.read_byte(4), 0xF0);
    assert_eq!(ram.read_byte(5), 0x20);
    assert_eq!(ram.read_byte(79), 0x80);
    assert_eq!(ram.read_byte(80), 0x00);
    assert_eq!(ram.read_byte(4095), 0x00);
}

#[test]
fn ram_write_then_read_back() {
    let mut ram = Ram::new();
    ram.write(0x300, 0x42);
    assert_eq!(ram.read_byte(0x300), 0x42);
    assert_eq!(ram.read_byte(0x301), 0x00);
}

#[test]
fn ram_halfword_is_big_endian() {
    let mut ram = Ram::new();
    ram.write(0x200, 0xAB);
    ram.write(0x201, 0xCD);
    assert_eq!(ram.read_halfword(0x200), 0xABCD);
}

#[test]
fn display_starts_blank() {
    let d = Display::new(64, 32);
    assert_eq!(d.get_width(), 64);
    assert_eq!(d.get_height(), 32);
    let s = d.get_screen();
    assert_eq!(s.len(), 64 * 32);
    assert!(s.iter().all(|&c| c == 0));
}

#[test]
fn clear_zeroes_every_cell() {
    let mut d = Display::new(64, 32);
    d.draw(3, 5, 0xFF);
    d.draw(60, 31, 0xA5);
    d.clear();
    assert!(d.get_screen().iter().all(|&c| c == 0));
}

#[test]
fn draw_sets_bits_most_significant_first() {
    let mut d = Display::new(64, 32);
    let unset = d.draw(8, 2, 0xA0);
    assert!(!unset);
    let s = d.get_screen();
    assert_eq!(s[2 * 64 + 8], 1);
    assert_eq!(s[2 * 64 + 9], 0);
    assert_eq!(s[2 * 64 + 10], 1);
    assert_eq!(s[2 * 64 + 11], 0);
}

#[test]
fn draw_twice_restores_cells_and_reports_unset() {
    let mut d = Display::new(64, 32);
    let first = d.draw(10, 4, 0xA5);
    assert!(!first);
    let second = d.draw(10, 4, 0xA5);
    assert!(second);
    assert!(d.get_screen().iter().all(|&c| c == 0));
}

#[test]
fn draw_of_zero_byte_never_reports_unset() {
    let mut d = Display::new(64, 32);
    assert!(!d.draw(0, 0, 0x00));
    assert!(!d.draw(0, 0, 0x00));
}

#[test]
fn draw_wraps_at_right_edge() {
    let mut d = Display::new(64, 32);
    d.draw(63, 0, 0xC0);
    let s = d.get_screen();
    assert_eq!(s[63], 1);
    assert_eq!(s[0], 1);
    assert_eq!(s[1], 0);
}

#[test]
fn draw_wraps_rows() {
    let mut d = Display::new(64, 32);
    d.draw(0, 32, 0x80);
    assert_eq!(d.get_screen()[0], 1);
}

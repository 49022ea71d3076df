use kernel::drivers::video::console::vga_console::color::Color;
use kernel::drivers::video::console::vga_console::color::ColorCode;

#[test]
fn colorcode() {
    let ColorCode(val) = ColorCode::new(Color::Blue, Color::Magenta);
    assert_eq!(val, 0x51);
    let ColorCode(val) = ColorCode::new(Color::Yellow, Color::Red);
    assert_eq!(val, 0x4E);
}

#[test]
fn color_colorcode() {
    let ColorCode(val) = ColorCode::new(Color::Blue, Color::Pink);
    assert_eq!(val, 0xD1);
    let ColorCode(val) = ColorCode::new(Color::Yellow, Color::Red);
    assert_eq!(val, 0x4E);
    let ColorCode(val) = ColorCode::new(Color::DarkGray, Color::White);
    assert_eq!(val, 0xF8);
}

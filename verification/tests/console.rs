use kernel::drivers::pic::master;
use kernel::drivers::pic::slave;
use kernel::drivers::pic::Pic;
use kernel::drivers::pic::PortWrite;
use kernel::drivers::video::console::vga_console::color::Color;
use kernel::drivers::video::console::vga_console::color::ColorCode;
use kernel::drivers::video::console::vga_console::Buffer;
use kernel::drivers::video::console::vga_console::ScreenChar;
use kernel::drivers::video::console::vga_console::VgaConsole;

/// The first bytes of the screen's memory: for each cell the character, then the colours.
fn bytes_of(console: &VgaConsole, cells: usize) -> Vec<u8> {
    let mut bytes = Vec::new();
    for cell in 0..cells {
        let character = console.buffer().char_at(cell / 80, cell % 80);
        bytes.push(character.ascii_character);
        bytes.push(character.color_code.0);
    }
    bytes
}

#[test]
fn writing_character_works() {
    let mut vga_console = VgaConsole::new(Buffer::new());
    vga_console.write_byte(b'a');
    let vga_mem = bytes_of(&vga_console, 1);
    assert_eq!(vga_mem[0], b'a');
}

#[test]
fn writing_str_works() {
    let mem_after_writing: [u8; 6] = [b'a', 0x02, b'l', 0x02, b'a', 0x02];
    let mut vga_console = VgaConsole::new(Buffer::new());
    vga_console.set_color_code(ColorCode::new(Color::Green, Color::Black));
    vga_console.write_str("ala");
    let vga_mem = bytes_of(&vga_console, 3);
    assert_eq!(&vga_mem[0..6], &mem_after_writing[0..6]);
}

#[test]
fn line_feed_starts_a_new_row() {
    let mut console = VgaConsole::new(Buffer::new());
    console.write_str("ab\ncd");
    assert_eq!(console.buffer().char_at(0, 1).ascii_character, b'b');
    assert_eq!(console.buffer().char_at(0, 2).ascii_character, 0);
    assert_eq!(console.buffer().char_at(1, 0).ascii_character, b'c');
    assert_eq!(console.buffer().char_at(1, 1).ascii_character, b'd');
    assert_eq!(console.position(), 82);
}

#[test]
fn full_screen_moves_up_by_a_row() {
    let mut console = VgaConsole::new(Buffer::new());
    console.set_color_code(ColorCode::new(Color::White, Color::Blue));
    for row in 0..25u8 {
        console.write_byte(b'A' + row);
        if row < 24 {
            console.write_byte(b'\n');
        }
    }
    assert_eq!(console.buffer().char_at(0, 0).ascii_character, b'A');
    assert_eq!(console.buffer().char_at(24, 0).ascii_character, b'Y');
    assert_eq!(console.position(), 24 * 80 + 1);
    console.write_byte(b'\n');
    // every row has moved up, the last is blank, and the position is at its start
    assert_eq!(console.buffer().char_at(0, 0).ascii_character, b'B');
    assert_eq!(console.buffer().char_at(0, 0).color_code, ColorCode(0x1f));
    assert_eq!(console.buffer().char_at(23, 0).ascii_character, b'Y');
    assert_eq!(
        console.buffer().char_at(24, 0),
        ScreenChar { ascii_character: b' ', color_code: ColorCode(0) }
    );
    assert_eq!(
        console.buffer().char_at(24, 79),
        ScreenChar { ascii_character: b' ', color_code: ColorCode(0) }
    );
    assert_eq!(console.position(), 24 * 80);
}

#[test]
fn last_cell_of_the_screen_scrolls() {
    let mut console = VgaConsole::new(Buffer::new());
    for _ in 0..24 {
        console.write_byte(b'\n');
    }
    for _ in 0..79 {
        console.write_byte(b'x');
    }
    assert_eq!(console.position(), 1999);
    console.write_byte(b'y');
    assert_eq!(console.position(), 1920);
    assert_eq!(console.buffer().char_at(23, 0).ascii_character, b'x');
    assert_eq!(console.buffer().char_at(23, 79).ascii_character, b'y');
    assert_eq!(console.buffer().char_at(24, 0).ascii_character, b' ');
}

#[test]
fn clear_screen_blanks_every_cell() {
    let mut console = VgaConsole::new(Buffer::new());
    console.write_str("hello\nworld");
    console.clear_screen();
    assert_eq!(console.position(), 0);
    for row in 0..25 {
        for column in 0..80 {
            assert_eq!(
                console.buffer().char_at(row, column),
                ScreenChar { ascii_character: b' ', color_code: ColorCode(0) }
            );
        }
    }
}

#[test]
fn interrupt_controller_masks() {
    let pic = master();
    assert_eq!(pic, Pic::new(0x20, 0x21));
    assert_eq!(slave(), Pic { command_port: 0xA0, data_port: 0xA1 });
    assert_eq!(pic.enable_irq(0xff, 1), PortWrite { port: 0x21, value: 0xfd });
    assert_eq!(pic.enable_irq(0xff, 9), PortWrite { port: 0x21, value: 0xfd });
    assert_eq!(pic.disable_irq(0x00, 3), PortWrite { port: 0x21, value: 0x08 });
    assert_eq!(pic.disable_irq(0x01, 15), PortWrite { port: 0x21, value: 0x81 });
    assert_eq!(pic.send_eoi(), PortWrite { port: 0x20, value: 0x20 });
}

#[test]
fn interrupt_controller_set_up() {
    assert_eq!(
        master().init(0x20, true, 0xfb),
        vec![
            PortWrite { port: 0x20, value: 0x11 },
            PortWrite { port: 0x21, value: 0x20 },
            PortWrite { port: 0x21, value: 4 },
            PortWrite { port: 0x21, value: 0x01 },
            PortWrite { port: 0x21, value: 0xfb },
        ]
    );
    assert_eq!(slave().init(0x28, false, 0xff)[2], PortWrite { port: 0xA1, value: 2 });
}

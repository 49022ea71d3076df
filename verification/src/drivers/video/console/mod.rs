pub mod vga_console;

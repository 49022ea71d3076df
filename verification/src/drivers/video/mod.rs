pub mod console;

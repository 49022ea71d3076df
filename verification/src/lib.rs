pub mod drivers;
pub mod memory;

pub mod pic;
pub mod video;

pub mod encoding;
pub mod time;

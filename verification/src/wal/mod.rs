pub mod format;
pub mod reader;

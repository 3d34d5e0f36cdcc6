pub mod file;
pub mod markdown;
pub mod parse;
pub mod rust;

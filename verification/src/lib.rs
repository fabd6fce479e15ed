pub mod parse;
pub mod structs;
pub mod esm;
pub mod traits;

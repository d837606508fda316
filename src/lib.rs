pub mod list;
pub mod print;
mod text;
pub mod tree;

pub mod group;
pub mod parse;
pub mod render;
pub mod session;
pub mod text;


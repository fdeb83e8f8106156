//! A static site generator's templating core: front matter, control blocks,
//! substitutions and rendering, with their specifications.
pub mod text;
pub mod string_map;
pub mod node;
pub mod parse;
pub mod render;
pub mod site;
pub mod laws;

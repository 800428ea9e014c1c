//! Moving markdown files while keeping every relative link pointing at the
//! same target: link discovery, path arithmetic and link rewriting.

pub mod text;
pub mod path;
pub mod parser;
pub mod refactor;
pub mod ops;

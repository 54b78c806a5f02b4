//! Verified core of a JSON library: parsing, printing,
//! a node store with a checked model, DOM editing and RFC 6901/6902/7396 utilities.
pub mod types;
pub mod minify;
pub mod string;
pub mod store;
pub mod tree;
pub mod number;
pub mod parse;
pub mod print;
pub mod dom;
pub mod compare;
pub mod pointer;
pub mod utils;
pub mod dup;
pub mod members;
pub mod patch;
pub mod replace;
pub mod arrays;
pub mod laws;
pub mod equal;
pub mod surgery;
pub mod apply;
pub mod diff;
pub mod merge;

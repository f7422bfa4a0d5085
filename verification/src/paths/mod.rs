//! Paths: which texts name one file, in which order they stand, and sets and lists of them.
//!
//! A path is a text, and is known by its steps: two spellings of one path, such as `a//b` and `a/b`,
//! name one file.
pub mod lists;
pub mod sets;
pub mod steps;

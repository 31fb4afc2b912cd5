//! Comparison of two directory trees: byte-exact file comparison, a
//! pass-or-fail comparison of two subtrees, and a sorted merge of two
//! directory listings that classifies every child name.
//!
//! The library decides; it never touches the file system. Listings and file
//! reads are handed in as plain values, and wherever a decision needs more
//! input the functions say so in their result.

pub mod directories;
pub mod files;
pub mod render;

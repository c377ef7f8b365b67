//! A library that models a directory subtree as an in-memory tree, renders
//! the tree as a chain-compressed diagram, and formats per-file content
//! dumps with line numbers. Filesystem walking and output writing are left
//! to the caller; the library works on plain byte strings.

pub mod bytebuf;
pub mod filetree;
pub mod order;
pub mod output;
pub mod render;

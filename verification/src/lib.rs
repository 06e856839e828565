//! Process-tree construction, command-line parsing, battery decoding and the
//! rules of a terminal system monitor, with their contracts proved by Verus.
pub mod application;
pub mod config;
pub mod domain;
pub mod infrastructure;
pub mod text;

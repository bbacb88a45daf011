//! Verified core of a small terminal multiplexer that watches the traffic
//! between a user and an interactive program running in a pseudo-terminal.
//!
//! The library holds what the multiplexer decides and computes: the
//! rolling capture buffers, the parsing of `ps` listings and of process
//! trees, line-ending normalisation, the configuration table and the
//! trigger matching.  Reading and writing file descriptors, running
//! commands and driving the Lua interpreter are left to the program that
//! uses it.

pub mod buffer;
pub mod text;
pub mod utilities;
pub mod process_tree;
pub mod config;
pub mod pattern;
pub mod session;

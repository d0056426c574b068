//! The logic of the interactive shell: splitting input into statements, drawing
//! tables, meta-commands, and what to do next.

pub mod laws;
pub mod meta;
pub mod repl;
pub mod split;
pub mod table;

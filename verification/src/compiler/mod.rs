//! The bytecode compiler: lowers a resolved plan to a program.

pub mod bytecode;
pub mod compiler;
pub mod constants;
pub mod machine;
pub mod operands;
pub mod schema;

//! A tiny embeddable vector database: a flat vector index, a metadata index, a
//! tuple store, a catalog, a V-SQL lexer and compiler, and the logic of the
//! interactive shell.
//!
//! Everything here computes on values in memory. Files, threads, terminals and
//! floating-point arithmetic belong to the program around this library. A float
//! crosses the boundary as its IEEE 754 bit pattern.

pub mod bitmap;
pub mod checksum;
pub mod codec;
pub mod compiler;
pub mod editor;
pub mod engine;
pub mod error;
pub mod float;
pub mod index;
pub mod lexer;
pub mod messages;
pub mod metadata;
pub mod number;
pub mod platform;
pub mod query;
pub mod ranking;
pub mod shell;
pub mod simd;
pub mod spelling;
pub mod sql;
pub mod text;

//! The metadata layer: the metadata index answers which ordinals have a value,
//! the tuple store answers which values an ordinal has. Both speak the plain
//! types of [`common`].

pub mod common;
pub mod index;
pub mod laws;
pub mod live;
pub mod postings;
pub mod tuples;

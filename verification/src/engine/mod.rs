//! The engine: what a write logs, how a logged record reaches the three stores of
//! its collection, what the catalog holds, and up to where the log may be cut.
//!
//! Every mutation is a [`record::Record`]. It is checked and given its position
//! before it is logged; applying it is idempotent, so recovery may apply a record
//! that some store has seen already. A watermark never claims a record that was
//! not applied.

pub mod applier;
pub mod catalog;
pub mod checkpoint;
pub mod cursor;
pub mod db;
pub mod record;
pub mod recovery;
pub mod stores;

//! What the shell knows of the platform.

pub mod signal;

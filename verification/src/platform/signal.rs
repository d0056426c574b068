//! Ctrl-C as a flag instead of a death.
//!
//! The signal handler raises the flag; the program looks at it where it can react.

use vstd::prelude::*;

verus! {

/// Whether an interrupt is pending.
#[derive(Debug, Clone, Copy, PartialEq, Eq, Structural)]
pub struct Flag {
    /// An interrupt arrived and was not taken.
    pub pending: bool,
}

/// An interrupt arrived.
pub fn raise(flag: &mut Flag)
    ensures
        final(flag).pending,
{
    flag.pending = true;
}

/// Whether an interrupt is pending. It is consumed: two callers never see the same
/// one.
pub fn take(flag: &mut Flag) -> (pending: bool)
    ensures
        pending == old(flag).pending,
        !final(flag).pending,
{
    let pending: bool = flag.pending;
    flag.pending = false;
    pending
}

/// Forgets a pending interrupt.
pub fn clear(flag: &mut Flag)
    ensures
        !final(flag).pending,
{
    flag.pending = false;
}

} // verus!

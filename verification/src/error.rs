//! What can go wrong before any byte is written.

use vstd::prelude::*;

verus! {

/// The run was set up with values that cannot work.
#[derive(Clone, Copy, Debug, PartialEq, Eq, Structural)]
pub enum ConfigurationError {
    /// The worker count is zero.
    NoWorkers,
    /// The memory budget leaves less than one byte for each worker.
    BudgetTooSmall,
    /// The memory budget, counted in bytes, does not fit in 64 bits.
    BudgetOverflow,
    /// The read-ahead window cannot hold a whole record with its terminator.
    ReadAheadTooSmall,
}

/// A record of the input does not have the layout that was agreed on.
#[derive(Clone, Copy, Debug, PartialEq, Eq, Structural)]
pub enum InputError {
    /// The record that starts at `offset` ends before the layout's width.
    UndersizedRecord { offset: usize },
    /// The record that starts at `offset` goes on beyond the layout's width.
    MalformedRecord { offset: usize },
}

/// No terminator lies within the read-ahead window that begins at `offset`.
#[derive(Clone, Copy, Debug, PartialEq, Eq, Structural)]
pub struct BoundaryError {
    pub offset: u64,
}

} // verus!

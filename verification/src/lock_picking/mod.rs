pub mod basic;

use vstd::prelude::*;

verus! {

/// The kinds of lock a door can have.
#[derive(Clone, Copy, Debug, PartialEq, Eq, Structural)]
pub enum LockKind {
    Basic,
}

/// The data a lock hands to a lock-picking script.
pub type LockData<'a> = &'a str;

} // verus!

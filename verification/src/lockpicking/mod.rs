use vstd::prelude::*;

verus! {

/// The kinds of lock pick the player can use.
#[derive(Clone, Copy, Debug, PartialEq, Eq, Structural)]
pub enum LockPickKind {
    Basic,
}

} // verus!

//! What an actor can do with its turn.

use vstd::prelude::*;

verus! {

/// Letting the turn pass.
pub struct WaitAction {}

} // verus!

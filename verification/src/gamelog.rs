//! The log of messages shown to the player.

use vstd::prelude::*;

verus! {

/// The messages, oldest first.
pub struct GameLog {
    pub entries: Vec<String>,
}

impl GameLog {
    /// Appends a message to the log.
    pub fn log(&mut self, message: String)
        ensures
            final(self).entries@ == old(self).entries@.push(message),
    {
        self.entries.push(message);
    }
}

} // verus!

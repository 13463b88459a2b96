//! A plain snapshot of a run for the surrounding application: the state the
//! run is in, the tape text, and where the cursor sits.

use vstd::prelude::*;

verus! {

/// A run snapshot handed to the presentation layer.
pub struct RunningMachine {
    pub state: usize,
    pub tape: String,
    pub cursor_position: isize,
}

impl RunningMachine {
    /// Start a snapshot at state zero over the given tape text and cursor.
    pub fn new(initial_tape: String, initial_cursor_position: isize) -> (r: RunningMachine)
        ensures
            r.state == 0,
            r.tape@ == initial_tape@,
            r.cursor_position == initial_cursor_position,
    {
        RunningMachine { state: 0, tape: initial_tape, cursor_position: initial_cursor_position }
    }
}

} // verus!

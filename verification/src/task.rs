//! The transition-rule value type: a head direction together with the next
//! state and the symbol to write.

use vstd::prelude::*;

verus! {

/// Direction the head takes after a rule fires. `Stop` means the machine
/// halts right after writing and changing state.
#[derive(Clone, Copy, Debug, PartialEq, Eq, Structural)]
pub enum Direction {
    Left,
    Right,
    Stop,
}

/// Error returned when a character is not one of the three direction codes
/// `'-'`, `'+'`, `'0'`.
#[derive(Clone, Copy, Debug, PartialEq, Eq, Structural)]
pub struct ParseDirectionError;

impl Direction {
    /// The text encoding of a direction: `Left` is `'-'`, `Right` is `'+'`,
    /// `Stop` is `'0'`.
    pub open spec fn spec_to_char(self) -> char {
        match self {
            Direction::Left => '-',
            Direction::Right => '+',
            Direction::Stop => '0',
        }
    }

    /// Encode this direction as its single-character code.
    pub fn to_char(self) -> (c: char)
        ensures
            c == self.spec_to_char(),
    {
        match self {
            Direction::Left => '-',
            Direction::Right => '+',
            Direction::Stop => '0',
        }
    }

    /// Decode a direction code; exactly the three codes succeed.
    pub fn from_char(c: char) -> (r: Result<Direction, ParseDirectionError>)
        ensures
            c == '-' ==> r == Ok::<Direction, ParseDirectionError>(Direction::Left),
            c == '+' ==> r == Ok::<Direction, ParseDirectionError>(Direction::Right),
            c == '0' ==> r == Ok::<Direction, ParseDirectionError>(Direction::Stop),
            c != '-' && c != '+' && c != '0' ==> r == Err::<Direction, ParseDirectionError>(
                ParseDirectionError,
            ),
    {
        if c == '-' {
            Ok(Direction::Left)
        } else if c == '+' {
            Ok(Direction::Right)
        } else if c == '0' {
            Ok(Direction::Stop)
        } else {
            Err(ParseDirectionError)
        }
    }
}

/// A transition rule: when it fires the machine enters `state`, writes
/// `character` at the head, and moves the head along `direction`.
#[derive(Clone, Copy, Debug, PartialEq, Eq, Structural)]
pub struct Task {
    pub state: usize,
    pub character: char,
    pub direction: Direction,
}

impl Task {
    /// The rule every fresh table cell holds.
    pub open spec fn spec_default() -> Task {
        Task { state: 0, character: '0', direction: Direction::Stop }
    }

    /// Build the default rule: state 0, write `'0'`, direction `Stop`.
    pub fn new() -> (t: Task)
        ensures
            t == Task::spec_default(),
    {
        Task { state: 0, character: '0', direction: Direction::Stop }
    }
}

} // verus!

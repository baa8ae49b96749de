//! The ways in which the library's operations fail.

use vstd::prelude::*;

verus! {

/// What went wrong.
#[derive(Debug, Clone, Copy, PartialEq, Eq, Structural)]
pub enum Error {
    /// A line of the question bank holds no bar between question and answer.
    MalformedBank,
    /// A line of the leaderboard holds no space, no name before the space, or
    /// no integer score behind it.
    MalformedLeaderboard,
    /// The leaderboard holds no player of the given name.
    UnknownPlayer,
}

impl Error {
    /// A sentence for the operator.
    pub fn message(&self) -> (text: &'static str)
        ensures
            text@ == match *self {
                Error::MalformedBank => "question bank: a line holds no '|'"@,
                Error::MalformedLeaderboard => "leaderboard: a line is no name and score"@,
                Error::UnknownPlayer => "leaderboard: no such player"@,
            },
    {
        match self {
            Error::MalformedBank => "question bank: a line holds no '|'",
            Error::MalformedLeaderboard => "leaderboard: a line is no name and score",
            Error::UnknownPlayer => "leaderboard: no such player",
        }
    }
}

} // verus!

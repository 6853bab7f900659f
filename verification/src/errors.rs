//! The ways in which a tally can fail.

use vstd::prelude::*;

verus! {

/// Why no ranking was produced. Every failure ends the call: nothing is
/// retried, and no partial ranking is returned.
#[derive(Clone, Copy, Debug, PartialEq, Eq, Structural)]
pub enum VoteError {
    /// A ballot line does not follow the grammar: a stray `*`, `>` or `=`,
    /// a missing candidate, or a weight that is no positive integer.
    Parse,
    /// A candidate appears twice within one ranked vote.
    DuplicateCandidate,
    /// More than one candidate is tied at the first tier of a vote where a
    /// single first choice was needed.
    AmbiguousFirstChoice,
    /// A ranked vote was found invalid while tallying.
    InvalidVote,
    /// The method is none of the known ones.
    UnknownMethod,
}

impl VoteError {
    /// The message of the error.
    pub open spec fn text(self) -> Seq<char> {
        match self {
            VoteError::Parse => {
                "Failed to parse votes, check for stray '*', '>', or '=' characters."@
            },
            VoteError::DuplicateCandidate => {
                "Failed to parse votes, candidate was used twice in a ranking."@
            },
            VoteError::AmbiguousFirstChoice => "Vote has more than one first choice."@,
            VoteError::InvalidVote => {
                "Invalid vote was used. Check that vote order does not list candidate twice."@
            },
            VoteError::UnknownMethod => "Matching variant not found"@,
        }
    }

    /// A message for the person who entered the ballots.
    pub fn message(&self) -> (m: String)
        ensures
            m@ == self.text(),
    {
        let words = match self {
            VoteError::Parse => {
                "Failed to parse votes, check for stray '*', '>', or '=' characters."
            },
            VoteError::DuplicateCandidate => {
                "Failed to parse votes, candidate was used twice in a ranking."
            },
            VoteError::AmbiguousFirstChoice => "Vote has more than one first choice.",
            VoteError::InvalidVote => {
                "Invalid vote was used. Check that vote order does not list candidate twice."
            },
            VoteError::UnknownMethod => "Matching variant not found",
        };
        words.to_owned()
    }
}

} // verus!

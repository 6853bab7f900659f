//! Ballot parsing and vote tallying.
//!
//! Free-form ballot text is turned into weighted ranked votes, and a ranking
//! of the candidates is computed under one of three methods: plurality,
//! Schulze (winning variant) and a weighted lottery.

pub mod ballot;
pub mod election;
pub mod errors;
pub mod laws;
pub mod lottery;
pub mod method;
pub mod names;
pub mod plurality;
pub mod project;
pub mod schulze;
pub mod standing;
pub mod text;

pub use ballot::{parse_votes, RankedVote, Ranking, WeightedRankedVote, WeightedUnrankedVote};
pub use election::{tally, vote};
pub use errors::VoteError;
pub use lottery::{lottery_with_rolls, pick_winner, weighted_random};
pub use method::Method;
pub use plurality::plurality;
pub use project::{as_unranked_votes, candidates_from_votes, consolidate_unranked_votes};
pub use schulze::schulze;

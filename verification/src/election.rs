//! A whole election: from the ballot text and the name of a method to a
//! ranking.

use crate::ballot::{parse_text, parse_votes, Ballots, Ranking, WeightedRankedVote};
use crate::errors::VoteError;
use crate::lottery::{lottery_ranking, weighted_random};
use crate::method::{method_named, Method};
use crate::plurality::{plurality, plurality_ranking};
use crate::project::{
    as_unranked_votes, candidate_list, candidates_from_votes, consolidated, unranked,
};
use crate::schulze::{schulze, schulze_ranking};
use crate::standing::{ranking_view, Standing};
use vstd::prelude::*;

verus! {

/// The model of what an election returns.
pub open spec fn outcome_view(res: Result<Ranking, VoteError>) -> Result<Standing, VoteError> {
    match res {
        Ok(r) => Ok(ranking_view(r@)),
        Err(e) => Err(e),
    }
}

/// Whether `res` is an outcome of the method on the votes. The candidates
/// are those that the votes name. Plurality and the lottery work on the
/// first choices and fail where these are ambiguous. Plurality and
/// Schulze have one outcome; the lottery has one for each run of rolls.
pub open spec fn is_tally(
    votes: Ballots,
    method: Method,
    res: Result<Standing, VoteError>,
) -> bool {
    match method {
        Method::SchulzeWinning => res == schulze_ranking(votes, candidate_list(votes)),
        Method::Plurality => match unranked(votes) {
            Err(e) => res == Err::<Standing, VoteError>(e),
            Ok(u) => res == Ok::<Standing, VoteError>(plurality_ranking(u, candidate_list(votes))),
        },
        Method::WeightedRandom => match unranked(votes) {
            Err(e) => res == Err::<Standing, VoteError>(e),
            Ok(u) => exists|rolls: Seq<nat>|
                res matches Ok(r) && #[trigger] lottery_ranking(consolidated(u), rolls) == Some(r),
        },
    }
}

/// Whether `res` is an outcome of the election. A ballot text that
/// cannot be read fails first, then a method that is not known, then the
/// tally itself.
pub open spec fn is_outcome(
    text: Seq<char>,
    method: Seq<char>,
    res: Result<Standing, VoteError>,
) -> bool {
    match parse_text(text) {
        Err(e) => res == Err::<Standing, VoteError>(e),
        Ok(votes) => match method_named(method) {
            None => res == Err::<Standing, VoteError>(VoteError::UnknownMethod),
            Some(m) => is_tally(votes, m, res),
        },
    }
}

/// Tallies the votes by the method.
pub fn tally(votes: &WeightedRankedVote, method: Method) -> (res: Result<
    Ranking,
    VoteError,
>)
    ensures
        is_tally(votes.deep_view(), method, outcome_view(res)),
{
    let candidates = candidates_from_votes(votes);
    match method {
        Method::SchulzeWinning => schulze(votes, candidates),
        Method::Plurality => match as_unranked_votes(votes) {
            Err(e) => Err(e),
            Ok(u) => Ok(plurality(&u, &candidates)),
        },
        Method::WeightedRandom => match as_unranked_votes(votes) {
            Err(e) => Err(e),
            Ok(u) => Ok(weighted_random(&u)),
        },
    }
}

/// Runs an election: reads the ballot text, one vote for each line, and
/// ranks the candidates by the method of the given name, one of
/// `"Plurality"`, `"Schulze Winning"` and `"Weighted Random"`.
///
/// On any failure only the error is returned, never a part of a ranking.
pub fn vote(votes_raw: &str, method: &str) -> (res: Result<Ranking, VoteError>)
    ensures
        is_outcome(votes_raw@, method@, outcome_view(res)),
{
    let votes = match parse_votes(votes_raw) {
        Ok(v) => v,
        Err(e) => {
            return Err(e);
        },
    };
    let method = match Method::from_str(method) {
        Ok(m) => m,
        Err(e) => {
            return Err(e);
        },
    };
    tally(&votes, method)
}

} // verus!

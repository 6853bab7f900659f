//! The plurality tally: candidates ranked by the weight of the votes that
//! name them as first choice.

use crate::ballot::{Ranking, WeightedUnrankedVote};
use crate::names::{canonical, lemma_canonical, rows};
use crate::project::{sorted_names, tally_totals, total_weight, Choices};
use crate::standing::{
    arrange, arrange_ranking, as_nats, in_order, lemma_arrange, lists_kept, ranking_view, Standing,
};
use vstd::prelude::*;

verus! {

/// How many of the first `upto` totals are greater than `x`.
pub open spec fn count_above(totals: Seq<nat>, x: nat, upto: nat) -> nat
    decreases upto,
{
    if upto == 0 {
        0
    } else if totals[upto - 1] > x {
        count_above(totals, x, (upto - 1) as nat) + 1
    } else {
        count_above(totals, x, (upto - 1) as nat)
    }
}

/// The rank of each candidate by standard competition ranking: the number
/// of candidates with a strictly greater total.
pub open spec fn competition_ranks(totals: Seq<nat>) -> Seq<nat> {
    Seq::new(totals.len(), |i: int| count_above(totals, totals[i], totals.len()))
}

/// The total of each of the names.
pub open spec fn totals_of(votes: Choices, names: Seq<Seq<char>>) -> Seq<nat> {
    Seq::new(names.len(), |i: int| total_weight(votes, names[i]))
}

/// Which of the totals are positive.
pub open spec fn supported(totals: Seq<nat>) -> Seq<bool> {
    Seq::new(totals.len(), |i: int| totals[i] > 0)
}

/// The plurality ranking. It holds the candidates with a positive total.
/// The rank of a candidate is the number of candidates with a strictly
/// greater total, so candidates with equal totals share a rank; they
/// stand in the lexical order of their names.
pub open spec fn plurality_ranking(votes: Choices, candidates: Seq<Seq<char>>) -> Standing {
    let names = canonical(candidates);
    let totals = totals_of(votes, names);
    arrange(names, competition_ranks(totals), supported(totals))
}

pub proof fn lemma_count_above_bound(totals: Seq<nat>, x: nat, upto: nat)
    ensures
        count_above(totals, x, upto) <= upto,
    decreases upto,
{
    if upto > 0 {
        lemma_count_above_bound(totals, x, (upto - 1) as nat);
    }
}

/// The numbers of the sequence, as naturals.
pub open spec fn wide_nats(s: Seq<u128>) -> Seq<nat> {
    s.map_values(|x: u128| x as nat)
}

/// The competition rank of each total.
pub(crate) fn rank_totals(totals: &Vec<u128>) -> (ranks: Vec<usize>)
    ensures
        as_nats(ranks@) == competition_ranks(wide_nats(totals@)),
{
    let n = totals.len();
    let ghost model = wide_nats(totals@);
    let mut ranks: Vec<usize> = Vec::new();
    let mut i: usize = 0;
    while i < n
        invariant
            i <= n == totals@.len(),
            model == wide_nats(totals@),
            ranks@.len() == i,
            forall|k: int|
                0 <= k < i ==> ranks@[k] as nat == count_above(model, model[k], n as nat),
        decreases n - i,
    {
        let mut above: usize = 0;
        let mut j: usize = 0;
        while j < n
            invariant
                j <= n == totals@.len(),
                i < n,
                model == wide_nats(totals@),
                above as nat == count_above(model, model[i as int], j as nat),
                above <= j,
            decreases n - j,
        {
            if totals[j] > totals[i] {
                above += 1;
            }
            j += 1;
        }
        ranks.push(above);
        i += 1;
    }
    assert(as_nats(ranks@) =~= competition_ranks(model));
    ranks
}

/// Ranks the candidates by the weight of their first-choice votes.
///
/// Only candidates of `candidates` with a positive total take part. The
/// rank of a candidate is the number of candidates with a strictly greater
/// total; candidates of one rank stand in the lexical order of their
/// names.
pub fn plurality(votes: &WeightedUnrankedVote, candidates: &Vec<String>) -> (r: Ranking)
    ensures
        ranking_view(r@) == plurality_ranking(votes.deep_view(), candidates.deep_view()),
{
    let names = sorted_names(candidates);
    let totals = tally_totals(&names, votes);
    let ranks = rank_totals(&totals);
    let mut keep: Vec<bool> = Vec::new();
    let mut i: usize = 0;
    while i < totals.len()
        invariant
            i <= totals@.len(),
            keep@.len() == i,
            forall|k: int| 0 <= k < i ==> keep@[k] == (totals@[k] > 0),
        decreases totals@.len() - i,
    {
        keep.push(totals[i] > 0);
        i += 1;
    }
    proof {
        let model = totals_of(votes.deep_view(), rows(names@));
        assert(wide_nats(totals@) =~= model);
        assert(keep@ =~= supported(model));
        assert(as_nats(ranks@).len() == ranks@.len());
    }
    arrange_ranking(&names, &ranks, &keep)
}

/// Fewer totals lie above a greater number, and the total at `i` does
/// not lie above a number that it does not exceed.
proof fn lemma_count_above_step(totals: Seq<nat>, x: nat, y: nat, i: int, upto: nat)
    requires
        x <= y,
        upto <= totals.len(),
        0 <= i < totals.len(),
    ensures
        count_above(totals, y, upto) <= count_above(totals, x, upto),
        i < upto && x < totals[i] <= y ==> count_above(totals, y, upto) < count_above(
            totals,
            x,
            upto,
        ),
        i < upto && totals[i] <= y ==> count_above(totals, y, upto) < upto,
    decreases upto,
{
    if upto > 0 {
        lemma_count_above_step(totals, x, y, i, (upto - 1) as nat);
        lemma_count_above_bound(totals, y, (upto - 1) as nat);
    }
}

/// Ranks follow totals: a candidate with a greater total holds a better
/// rank, candidates with equal totals share their rank, and no rank
/// reaches the number of candidates.
pub proof fn lemma_competition_ranks(totals: Seq<nat>, i: int, j: int)
    requires
        0 <= i < totals.len(),
        0 <= j < totals.len(),
    ensures
        competition_ranks(totals)[i] < totals.len(),
        totals[i] > totals[j] ==> competition_ranks(totals)[i] < competition_ranks(totals)[j],
        totals[i] == totals[j] ==> competition_ranks(totals)[i] == competition_ranks(totals)[j],
{
    lemma_count_above_step(totals, totals[i], totals[i], i, totals.len());
    if totals[i] > totals[j] {
        lemma_count_above_step(totals, totals[j], totals[i], i, totals.len());
    }
}

/// How the plurality ranking is laid out: it holds exactly the candidates
/// with a positive total, each with its rank, in the order of the ranks
/// and within one rank in the lexical order of the names.
pub proof fn lemma_plurality_ranking(votes: Choices, candidates: Seq<Seq<char>>)
    ensures
        lists_kept(
            plurality_ranking(votes, candidates),
            canonical(candidates),
            competition_ranks(totals_of(votes, canonical(candidates))),
            supported(totals_of(votes, canonical(candidates))),
        ),
        in_order(plurality_ranking(votes, candidates)),
{
    let names = canonical(candidates);
    let totals = totals_of(votes, names);
    lemma_canonical(candidates);
    assert forall|i: int| 0 <= i < names.len() implies competition_ranks(totals)[i]
        < names.len() by {
        lemma_competition_ranks(totals, i, i);
    }
    lemma_arrange(names, competition_ranks(totals), supported(totals));
}

} // verus!

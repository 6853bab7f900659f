//! Views of the votes that the tallies work on: the first choices of
//! ranked votes, the weight that each candidate gathered, and the set of
//! candidates that the votes name.

use crate::ballot::{Ballots, Tiers, WeightedRankedVote, WeightedUnrankedVote};
use crate::errors::VoteError;
use crate::names::{
    canonical, insert_sorted, lemma_name_lt_irreflexive, locate, name_lt, rows, strictly_sorted,
};
use crate::text::{chars_of, string_of};
use vstd::prelude::*;

verus! {

/// The model of a list of first choices with their weights.
pub type Choices = Seq<(Seq<char>, u32)>;

/// The candidates on tier 0 of the vote, in the order of the vote.
pub open spec fn first_tier(vote: Tiers) -> Seq<Seq<char>>
    decreases vote.len(),
{
    if vote.len() == 0 {
        Seq::empty()
    } else if vote.last().1 == 0 {
        first_tier(vote.drop_last()).push(vote.last().0)
    } else {
        first_tier(vote.drop_last())
    }
}

/// Whether some vote holds more than one candidate on tier 0.
pub open spec fn some_vote_ambiguous(votes: Ballots) -> bool {
    exists|i: int| 0 <= i < votes.len() && first_tier((#[trigger] votes[i]).0).len() > 1
}

/// The first choice of each vote that has one, with the weight of the
/// vote, in the order of the votes. A vote with nobody on tier 0 is left
/// out.
pub open spec fn first_choices(votes: Ballots) -> Choices
    decreases votes.len(),
{
    if votes.len() == 0 {
        Seq::empty()
    } else if first_tier(votes.last().0).len() == 0 {
        first_choices(votes.drop_last())
    } else {
        first_choices(votes.drop_last()).push((first_tier(votes.last().0)[0], votes.last().1))
    }
}

/// The unranked view of ranked votes, which exists where no vote has more
/// than one first choice.
pub open spec fn unranked(votes: Ballots) -> Result<Choices, VoteError> {
    if some_vote_ambiguous(votes) {
        Err(VoteError::AmbiguousFirstChoice)
    } else {
        Ok(first_choices(votes))
    }
}

/// The weight that the votes give to candidate `c`.
pub open spec fn total_weight(votes: Choices, c: Seq<char>) -> nat
    decreases votes.len(),
{
    if votes.len() == 0 {
        0
    } else if votes.last().0 == c {
        total_weight(votes.drop_last(), c) + votes.last().1 as nat
    } else {
        total_weight(votes.drop_last(), c)
    }
}

/// The names that the first choices name, vote by vote.
pub open spec fn choice_names(votes: Choices) -> Seq<Seq<char>> {
    votes.map_values(|v: (Seq<char>, u32)| v.0)
}

/// Every candidate that the votes name, once and in lexical order, with
/// the weight that the votes give to it.
pub open spec fn consolidated(votes: Choices) -> Seq<(Seq<char>, nat)> {
    let names = canonical(choice_names(votes));
    Seq::new(names.len(), |i: int| (names[i], total_weight(votes, names[i])))
}

/// The names of a ranked vote, in its order.
pub open spec fn tier_names(vote: Tiers) -> Seq<Seq<char>> {
    vote.map_values(|e: (Seq<char>, u32)| e.0)
}

/// All names that the votes hold, vote by vote.
pub open spec fn ballot_names(votes: Ballots) -> Seq<Seq<char>>
    decreases votes.len(),
{
    if votes.len() == 0 {
        Seq::empty()
    } else {
        ballot_names(votes.drop_last()) + tier_names(votes.last().0)
    }
}

/// The candidates of an election: every name that stands in some vote on
/// some tier, once and in lexical order.
pub open spec fn candidate_list(votes: Ballots) -> Seq<Seq<char>> {
    canonical(ballot_names(votes))
}

/// The model of a list of candidates with their weights.
pub open spec fn pool_view(pool: Seq<(String, u128)>) -> Seq<(Seq<char>, nat)> {
    pool.map_values(|e: (String, u128)| (e.0@, e.1 as nat))
}

/// The weight of some votes is bounded by their number.
pub proof fn lemma_total_weight_bound(votes: Choices, c: Seq<char>)
    ensures
        total_weight(votes, c) <= votes.len() * u32::MAX,
    decreases votes.len(),
{
    if votes.len() > 0 {
        lemma_total_weight_bound(votes.drop_last(), c);
        assert(votes.len() * u32::MAX == (votes.len() - 1) * u32::MAX + u32::MAX)
            by (nonlinear_arith);
    }
}

/// Derives the first choices from ranked votes.
///
/// Fails with `VoteError::AmbiguousFirstChoice` where a vote holds more
/// than one candidate on tier 0. A vote with nobody on tier 0, such as
/// the empty vote, is passed over.
pub fn as_unranked_votes(votes: &WeightedRankedVote) -> (res: Result<
    WeightedUnrankedVote,
    VoteError,
>)
    ensures
        match res {
            Ok(u) => unranked(votes.deep_view()) == Ok::<Choices, VoteError>(u.deep_view()),
            Err(e) => unranked(votes.deep_view()) == Err::<Choices, VoteError>(e),
        },
{
    let ghost model = votes.deep_view();
    let mut out: WeightedUnrankedVote = Vec::new();
    let mut v: usize = 0;
    assert(model.take(0) == Seq::<(Tiers, u32)>::empty());
    assert(out.deep_view() == Seq::<(Seq<char>, u32)>::empty());
    while v < votes.len()
        invariant
            v <= votes@.len(),
            model == votes.deep_view(),
            out.deep_view() == first_choices(model.take(v as int)),
            forall|i: int| 0 <= i < v ==> first_tier((#[trigger] model[i]).0).len() <= 1,
        decreases votes@.len() - v,
    {
        let vote = &votes[v].0;
        let ghost tiers = model[v as int].0;
        assert(tiers == vote.deep_view());
        let mut first: Option<usize> = None;
        let mut e: usize = 0;
        assert(tiers.take(0) == Seq::<(Seq<char>, u32)>::empty());
        while e < vote.len()
            invariant
                e <= vote@.len(),
                tiers == vote.deep_view(),
                first is None ==> first_tier(tiers.take(e as int)).len() == 0,
                first is Some ==> first->0 < e && first_tier(tiers.take(e as int)) == seq![
                    tiers[first->0 as int].0,
                ],
                model == votes.deep_view(),
                v < votes@.len(),
                tiers == model[v as int].0,
            decreases vote@.len() - e,
        {
            assert(tiers.take(e + 1).drop_last() == tiers.take(e as int));
            assert(tiers[e as int].1 == vote@[e as int].1);
            if vote[e].1 == 0 {
                if first.is_some() {
                    proof {
                        lemma_first_tier_grows(tiers, e + 1);
                    }
                    return Err(VoteError::AmbiguousFirstChoice);
                }
                first = Some(e);
            }
            e += 1;
        }
        assert(tiers.take(e as int) == tiers);
        assert(model.take(v + 1).drop_last() == model.take(v as int));
        match first {
            Some(i) => {
                let ghost before = out.deep_view();
                out.push((vote[i].0.clone(), votes[v].1));
                assert(out.deep_view() == before.push((tiers[i as int].0, model[v as int].1)));
            },
            None => {},
        }
        v += 1;
    }
    assert(model.take(v as int) == model);
    Ok(out)
}

/// The first tier of a part of a vote holds no more than that of the
/// whole vote.
proof fn lemma_first_tier_grows(vote: Tiers, n: int)
    requires
        0 <= n <= vote.len(),
    ensures
        first_tier(vote.take(n)).len() <= first_tier(vote).len(),
    decreases vote.len() - n,
{
    if n < vote.len() {
        lemma_first_tier_grows(vote, n + 1);
        assert(vote.take(n + 1).drop_last() == vote.take(n));
    } else {
        assert(vote.take(n) == vote);
    }
}

/// The sorted listing of the names in `list`.
pub(crate) fn sorted_names(list: &Vec<String>) -> (names: Vec<Vec<char>>)
    ensures
        rows(names@) == canonical(list.deep_view()),
        strictly_sorted(rows(names@)),
{
    let ghost model = list.deep_view();
    let mut names: Vec<Vec<char>> = Vec::new();
    let mut i: usize = 0;
    assert(model.take(0) == Seq::<Seq<char>>::empty());
    assert(rows(names@) == Seq::<Seq<char>>::empty());
    while i < list.len()
        invariant
            i <= list@.len(),
            model == list.deep_view(),
            rows(names@) == canonical(model.take(i as int)),
            strictly_sorted(rows(names@)),
        decreases list@.len() - i,
    {
        assert(model.take(i + 1).drop_last() == model.take(i as int));
        assert(model[i as int] == list@[i as int]@);
        insert_sorted(&mut names, chars_of(list[i].as_str()));
        i += 1;
    }
    assert(model.take(i as int) == model);
    names
}

/// The weight that the votes give to each of the names, which are sorted.
/// Votes for other names count for nobody.
pub(crate) fn tally_totals(names: &Vec<Vec<char>>, votes: &WeightedUnrankedVote) -> (totals: Vec<
    u128,
>)
    requires
        strictly_sorted(rows(names@)),
    ensures
        totals@.len() == names@.len(),
        forall|i: int|
            0 <= i < names@.len() ==> totals@[i] == total_weight(
                votes.deep_view(),
                #[trigger] rows(names@)[i],
            ),
{
    let ghost model = votes.deep_view();
    let ghost all = rows(names@);
    let n = names.len();
    let mut totals: Vec<u128> = Vec::new();
    let mut i: usize = 0;
    while i < n
        invariant
            i <= n,
            totals@.len() == i,
            forall|j: int| 0 <= j < i ==> totals@[j] == 0,
        decreases n - i,
    {
        totals.push(0u128);
        i += 1;
    }
    let mut v: usize = 0;
    assert(model.take(0) == Seq::<(Seq<char>, u32)>::empty());
    while v < votes.len()
        invariant
            v <= votes@.len(),
            n == names@.len(),
            model == votes.deep_view(),
            all == rows(names@),
            strictly_sorted(all),
            totals@.len() == n,
            forall|j: int|
                0 <= j < n ==> totals@[j] == total_weight(model.take(v as int), #[trigger] all[j]),
        decreases votes@.len() - v,
    {
        let c = chars_of(votes[v].0.as_str());
        let (k, found) = locate(names, c.as_slice());
        assert(model.take(v + 1).drop_last() == model.take(v as int));
        assert(model[v as int].0 == c@);
        assert(model[v as int].1 == votes@[v as int].1);
        proof {
            assert forall|j: int| 0 <= j < n && (!found || j != k) implies #[trigger] all[j]
                != c@ by {
                if found && all[j] == c@ {
                    lemma_name_lt_irreflexive(c@);
                    if j < k {
                        assert(name_lt(all[j], all[k as int]));
                    } else {
                        assert(name_lt(all[k as int], all[j]));
                    }
                }
            }
        }
        if found {
            proof {
                lemma_total_weight_bound(model.take(v as int), all[k as int]);
                assert(v * u32::MAX + u32::MAX <= usize::MAX * u32::MAX + u32::MAX)
                    by (nonlinear_arith)
                    requires
                        v <= usize::MAX,
                ;
            }
            let sum: u128 = totals[k] + (votes[v].1 as u128);
            totals.set(k, sum);
        }
        v += 1;
    }
    assert(model.take(v as int) == model);
    totals
}

/// Sums the weight of the first choices candidate by candidate. The
/// result lists every candidate that the votes name, once and in lexical
/// order.
pub fn consolidate_unranked_votes(votes: &WeightedUnrankedVote) -> (pool: Vec<(String, u128)>)
    ensures
        pool_view(pool@) == consolidated(votes.deep_view()),
{
    let ghost model = votes.deep_view();
    let mut list: Vec<String> = Vec::new();
    let mut v: usize = 0;
    while v < votes.len()
        invariant
            v <= votes@.len(),
            model == votes.deep_view(),
            list.deep_view() == choice_names(model).take(v as int),
        decreases votes@.len() - v,
    {
        let ghost before = list.deep_view();
        list.push(votes[v].0.clone());
        assert(list.deep_view() == before.push(model[v as int].0));
        assert(choice_names(model).take(v + 1) == choice_names(model).take(v as int).push(
            model[v as int].0,
        ));
        v += 1;
    }
    assert(choice_names(model).take(v as int) == choice_names(model));
    let names = sorted_names(&list);
    let totals = tally_totals(&names, votes);
    let mut pool: Vec<(String, u128)> = Vec::new();
    let mut i: usize = 0;
    while i < names.len()
        invariant
            i <= names@.len(),
            totals@.len() == names@.len(),
            rows(names@) == canonical(choice_names(model)),
            forall|j: int|
                0 <= j < names@.len() ==> totals@[j] == total_weight(
                    model,
                    #[trigger] rows(names@)[j],
                ),
            pool_view(pool@) == consolidated(model).take(i as int),
        decreases names@.len() - i,
    {
        let ghost before = pool_view(pool@);
        pool.push((string_of(names[i].as_slice()), totals[i]));
        assert(rows(names@)[i as int] == names@[i as int]@);
        assert(pool_view(pool@) == before.push(consolidated(model)[i as int]));
        assert(consolidated(model).take(i + 1) == consolidated(model).take(i as int).push(
            consolidated(model)[i as int],
        ));
        i += 1;
    }
    assert(consolidated(model).take(i as int) == consolidated(model));
    pool
}

/// The candidates of an election: every name that stands in some vote,
/// once and in lexical order.
pub fn candidates_from_votes(votes: &WeightedRankedVote) -> (candidates: Vec<String>)
    ensures
        candidates.deep_view() == candidate_list(votes.deep_view()),
{
    let ghost model = votes.deep_view();
    let mut names: Vec<Vec<char>> = Vec::new();
    let mut v: usize = 0;
    assert(model.take(0) == Seq::<(Tiers, u32)>::empty());
    assert(rows(names@) == Seq::<Seq<char>>::empty());
    while v < votes.len()
        invariant
            v <= votes@.len(),
            model == votes.deep_view(),
            rows(names@) == canonical(ballot_names(model.take(v as int))),
            strictly_sorted(rows(names@)),
        decreases votes@.len() - v,
    {
        let vote = &votes[v].0;
        let ghost tiers = model[v as int].0;
        let ghost seen = ballot_names(model.take(v as int));
        assert(tiers == vote.deep_view());
        assert(model.take(v + 1).drop_last() == model.take(v as int));
        let mut e: usize = 0;
        assert(seen + tier_names(tiers).take(0) == seen);
        while e < vote.len()
            invariant
                e <= vote@.len(),
                tiers == vote.deep_view(),
                rows(names@) == canonical(seen + tier_names(tiers).take(e as int)),
                strictly_sorted(rows(names@)),
            decreases vote@.len() - e,
        {
            let ghost sofar = seen + tier_names(tiers).take(e as int);
            let ghost more = seen + tier_names(tiers).take(e + 1);
            assert(more.drop_last() == sofar);
            assert(more.last() == tiers[e as int].0);
            assert(tiers[e as int].0 == vote@[e as int].0@);
            insert_sorted(&mut names, chars_of(vote[e].0.as_str()));
            e += 1;
        }
        assert(tier_names(tiers).take(e as int) == tier_names(tiers));
        v += 1;
    }
    assert(model.take(v as int) == model);
    let mut candidates: Vec<String> = Vec::new();
    let mut i: usize = 0;
    while i < names.len()
        invariant
            i <= names@.len(),
            candidates.deep_view() == rows(names@).take(i as int),
        decreases names@.len() - i,
    {
        let ghost before = candidates.deep_view();
        candidates.push(string_of(names[i].as_slice()));
        assert(candidates.deep_view() == before.push(names@[i as int]@));
        assert(rows(names@).take(i + 1) == rows(names@).take(i as int).push(names@[i as int]@));
        i += 1;
    }
    assert(rows(names@).take(i as int) == rows(names@));
    candidates
}

} // verus!

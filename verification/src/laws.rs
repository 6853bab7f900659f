//! What holds of every election: the laws that the tallies obey, proved
//! from their definitions.

use crate::ballot::{
    has_repeat, parse_line, parse_text, ranking_of, some_line_malformed, some_line_repeats,
    split_lines, votes_of, Ballots, Tiers,
};
use crate::election::{is_outcome, is_tally};
use crate::errors::VoteError;
use crate::lottery::{by_position, lottery, lottery_ranking, pick, pool_weight};
use crate::method::{method_named, Method};
use crate::names::{
    canonical, lemma_canonical, lemma_canonical_by_content, lemma_sorted_unique, strictly_sorted,
};
use crate::plurality::{
    competition_ranks, count_above, plurality_ranking, supported, totals_of,
};
use crate::project::{
    ballot_names, candidate_list, choice_names, consolidated, first_choices, first_tier,
    some_vote_ambiguous, tier_names, total_weight, unranked,
};
use crate::schulze::{
    pairwise, pairwise_matrix, prefers, schulze_ranking, some_vote_invalid, valid_vote,
};
use crate::standing::{arrange, arrange_upto, rank_block, Standing};
use crate::text::{
    first_of, is_space, leading_spaces, lemma_first_of, lemma_trim, lemma_trim_within, trim,
};
use vstd::prelude::*;

verus! {

/// Whether some vote of the list ranks the candidates as `t` does.
pub open spec fn occurs(votes: Ballots, t: Tiers) -> bool {
    exists|v: int| 0 <= v < votes.len() && (#[trigger] votes[v]).0 == t
}

/// The weight of the votes whose ranking is of the kind `p`.
pub open spec fn weight_where(votes: Ballots, p: spec_fn(Tiers) -> bool) -> nat
    decreases votes.len(),
{
    if votes.len() == 0 {
        0
    } else if p(votes.last().0) {
        weight_where(votes.drop_last(), p) + votes.last().1 as nat
    } else {
        weight_where(votes.drop_last(), p)
    }
}

/// The rankings with `c` as first choice.
pub open spec fn chooses(c: Seq<char>) -> spec_fn(Tiers) -> bool {
    |t: Tiers| first_tier(t).len() > 0 && first_tier(t)[0] == c
}

/// The rankings that prefer `a` to `b`.
pub open spec fn ranks_above(a: Seq<char>, b: Seq<char>) -> spec_fn(Tiers) -> bool {
    |t: Tiers| prefers(t, a, b)
}

/// Whether two lists of votes say the same: the same rankings occur in
/// both, and rankings of any one kind carry the same weight in both.
pub open spec fn same_support(a: Ballots, b: Ballots) -> bool {
    &&& forall|t: Tiers| occurs(a, t) <==> occurs(b, t)
    &&& forall|p: spec_fn(Tiers) -> bool| #[trigger] weight_where(a, p) == weight_where(b, p)
}

/// The weight of a candidate's first choices is the weight of the votes
/// that choose it.
pub proof fn lemma_total_by_weight(votes: Ballots, c: Seq<char>)
    ensures
        total_weight(first_choices(votes), c) == weight_where(votes, chooses(c)),
    decreases votes.len(),
{
    if votes.len() > 0 {
        lemma_total_by_weight(votes.drop_last(), c);
        let u = first_choices(votes.drop_last());
        let t = votes.last().0;
        if first_tier(t).len() > 0 {
            assert(first_choices(votes) == u.push((first_tier(t)[0], votes.last().1)));
            assert(first_choices(votes).drop_last() == u);
        }
    }
}

/// The pairwise count is the weight of the votes that prefer the one to
/// the other.
pub proof fn lemma_pairwise_by_weight(votes: Ballots, a: Seq<char>, b: Seq<char>)
    ensures
        pairwise(votes, a, b) == weight_where(votes, ranks_above(a, b)),
    decreases votes.len(),
{
    if votes.len() > 0 {
        lemma_pairwise_by_weight(votes.drop_last(), a, b);
    }
}

/// A name stands among the names of the votes exactly where a vote
/// holds it.
pub proof fn lemma_ballot_names(votes: Ballots, x: Seq<char>)
    ensures
        ballot_names(votes).contains(x) <==> exists|t: Tiers|
            occurs(votes, t) && #[trigger] tier_names(t).contains(x),
    decreases votes.len(),
{
    if votes.len() == 0 {
        assert(!ballot_names(votes).contains(x));
    } else {
        let head = votes.drop_last();
        let last = votes.last().0;
        lemma_ballot_names(head, x);
        let all = ballot_names(votes);
        let front = ballot_names(head);
        let back = tier_names(last);
        if all.contains(x) {
            let i = choose|i: int| 0 <= i < all.len() && all[i] == x;
            if i < front.len() {
                assert(front[i] == x);
                let t = choose|t: Tiers| occurs(head, t) && #[trigger] tier_names(t).contains(x);
                let v = choose|v: int| 0 <= v < head.len() && (#[trigger] head[v]).0 == t;
                assert(votes[v].0 == t);
                assert(occurs(votes, t) && tier_names(t).contains(x));
            } else {
                assert(back[i - front.len()] == x);
                assert(votes[votes.len() - 1].0 == last);
                assert(occurs(votes, last) && tier_names(last).contains(x));
            }
        }
        if exists|t: Tiers| occurs(votes, t) && #[trigger] tier_names(t).contains(x) {
            let t = choose|t: Tiers| occurs(votes, t) && #[trigger] tier_names(t).contains(x);
            let v = choose|v: int| 0 <= v < votes.len() && (#[trigger] votes[v]).0 == t;
            if v < head.len() {
                assert(head[v].0 == t);
                assert(occurs(head, t) && tier_names(t).contains(x));
                let i = choose|i: int| 0 <= i < front.len() && front[i] == x;
                assert(all[i] == x);
            } else {
                let e = choose|e: int| 0 <= e < back.len() && back[e] == x;
                assert(all[front.len() + e] == x);
            }
        }
    }
}

/// A name stands among the first choices exactly where a vote chooses
/// it.
pub proof fn lemma_choice_names(votes: Ballots, x: Seq<char>)
    ensures
        choice_names(first_choices(votes)).contains(x) <==> exists|t: Tiers|
            occurs(votes, t) && #[trigger] chooses(x)(t),
    decreases votes.len(),
{
    let all = choice_names(first_choices(votes));
    if votes.len() == 0 {
        assert(!all.contains(x));
    } else {
        let head = votes.drop_last();
        let last = votes.last().0;
        lemma_choice_names(head, x);
        let front = choice_names(first_choices(head));
        if first_tier(last).len() > 0 {
            assert(all == front.push(first_tier(last)[0]));
        } else {
            assert(all == front);
        }
        if all.contains(x) {
            let i = choose|i: int| 0 <= i < all.len() && all[i] == x;
            if i < front.len() {
                assert(front[i] == x);
                let t = choose|t: Tiers| occurs(head, t) && #[trigger] chooses(x)(t);
                let v = choose|v: int| 0 <= v < head.len() && (#[trigger] head[v]).0 == t;
                assert(votes[v].0 == t);
                assert(occurs(votes, t) && chooses(x)(t));
            } else {
                assert(votes[votes.len() - 1].0 == last);
                assert(occurs(votes, last) && chooses(x)(last));
            }
        }
        if exists|t: Tiers| occurs(votes, t) && #[trigger] chooses(x)(t) {
            let t = choose|t: Tiers| occurs(votes, t) && #[trigger] chooses(x)(t);
            let v = choose|v: int| 0 <= v < votes.len() && (#[trigger] votes[v]).0 == t;
            if v < head.len() {
                assert(head[v].0 == t);
                assert(occurs(head, t) && chooses(x)(t));
                let i = choose|i: int| 0 <= i < front.len() && front[i] == x;
                assert(all[i] == x);
            } else {
                assert(all[all.len() - 1] == x);
            }
        }
    }
}

/// The candidates of an election are the names that stand in its votes,
/// each once and in lexical order.
pub proof fn lemma_candidate_list(votes: Ballots)
    ensures
        strictly_sorted(candidate_list(votes)),
        forall|x: Seq<char>|
            candidate_list(votes).contains(x) <==> exists|t: Tiers|
                occurs(votes, t) && #[trigger] tier_names(t).contains(x),
{
    lemma_canonical(ballot_names(votes));
    assert forall|x: Seq<char>|
        candidate_list(votes).contains(x) <==> exists|t: Tiers|
            occurs(votes, t) && #[trigger] tier_names(t).contains(x) by {
        lemma_ballot_names(votes, x);
    }
}

/// What a tally takes from the votes, it takes from the rankings that
/// occur and from the weight of each kind of ranking: lists of votes that
/// agree in these have the same candidates, ambiguities, invalid votes,
/// totals, lottery pool and pairwise counts.
pub proof fn lemma_same_support(a: Ballots, b: Ballots)
    requires
        same_support(a, b),
    ensures
        candidate_list(a) == candidate_list(b),
        some_vote_ambiguous(a) == some_vote_ambiguous(b),
        forall|names: Seq<Seq<char>>| #[trigger]
            some_vote_invalid(a, names) == some_vote_invalid(b, names),
        forall|c: Seq<char>| #[trigger]
            total_weight(first_choices(a), c) == total_weight(first_choices(b), c),
        consolidated(first_choices(a)) == consolidated(first_choices(b)),
        forall|x: Seq<char>, y: Seq<char>| #[trigger] pairwise(a, x, y) == pairwise(b, x, y),
{
    assert forall|x: Seq<char>| ballot_names(a).contains(x) <==> ballot_names(b).contains(x) by {
        lemma_ballot_names(a, x);
        lemma_ballot_names(b, x);
        lemma_one_way_names(a, b, x);
        lemma_one_way_names(b, a, x);
    }
    lemma_canonical_by_content(ballot_names(a), ballot_names(b));
    lemma_one_way_ambiguous(a, b);
    lemma_one_way_ambiguous(b, a);
    assert forall|names: Seq<Seq<char>>| #[trigger]
        some_vote_invalid(a, names) == some_vote_invalid(b, names) by {
        lemma_one_way_invalid(a, b, names);
        lemma_one_way_invalid(b, a, names);
    }
    assert forall|c: Seq<char>| #[trigger]
        total_weight(first_choices(a), c) == total_weight(first_choices(b), c) by {
        lemma_total_by_weight(a, c);
        lemma_total_by_weight(b, c);
        assert(weight_where(a, chooses(c)) == weight_where(b, chooses(c)));
    }
    assert forall|x: Seq<char>|
        choice_names(first_choices(a)).contains(x) <==> choice_names(first_choices(b)).contains(
            x,
        ) by {
        lemma_choice_names(a, x);
        lemma_choice_names(b, x);
        lemma_one_way_choices(a, b, x);
        lemma_one_way_choices(b, a, x);
    }
    lemma_canonical_by_content(choice_names(first_choices(a)), choice_names(first_choices(b)));
    assert(consolidated(first_choices(a)) =~= consolidated(first_choices(b))) by {
        let ua = first_choices(a);
        let ub = first_choices(b);
        let listed = canonical(choice_names(ua));
        assert forall|i: int| 0 <= i < listed.len() implies #[trigger] consolidated(ua)[i]
            == consolidated(ub)[i] by {
            assert(total_weight(ua, listed[i]) == total_weight(ub, listed[i]));
        }
    }
    assert forall|x: Seq<char>, y: Seq<char>| #[trigger]
        pairwise(a, x, y) == pairwise(b, x, y) by {
        lemma_pairwise_by_weight(a, x, y);
        lemma_pairwise_by_weight(b, x, y);
        assert(weight_where(a, ranks_above(x, y)) == weight_where(b, ranks_above(x, y)));
    }
}

proof fn lemma_one_way_names(a: Ballots, b: Ballots, x: Seq<char>)
    requires
        forall|t: Tiers| occurs(a, t) ==> occurs(b, t),
    ensures
        (exists|t: Tiers| occurs(a, t) && #[trigger] tier_names(t).contains(x)) ==> (exists|
            t: Tiers,
        |
            occurs(b, t) && #[trigger] tier_names(t).contains(x)),
{
    if exists|t: Tiers| occurs(a, t) && #[trigger] tier_names(t).contains(x) {
        let t = choose|t: Tiers| occurs(a, t) && #[trigger] tier_names(t).contains(x);
        assert(occurs(b, t) && tier_names(t).contains(x));
    }
}

proof fn lemma_one_way_choices(a: Ballots, b: Ballots, x: Seq<char>)
    requires
        forall|t: Tiers| occurs(a, t) ==> occurs(b, t),
    ensures
        (exists|t: Tiers| occurs(a, t) && #[trigger] chooses(x)(t)) ==> (exists|t: Tiers|
            occurs(b, t) && #[trigger] chooses(x)(t)),
{
    if exists|t: Tiers| occurs(a, t) && #[trigger] chooses(x)(t) {
        let t = choose|t: Tiers| occurs(a, t) && #[trigger] chooses(x)(t);
        assert(occurs(b, t) && chooses(x)(t));
    }
}

proof fn lemma_one_way_ambiguous(a: Ballots, b: Ballots)
    requires
        forall|t: Tiers| occurs(a, t) ==> occurs(b, t),
    ensures
        some_vote_ambiguous(a) ==> some_vote_ambiguous(b),
{
    if some_vote_ambiguous(a) {
        let i = choose|i: int| 0 <= i < a.len() && first_tier((#[trigger] a[i]).0).len() > 1;
        assert(occurs(a, a[i].0));
        let j = choose|j: int| 0 <= j < b.len() && (#[trigger] b[j]).0 == a[i].0;
        assert(first_tier(b[j].0).len() > 1);
    }
}

proof fn lemma_one_way_invalid(a: Ballots, b: Ballots, names: Seq<Seq<char>>)
    requires
        forall|t: Tiers| occurs(a, t) ==> occurs(b, t),
    ensures
        some_vote_invalid(a, names) ==> some_vote_invalid(b, names),
{
    if some_vote_invalid(a, names) {
        let i = choose|i: int| 0 <= i < a.len() && !valid_vote((#[trigger] a[i]).0, names);
        assert(occurs(a, a[i].0));
        let j = choose|j: int| 0 <= j < b.len() && (#[trigger] b[j]).0 == a[i].0;
        assert(!valid_vote(b[j].0, names));
    }
}

/// Lists of votes that say the same have the same outcomes under every
/// method.
pub proof fn lemma_same_support_same_tally(
    a: Ballots,
    b: Ballots,
    method: Method,
    res: Result<Standing, VoteError>,
)
    requires
        same_support(a, b),
    ensures
        is_tally(a, method, res) == is_tally(b, method, res),
{
    lemma_same_support(a, b);
    let names = canonical(candidate_list(a));
    assert(some_vote_invalid(a, names) == some_vote_invalid(b, names));
    assert(pairwise_matrix(a, names) =~= pairwise_matrix(b, names)) by {
        assert forall|i: int| 0 <= i < names.len() implies #[trigger] pairwise_matrix(a, names)[i]
            =~= pairwise_matrix(b, names)[i] by {
            assert forall|j: int| 0 <= j < names.len() implies #[trigger] pairwise_matrix(
                a,
                names,
            )[i][j] == pairwise_matrix(b, names)[i][j] by {
                assert(pairwise(a, names[i], names[j]) == pairwise(b, names[i], names[j]));
            }
        }
    }
    assert(schulze_ranking(a, candidate_list(a)) == schulze_ranking(b, candidate_list(b)));
    let ua = first_choices(a);
    let ub = first_choices(b);
    assert(totals_of(ua, names) =~= totals_of(ub, names)) by {
        assert forall|i: int| 0 <= i < names.len() implies #[trigger] totals_of(ua, names)[i]
            == totals_of(ub, names)[i] by {
            assert(total_weight(ua, names[i]) == total_weight(ub, names[i]));
        }
    }
    assert(plurality_ranking(ua, candidate_list(a)) == plurality_ranking(ub, candidate_list(b)));
    assert(unranked(a) is Err <==> unranked(b) is Err);
}

/// Under plurality and under Schulze an election has one outcome: asked
/// again with the same text and method, it answers the same.
pub proof fn lemma_outcome_unique(
    text: Seq<char>,
    method: Seq<char>,
    first: Result<Standing, VoteError>,
    second: Result<Standing, VoteError>,
)
    requires
        is_outcome(text, method, first),
        is_outcome(text, method, second),
        method_named(method) != Some(Method::WeightedRandom),
    ensures
        first == second,
{
}

/// What one vote adds to the weight of the kind `p`.
pub open spec fn share(vote: (Tiers, u32), p: spec_fn(Tiers) -> bool) -> nat {
    if p(vote.0) {
        vote.1 as nat
    } else {
        0
    }
}

/// Taking a vote out takes its share of the weight away.
proof fn lemma_weight_remove(votes: Ballots, i: int, p: spec_fn(Tiers) -> bool)
    requires
        0 <= i < votes.len(),
    ensures
        weight_where(votes, p) == weight_where(votes.remove(i), p) + share(votes[i], p),
    decreases votes.len(),
{
    if i == votes.len() - 1 {
        assert(votes.remove(i) == votes.drop_last());
    } else {
        lemma_weight_remove(votes.drop_last(), i, p);
        assert(votes.remove(i).drop_last() == votes.drop_last().remove(i));
        assert(votes.remove(i).last() == votes.last());
    }
}

/// The weight of a kind of ranking does not depend on the order of the
/// votes.
proof fn lemma_weight_permuted(a: Ballots, b: Ballots, p: spec_fn(Tiers) -> bool)
    requires
        a.to_multiset() == b.to_multiset(),
    ensures
        weight_where(a, p) == weight_where(b, p),
    decreases a.len(),
{
    broadcast use vstd::seq_lib::group_to_multiset_ensures;

    if a.len() == 0 {
        assert(b.to_multiset().len() == 0);
        assert(b.len() == 0);
    } else {
        let x = a.last();
        assert(a == a.drop_last().push(x));
        assert(a.to_multiset().count(x) > 0);
        assert(b.contains(x));
        let i = b.index_of(x);
        assert(a.drop_last() == a.remove(a.len() - 1));
        assert(a.drop_last().to_multiset() =~= b.remove(i).to_multiset());
        lemma_weight_permuted(a.drop_last(), b.remove(i), p);
        lemma_weight_remove(b, i, p);
    }
}

/// A sequence and a reordering of it hold the same members.
proof fn lemma_permuted_members<A>(a: Seq<A>, b: Seq<A>)
    requires
        a.to_multiset() == b.to_multiset(),
    ensures
        forall|x: A| a.contains(x) <==> b.contains(x),
{
    broadcast use vstd::seq_lib::group_to_multiset_ensures;

    assert forall|x: A| a.contains(x) <==> b.contains(x) by {
        assert(a.contains(x) <==> a.to_multiset().count(x) > 0);
        assert(b.contains(x) <==> b.to_multiset().count(x) > 0);
    }
}

/// Two reorderings of one sequence, mapped member by member, are again
/// reorderings of one sequence.
proof fn lemma_map_permuted<A, B>(a: Seq<A>, b: Seq<A>, f: spec_fn(A) -> B)
    requires
        a.to_multiset() == b.to_multiset(),
    ensures
        a.map_values(f).to_multiset() == b.map_values(f).to_multiset(),
    decreases a.len(),
{
    broadcast use vstd::seq_lib::group_to_multiset_ensures;

    if a.len() == 0 {
        assert(b.to_multiset().len() == 0);
        assert(b.len() == 0);
        assert(a.map_values(f) =~= b.map_values(f));
    } else {
        let x = a.last();
        assert(a == a.drop_last().push(x));
        assert(a.to_multiset().count(x) > 0);
        assert(b.contains(x));
        let i = b.index_of(x);
        assert(a.drop_last() == a.remove(a.len() - 1));
        assert(a.drop_last().to_multiset() =~= b.remove(i).to_multiset());
        lemma_map_permuted(a.drop_last(), b.remove(i), f);
        let ma = a.map_values(f);
        let mb = b.map_values(f);
        assert(ma == a.drop_last().map_values(f).push(f(x)));
        assert(mb.remove(i) == b.remove(i).map_values(f));
        assert(mb[i] == f(x));
        assert(mb.remove(i).to_multiset() == mb.to_multiset().remove(f(x)));
        assert(mb.to_multiset().count(f(x)) > 0);
        assert(ma.to_multiset() =~= mb.to_multiset());
    }
}

/// Votes in another order say the same.
pub proof fn lemma_reordered_support(a: Ballots, b: Ballots)
    requires
        a.to_multiset() == b.to_multiset(),
    ensures
        same_support(a, b),
{
    lemma_permuted_members(a, b);
    assert forall|t: Tiers| occurs(a, t) <==> occurs(b, t) by {
        if occurs(a, t) {
            let v = choose|v: int| 0 <= v < a.len() && (#[trigger] a[v]).0 == t;
            assert(a.contains(a[v]));
            let w = choose|w: int| 0 <= w < b.len() && b[w] == a[v];
            assert(b[w].0 == t);
        }
        if occurs(b, t) {
            let v = choose|v: int| 0 <= v < b.len() && (#[trigger] b[v]).0 == t;
            assert(b.contains(b[v]));
            let w = choose|w: int| 0 <= w < a.len() && a[w] == b[v];
            assert(a[w].0 == t);
        }
    }
    assert forall|p: spec_fn(Tiers) -> bool| #[trigger]
        weight_where(a, p) == weight_where(b, p) by {
        lemma_weight_permuted(a, b, p);
    }
}

/// The order of the votes never changes the outcome of a tally: a list
/// of votes and any reordering of it have the same outcomes under every
/// method.
pub proof fn lemma_vote_order_irrelevant(
    a: Ballots,
    b: Ballots,
    method: Method,
    res: Result<Standing, VoteError>,
)
    requires
        a.to_multiset() == b.to_multiset(),
    ensures
        is_tally(a, method, res) == is_tally(b, method, res),
{
    lemma_reordered_support(a, b);
    lemma_same_support_same_tally(a, b, method, res);
}

/// The order of the lines never changes the outcome of an election: two
/// ballot texts with the same lines in any order have the same outcomes
/// under every method, errors included.
pub proof fn lemma_line_order_irrelevant(
    first: Seq<char>,
    second: Seq<char>,
    method: Seq<char>,
    res: Result<Standing, VoteError>,
)
    requires
        split_lines(first).to_multiset() == split_lines(second).to_multiset(),
    ensures
        is_outcome(first, method, res) == is_outcome(second, method, res),
{
    let a = split_lines(first);
    let b = split_lines(second);
    lemma_permuted_members(a, b);
    lemma_lines_one_way(a, b);
    lemma_lines_one_way(b, a);
    let f = |l: Seq<char>| parse_line(l)->0;
    lemma_map_permuted(a, b, f);
    assert(votes_of(a) =~= a.map_values(f));
    assert(votes_of(b) =~= b.map_values(f));
    if parse_text(first) is Ok {
        match method_named(method) {
            Some(m) => {
                lemma_vote_order_irrelevant(votes_of(a), votes_of(b), m, res);
            },
            None => {},
        }
    }
}

proof fn lemma_lines_one_way(a: Seq<Seq<char>>, b: Seq<Seq<char>>)
    requires
        forall|l: Seq<char>| a.contains(l) ==> b.contains(l),
    ensures
        some_line_malformed(a) ==> some_line_malformed(b),
        some_line_repeats(a) ==> some_line_repeats(b),
{
    if some_line_malformed(a) {
        let i = choose|i: int| 0 <= i < a.len() && parse_line(#[trigger] a[i]) is None;
        assert(a.contains(a[i]));
        let j = choose|j: int| 0 <= j < b.len() && b[j] == a[i];
        assert(parse_line(b[j]) is None);
    }
    if some_line_repeats(a) {
        let i = choose|i: int|
            0 <= i < a.len() && parse_line(#[trigger] a[i]) is Some && has_repeat(
                (parse_line(a[i])->0).0,
            );
        assert(a.contains(a[i]));
        let j = choose|j: int| 0 <= j < b.len() && b[j] == a[i];
        assert(parse_line(b[j]) is Some && has_repeat((parse_line(b[j])->0).0));
    }
}

/// The weight of the votes of two lists, one after the other.
proof fn lemma_weight_concat(a: Ballots, b: Ballots, p: spec_fn(Tiers) -> bool)
    ensures
        weight_where(a + b, p) == weight_where(a, p) + weight_where(b, p),
    decreases b.len(),
{
    if b.len() == 0 {
        assert(a + b == a);
    } else {
        lemma_weight_concat(a, b.drop_last(), p);
        assert((a + b).drop_last() == a + b.drop_last());
        assert((a + b).last() == b.last());
    }
}

/// `n` votes of weight 1 for the ranking `t`.
pub open spec fn copies(t: Tiers, n: nat) -> Ballots {
    Seq::new(n, |i: int| (t, 1u32))
}

/// `n` equal votes of weight 1 weigh `n`.
proof fn lemma_weight_copies(t: Tiers, n: nat, p: spec_fn(Tiers) -> bool)
    ensures
        weight_where(copies(t, n), p) == if p(t) {
            n
        } else {
            0
        },
    decreases n,
{
    if n > 0 {
        lemma_weight_copies(t, (n - 1) as nat, p);
        assert(copies(t, n).drop_last() == copies(t, (n - 1) as nat));
        assert(copies(t, n).last() == (t, 1u32));
    }
}

/// A vote of weight `n` says the same as `n` votes of weight 1.
pub proof fn lemma_weight_support(before: Ballots, t: Tiers, n: u32, after: Ballots)
    requires
        n >= 1,
    ensures
        same_support(before + seq![(t, n)] + after, before + copies(t, n as nat) + after),
{
    let one = seq![(t, n)];
    let many = copies(t, n as nat);
    let a = before + one + after;
    let b = before + many + after;
    assert forall|s: Tiers| occurs(a, s) <==> occurs(b, s) by {
        if occurs(a, s) {
            let v = choose|v: int| 0 <= v < a.len() && (#[trigger] a[v]).0 == s;
            if v < before.len() {
                assert(b[v].0 == s);
            } else if v == before.len() {
                assert(b[v] == many[0]);
                assert(b[v].0 == s);
            } else {
                assert(a[v] == after[v - before.len() - 1]);
                assert(b[v - 1 + n] == after[v - before.len() - 1]);
                assert(b[v - 1 + n].0 == s);
            }
        }
        if occurs(b, s) {
            let v = choose|v: int| 0 <= v < b.len() && (#[trigger] b[v]).0 == s;
            if v < before.len() {
                assert(a[v].0 == s);
            } else if v < before.len() + n {
                assert(b[v] == many[v - before.len()]);
                assert(a[before.len() as int] == one[0]);
                assert(a[before.len() as int].0 == s);
            } else {
                assert(b[v] == after[v - before.len() - n]);
                assert(a[v - n + 1] == after[v - before.len() - n]);
                assert(a[v - n + 1].0 == s);
            }
        }
    }
    assert forall|p: spec_fn(Tiers) -> bool| #[trigger]
        weight_where(a, p) == weight_where(b, p) by {
        lemma_weight_concat(before + one, after, p);
        lemma_weight_concat(before, one, p);
        lemma_weight_concat(before + many, after, p);
        lemma_weight_concat(before, many, p);
        lemma_weight_copies(t, n as nat, p);
        assert(one.drop_last() == Seq::<(Tiers, u32)>::empty());
        assert(one.last() == (t, n));
        assert(weight_where(one.drop_last(), p) == 0);
        assert(weight_where(one, p) == share((t, n), p));
    }
}

/// The weight of a vote is the number of equal ballots that it stands
/// for: under every method a vote of weight `n` has the outcomes of `n`
/// votes of weight 1 in its place.
pub proof fn lemma_weight_is_multiplicity(
    before: Ballots,
    t: Tiers,
    n: u32,
    after: Ballots,
    method: Method,
    res: Result<Standing, VoteError>,
)
    requires
        n >= 1,
    ensures
        is_tally(before + seq![(t, n)] + after, method, res) == is_tally(
            before + copies(t, n as nat) + after,
            method,
            res,
        ),
{
    lemma_weight_support(before, t, n, after);
    lemma_same_support_same_tally(
        before + seq![(t, n)] + after,
        before + copies(t, n as nat) + after,
        method,
        res,
    );
}

/// Every vote that a line states has a positive weight, and its first
/// candidate, if it has one, stands on tier 0.
pub proof fn lemma_line_shape(line: Seq<char>)
    requires
        parse_line(line) is Some,
    ensures
        (parse_line(line)->0).1 >= 1,
        (parse_line(line)->0).0.len() > 0 ==> (parse_line(line)->0).0[0].1 == 0,
{
    let t = trim(line);
    if t.len() > 0 {
        let k = first_of(t, '*', '*');
        let r = ranking_of(t.take(k), 0)->0;
        assert(r[0].1 == 0);
    }
}

/// The listing of a single name.
proof fn lemma_canonical_single(c: Seq<char>)
    ensures
        canonical(seq![c]) == seq![c],
{
    let list = seq![c];
    assert(list.drop_last() == Seq::<Seq<char>>::empty());
    assert(canonical(list.drop_last()) == Seq::<Seq<char>>::empty());
    assert(canonical(list) == Seq::<Seq<char>>::empty().insert(0, c));
    assert(Seq::<Seq<char>>::empty().insert(0, c) == seq![c]);
}

/// The weight of a kind of ranking is no less than what one vote adds
/// to it.
proof fn lemma_weight_at_least(votes: Ballots, v: int, p: spec_fn(Tiers) -> bool)
    requires
        0 <= v < votes.len(),
    ensures
        weight_where(votes, p) >= share(votes[v], p),
{
    lemma_weight_remove(votes, v, p);
}

/// An election with a single candidate: whatever the method, the
/// candidate stands alone on rank 0.
pub proof fn lemma_single_candidate(
    text: Seq<char>,
    method: Seq<char>,
    c: Seq<char>,
    res: Result<Standing, VoteError>,
)
    requires
        parse_text(text) is Ok,
        candidate_list(parse_text(text)->Ok_0) == seq![c],
        method_named(method) is Some,
        is_outcome(text, method, res),
    ensures
        res == Ok::<Standing, VoteError>(seq![(c, 0nat)]),
{
    let lines = split_lines(text);
    let votes = votes_of(lines);
    let names = seq![c];
    lemma_canonical(ballot_names(votes));
    lemma_canonical_single(c);
    // every vote is empty or names the candidate alone, on tier 0
    assert forall|v: int| 0 <= v < votes.len() implies (#[trigger] votes[v]).1 >= 1 && (
    votes[v].0.len() == 0 || votes[v].0 == seq![(c, 0u32)]) by {
        let t = votes[v].0;
        assert(votes[v] == parse_line(lines[v])->0);
        assert(parse_line(lines[v]) is Some);
        lemma_line_shape(lines[v]);
        assert(!has_repeat(t));
        assert forall|e: int| 0 <= e < t.len() implies (#[trigger] t[e]).0 == c by {
            assert(tier_names(t)[e] == t[e].0);
            assert(tier_names(t).contains(t[e].0));
            assert(occurs(votes, t));
            lemma_ballot_names(votes, t[e].0);
            assert(names.contains(t[e].0));
        }
        if t.len() > 1 {
            assert(t[0].0 == t[1].0);
        }
        if t.len() == 1 {
            assert(t =~= seq![(c, 0u32)]);
        }
    }
    // somebody votes for the candidate
    assert(names[0] == c);
    assert(ballot_names(votes).contains(c));
    lemma_ballot_names(votes, c);
    let t0 = choose|t: Tiers| occurs(votes, t) && #[trigger] tier_names(t).contains(c);
    let v0 = choose|v: int| 0 <= v < votes.len() && (#[trigger] votes[v]).0 == t0;
    assert(t0.len() > 0);
    let full = seq![(c, 0u32)];
    assert(full.drop_last() == Seq::<(Seq<char>, u32)>::empty());
    assert(first_tier(full.drop_last()) == Seq::<Seq<char>>::empty());
    assert(first_tier(full) == seq![c]);
    assert(!some_vote_ambiguous(votes));
    let u = first_choices(votes);
    lemma_total_by_weight(votes, c);
    lemma_weight_at_least(votes, v0, chooses(c));
    assert(chooses(c)(t0));
    let total = total_weight(u, c);
    assert(total >= 1);
    match method_named(method)->0 {
        Method::SchulzeWinning => {},
        Method::Plurality => {
            let totals = totals_of(u, names);
            assert(totals[0] == total);
            reveal_with_fuel(count_above, 2);
            reveal_with_fuel(rank_block, 2);
            reveal_with_fuel(arrange_upto, 2);
            let ranks = competition_ranks(totals);
            let keep = supported(totals);
            assert(ranks[0] == 0);
            assert(keep[0]);
            assert(rank_block(names, ranks, keep, 0, 1) == seq![(c, 0nat)]);
            assert(arrange(names, ranks, keep) == seq![(c, 0nat)]);
        },
        Method::WeightedRandom => {
            let listed = canonical(choice_names(u));
            lemma_canonical(choice_names(u));
            assert forall|x: Seq<char>| listed.contains(x) <==> names.contains(x) by {
                lemma_choice_names(votes, x);
                if listed.contains(x) {
                    let t = choose|t: Tiers| occurs(votes, t) && #[trigger] chooses(x)(t);
                    let v = choose|v: int| 0 <= v < votes.len() && (#[trigger] votes[v]).0 == t;
                    assert(x == c);
                    assert(names[0] == x);
                }
                if names.contains(x) {
                    assert(x == c);
                    assert(occurs(votes, t0) && chooses(x)(t0));
                }
            }
            assert(strictly_sorted(names));
            lemma_sorted_unique(listed, names);
            let pool = consolidated(u);
            assert(pool == seq![(c, total)]);
            assert(pool.drop_first() == Seq::<(Seq<char>, nat)>::empty());
            assert(pool_weight(pool.drop_first()) == 0);
            assert(pool_weight(pool) == total);
            let rolls = choose|rolls: Seq<nat>|
                res matches Ok(r) && #[trigger] lottery_ranking(pool, rolls) == Some(r);
            assert(pick(pool, rolls[0]) == 0);
            assert(pool.remove(0) == Seq::<(Seq<char>, nat)>::empty());
            let rest = lottery(pool.remove(0), rolls.drop_first());
            assert(rest == Some(Seq::<Seq<char>>::empty()));
            let winners = lottery(pool, rolls)->0;
            assert(winners == seq![c] + Seq::<Seq<char>>::empty());
            assert(by_position(winners) == seq![(c, 0nat)]);
        },
    }
}

/// `n` lines that read `line`.
pub open spec fn repeated(line: Seq<char>, n: nat) -> Seq<Seq<char>> {
    Seq::new(n, |i: int| line)
}

/// What two runs of lines hold, one after the other.
proof fn lemma_lines_concat(a: Seq<Seq<char>>, b: Seq<Seq<char>>)
    ensures
        some_line_malformed(a + b) == (some_line_malformed(a) || some_line_malformed(b)),
        some_line_repeats(a + b) == (some_line_repeats(a) || some_line_repeats(b)),
        votes_of(a + b) == votes_of(a) + votes_of(b),
{
    let all = a + b;
    if some_line_malformed(a) {
        let i = choose|i: int| 0 <= i < a.len() && parse_line(#[trigger] a[i]) is None;
        assert(all[i] == a[i]);
    }
    if some_line_malformed(b) {
        let i = choose|i: int| 0 <= i < b.len() && parse_line(#[trigger] b[i]) is None;
        assert(all[a.len() + i] == b[i]);
    }
    if some_line_malformed(all) {
        let i = choose|i: int| 0 <= i < all.len() && parse_line(#[trigger] all[i]) is None;
        if i < a.len() {
            assert(a[i] == all[i]);
        } else {
            assert(b[i - a.len()] == all[i]);
        }
    }
    if some_line_repeats(a) {
        let i = choose|i: int|
            0 <= i < a.len() && parse_line(#[trigger] a[i]) is Some && has_repeat(
                (parse_line(a[i])->0).0,
            );
        assert(all[i] == a[i]);
    }
    if some_line_repeats(b) {
        let i = choose|i: int|
            0 <= i < b.len() && parse_line(#[trigger] b[i]) is Some && has_repeat(
                (parse_line(b[i])->0).0,
            );
        assert(all[a.len() + i] == b[i]);
    }
    if some_line_repeats(all) {
        let i = choose|i: int|
            0 <= i < all.len() && parse_line(#[trigger] all[i]) is Some && has_repeat(
                (parse_line(all[i])->0).0,
            );
        if i < a.len() {
            assert(a[i] == all[i]);
        } else {
            assert(b[i - a.len()] == all[i]);
        }
    }
    assert(votes_of(all) =~= votes_of(a) + votes_of(b));
}

/// What a run of equal lines holds.
proof fn lemma_lines_repeated(line: Seq<char>, n: nat)
    requires
        n >= 1,
        parse_line(line) is Some,
    ensures
        !some_line_malformed(repeated(line, n)),
        some_line_repeats(repeated(line, n)) == has_repeat((parse_line(line)->0).0),
        votes_of(repeated(line, n)) == Seq::new(n, |i: int| parse_line(line)->0),
{
    let run = repeated(line, n);
    assert(run[0] == line);
    assert(votes_of(run) =~= Seq::new(n, |i: int| parse_line(line)->0));
    if some_line_repeats(run) {
        let i = choose|i: int|
            0 <= i < run.len() && parse_line(#[trigger] run[i]) is Some && has_repeat(
                (parse_line(run[i])->0).0,
            );
        assert(run[i] == line);
    }
}

/// A line with the weight `n` counts like `n` lines without it: where one
/// text holds a line that states a ranking with the weight `n`, and
/// another holds in its place `n` lines that state the same ranking with
/// the weight 1, the two have the same outcomes under every method.
pub proof fn lemma_weighted_line(
    before: Seq<Seq<char>>,
    heavy: Seq<char>,
    light: Seq<char>,
    n: u32,
    after: Seq<Seq<char>>,
    first: Seq<char>,
    second: Seq<char>,
    method: Seq<char>,
    res: Result<Standing, VoteError>,
)
    requires
        n >= 1,
        parse_line(light) is Some,
        parse_line(heavy) == Some(((parse_line(light)->0).0, n)),
        (parse_line(light)->0).1 == 1,
        split_lines(first) == before + seq![heavy] + after,
        split_lines(second) == before + repeated(light, n as nat) + after,
    ensures
        is_outcome(first, method, res) == is_outcome(second, method, res),
{
    let t = (parse_line(light)->0).0;
    let one = seq![heavy];
    let many = repeated(light, n as nat);
    lemma_lines_concat(before, one);
    lemma_lines_concat(before + one, after);
    lemma_lines_concat(before, many);
    lemma_lines_concat(before + many, after);
    assert(one == repeated(heavy, 1));
    lemma_lines_repeated(heavy, 1);
    lemma_lines_repeated(light, n as nat);
    assert(votes_of(one) =~= seq![(t, n)]);
    assert(votes_of(many) =~= copies(t, n as nat));
    match method_named(method) {
        Some(m) => {
            lemma_weight_is_multiplicity(votes_of(before), t, n, votes_of(after), m, res);
        },
        None => {},
    }
}

/// Whether a ranked vote is formed as the grammar forms it: every name
/// holds a character, the first candidate stands on tier 0, and each
/// further one on the tier of the one before it or on the next.
pub open spec fn well_tiered(t: Tiers, from: nat) -> bool {
    &&& forall|e: int| 0 <= e < t.len() ==> (#[trigger] t[e]).0.len() > 0
    &&& t.len() > 0 ==> t[0].1 == from
    &&& forall|e: int|
        0 <= e < t.len() - 1 ==> (#[trigger] t[e + 1]).1 == t[e].1 || t[e + 1].1 == t[e].1 + 1
}

/// The candidates of a line stand on tiers that start at the given one
/// and go down step by step.
proof fn lemma_ranking_shape(s: Seq<char>, tier: nat)
    requires
        ranking_of(s, tier) is Some,
    ensures
        (ranking_of(s, tier)->0).len() > 0,
        well_tiered(ranking_of(s, tier)->0, tier),
    decreases s.len(),
{
    let k = first_of(s, '>', '=');
    lemma_first_of(s, '>', '=');
    let r = ranking_of(s, tier)->0;
    if k < s.len() {
        let next = if s[k] == '>' {
            tier + 1
        } else {
            tier
        };
        let rest = ranking_of(s.skip(k + 1), next as nat)->0;
        lemma_ranking_shape(s.skip(k + 1), next as nat);
        assert(r == seq![(trim(s.take(k)), tier as u32)] + rest);
        assert forall|e: int| 0 <= e < r.len() implies (#[trigger] r[e]).0.len() > 0 by {
            if e > 0 {
                assert(r[e] == rest[e - 1]);
            }
        }
        assert forall|e: int| 0 <= e < r.len() - 1 implies (#[trigger] r[e + 1]).1 == r[e].1
            || r[e + 1].1 == r[e].1 + 1 by {
            assert(r[e + 1] == rest[e]);
            if e > 0 {
                assert(r[e] == rest[e - 1]);
                assert(rest[e - 1 + 1] == rest[e]);
            }
        }
    }
}

/// What the grammar promises of the votes that it reads: no vote names a
/// candidate twice, every weight is positive, every name holds a
/// character, and the tiers of a vote start at 0 and go down step by
/// step.
pub proof fn lemma_parsed_votes(text: Seq<char>, v: int)
    requires
        parse_text(text) is Ok,
        0 <= v < (parse_text(text)->Ok_0).len(),
    ensures
        !has_repeat((parse_text(text)->Ok_0)[v].0),
        (parse_text(text)->Ok_0)[v].1 >= 1,
        well_tiered((parse_text(text)->Ok_0)[v].0, 0),
{
    let lines = split_lines(text);
    let line = lines[v];
    assert(parse_line(line) is Some);
    assert(votes_of(lines)[v] == parse_line(line)->0);
    let t = trim(line);
    if t.len() > 0 {
        lemma_ranking_shape(t.take(first_of(t, '*', '*')), 0);
    }
}

/// Whether a name is as the grammar takes it from a line: it holds a
/// character, neither starts nor ends with white space, and holds none of
/// `*`, `>`, `=` and no line feed.
pub open spec fn plain_name(name: Seq<char>) -> bool {
    &&& name.len() > 0
    &&& !is_space(name[0])
    &&& !is_space(name.last())
    &&& forall|i: int|
        0 <= i < name.len() ==> name[i] != '*' && name[i] != '>' && name[i] != '=' && name[i]
            != '\n'
}

/// No line holds a line feed.
proof fn lemma_lines_hold_no_feed(text: Seq<char>, v: int)
    requires
        0 <= v < split_lines(text).len(),
    ensures
        forall|i: int| 0 <= i < split_lines(text)[v].len() ==> split_lines(text)[v][i] != '\n',
    decreases text.len(),
{
    let k = first_of(text, '\n', '\n');
    lemma_first_of(text, '\n', '\n');
    if text.len() > 0 && k < text.len() && v > 0 {
        let rest = text.skip(k + 1);
        assert(split_lines(text)[v] == split_lines(rest)[v - 1]);
        lemma_lines_hold_no_feed(rest, v - 1);
    }
}

/// The names of a ranking are plain.
proof fn lemma_ranking_names(s: Seq<char>, tier: nat, e: int)
    requires
        ranking_of(s, tier) is Some,
        0 <= e < (ranking_of(s, tier)->0).len(),
        forall|i: int| 0 <= i < s.len() ==> s[i] != '*' && s[i] != '\n',
    ensures
        plain_name((ranking_of(s, tier)->0)[e].0),
    decreases s.len(),
{
    let k = first_of(s, '>', '=');
    lemma_first_of(s, '>', '=');
    let r = ranking_of(s, tier)->0;
    if e == 0 {
        let piece = s.take(k);
        let name = trim(piece);
        assert(r[0].0 == name);
        lemma_trim(piece);
        assert forall|i: int| 0 <= i < name.len() implies name[i] != '*' && name[i] != '>'
            && name[i] != '=' && name[i] != '\n' by {
            lemma_trim_within(piece, i);
            let j = leading_spaces(piece) + i;
            assert(piece[j] == s[j]);
        }
    } else {
        let next = if s[k] == '>' {
            tier + 1
        } else {
            tier
        };
        let rest = s.skip(k + 1);
        assert(r == seq![(trim(s.take(k)), tier as u32)] + ranking_of(rest, next as nat)->0);
        assert(r[e] == (ranking_of(rest, next as nat)->0)[e - 1]);
        assert forall|i: int| 0 <= i < rest.len() implies rest[i] != '*' && rest[i] != '\n' by {
            assert(rest[i] == s[k + 1 + i]);
        }
        lemma_ranking_names(rest, next as nat, e - 1);
    }
}

/// Every name that the grammar reads is plain.
pub proof fn lemma_parsed_names(text: Seq<char>, v: int, e: int)
    requires
        parse_text(text) is Ok,
        0 <= v < (parse_text(text)->Ok_0).len(),
        0 <= e < (parse_text(text)->Ok_0)[v].0.len(),
    ensures
        plain_name((parse_text(text)->Ok_0)[v].0[e].0),
{
    let lines = split_lines(text);
    let line = lines[v];
    assert(parse_line(line) is Some);
    assert(votes_of(lines)[v] == parse_line(line)->0);
    lemma_lines_hold_no_feed(text, v);
    let t = trim(line);
    let k = first_of(t, '*', '*');
    lemma_first_of(t, '*', '*');
    let s = t.take(k);
    assert forall|i: int| 0 <= i < s.len() implies s[i] != '*' && s[i] != '\n' by {
        lemma_trim_within(line, i);
        assert(s[i] == t[i]);
    }
    lemma_ranking_names(s, 0, e);
}

} // verus!

//! The weighted lottery: candidates are drawn one after another, each
//! with a chance in proportion to the weight of its first-choice votes.

use crate::ballot::{Ranking, WeightedUnrankedVote};
use crate::names::{canonical, lemma_canonical, lemma_name_lt_irreflexive, name_lt, strictly_sorted};
use crate::plurality::wide_nats;
use crate::project::{
    choice_names, consolidate_unranked_votes, consolidated, pool_view, total_weight, Choices,
};
use crate::standing::{ranking_view, Standing};
use vstd::prelude::*;

verus! {

/// The model of the pool of a lottery: the candidates still to be drawn,
/// each with its weight.
pub type Pool = Seq<(Seq<char>, nat)>;

/// The weight of all candidates of the pool together.
pub open spec fn pool_weight(pool: Pool) -> nat
    decreases pool.len(),
{
    if pool.len() == 0 {
        0
    } else {
        pool[0].1 + pool_weight(pool.drop_first())
    }
}

/// The position of the candidate that `roll` falls on: walking through
/// the pool, each candidate takes as many numbers as its weight says, the
/// first candidate those from 1 on.
pub open spec fn pick(pool: Pool, roll: nat) -> int
    decreases pool.len(),
{
    if pool.len() == 0 || roll <= pool[0].1 {
        0
    } else {
        1 + pick(pool.drop_first(), (roll - pool[0].1) as nat)
    }
}

/// The candidates in the order in which the rolls draw them from the
/// pool. Each roll must lie between 1 and the weight that is left; the
/// candidate it falls on leaves the pool. The lottery ends when no weight
/// is left, and there must be one roll for each draw and no more: else
/// there is no outcome.
pub open spec fn lottery(pool: Pool, rolls: Seq<nat>) -> Option<Seq<Seq<char>>>
    decreases pool.len(),
    via lottery_decreases
{
    if pool_weight(pool) == 0 {
        if rolls.len() == 0 {
            Some(Seq::empty())
        } else {
            None
        }
    } else if rolls.len() == 0 || rolls[0] < 1 || rolls[0] > pool_weight(pool) {
        None
    } else {
        match lottery(pool.remove(pick(pool, rolls[0])), rolls.drop_first()) {
            None => None,
            Some(rest) => Some(seq![pool[pick(pool, rolls[0])].0] + rest),
        }
    }
}

#[via_fn]
proof fn lottery_decreases(pool: Pool, rolls: Seq<nat>) {
    if pool_weight(pool) != 0 && rolls.len() > 0 && 1 <= rolls[0] <= pool_weight(pool) {
        lemma_pick(pool, rolls[0]);
    }
}

/// The ranking in which each candidate holds the rank of its position.
pub open spec fn by_position(winners: Seq<Seq<char>>) -> Standing {
    Seq::new(winners.len(), |i: int| (winners[i], i as nat))
}

/// The ranking that the rolls give: the candidates in the order of their
/// draw, the first on rank 0.
pub open spec fn lottery_ranking(pool: Pool, rolls: Seq<nat>) -> Option<Standing> {
    match lottery(pool, rolls) {
        None => None,
        Some(winners) => Some(by_position(winners)),
    }
}

/// A roll within the weight of the pool falls on a candidate of the pool,
/// and on one with a weight of its own.
pub proof fn lemma_pick(pool: Pool, roll: nat)
    requires
        1 <= roll <= pool_weight(pool),
    ensures
        0 <= pick(pool, roll) < pool.len(),
        pool[pick(pool, roll)].1 >= 1,
        pool_weight(pool.remove(pick(pool, roll))) == pool_weight(pool) - pool[pick(
            pool,
            roll,
        )].1,
    decreases pool.len(),
{
    if pool.len() == 0 || roll <= pool[0].1 {
        assert(pool.remove(0) == pool.drop_first());
    } else {
        let rest = pool.drop_first();
        let r = (roll - pool[0].1) as nat;
        lemma_pick(rest, r);
        let i = pick(rest, r);
        assert(pool.remove(i + 1).drop_first() == rest.remove(i));
        assert(pool.remove(i + 1)[0] == pool[0]);
    }
}

/// Where two pools differ in the weight of at most one candidate, and
/// there by at most `w`, their weights differ by at most `w`.
proof fn lemma_pool_weight_step(p: Pool, q: Pool, w: nat)
    requires
        p.len() == q.len(),
        forall|i: int| 0 <= i < p.len() ==> q[i].1 == p[i].1 || q[i].1 == p[i].1 + w,
        forall|i: int, j: int| 0 <= i < j < p.len() ==> q[i].1 == p[i].1 || q[j].1 == p[j].1,
    ensures
        pool_weight(q) <= pool_weight(p) + w,
        (forall|i: int| 0 <= i < p.len() ==> q[i].1 == p[i].1) ==> pool_weight(q) == pool_weight(
            p,
        ),
    decreases p.len(),
{
    if p.len() > 0 {
        let p_rest = p.drop_first();
        let q_rest = q.drop_first();
        assert forall|i: int| 0 <= i < p_rest.len() implies q_rest[i].1 == p_rest[i].1
            || q_rest[i].1 == p_rest[i].1 + w by {
            assert(q_rest[i] == q[i + 1] && p_rest[i] == p[i + 1]);
        }
        assert forall|i: int, j: int| 0 <= i < j < p_rest.len() implies q_rest[i].1 == p_rest[i].1
            || q_rest[j].1 == p_rest[j].1 by {
            assert(q_rest[i] == q[i + 1] && p_rest[i] == p[i + 1]);
            assert(q_rest[j] == q[j + 1] && p_rest[j] == p[j + 1]);
        }
        lemma_pool_weight_step(p_rest, q_rest, w);
        if q[0].1 != p[0].1 {
            assert forall|i: int| 0 <= i < p_rest.len() implies q_rest[i].1 == p_rest[i].1 by {
                assert(q_rest[i] == q[i + 1] && p_rest[i] == p[i + 1]);
            }
        }
        if forall|i: int| 0 <= i < p.len() ==> q[i].1 == p[i].1 {
            assert forall|i: int| 0 <= i < p_rest.len() implies q_rest[i].1 == p_rest[i].1 by {
                assert(q_rest[i] == q[i + 1] && p_rest[i] == p[i + 1]);
            }
        }
    }
}

/// The names with the weight that the votes give to each.
pub open spec fn weighted(votes: Choices, names: Seq<Seq<char>>) -> Pool {
    Seq::new(names.len(), |i: int| (names[i], total_weight(votes, names[i])))
}

/// The weight of a pool of distinct candidates is bounded by the number
/// of the votes.
proof fn lemma_weighted_bound(votes: Choices, names: Seq<Seq<char>>)
    requires
        strictly_sorted(names),
    ensures
        pool_weight(weighted(votes, names)) <= votes.len() * u32::MAX,
    decreases votes.len(),
{
    if votes.len() == 0 {
        let zero = weighted(votes, names);
        lemma_pool_weight_zero(zero);
    } else {
        let head = votes.drop_last();
        let w = votes.last().1 as nat;
        lemma_weighted_bound(head, names);
        let p = weighted(head, names);
        let q = weighted(votes, names);
        assert forall|i: int, j: int| 0 <= i < j < p.len() implies q[i].1 == p[i].1 || q[j].1
            == p[j].1 by {
            lemma_name_lt_irreflexive(names[i]);
            assert(name_lt(names[i], names[j]));
        }
        lemma_pool_weight_step(p, q, w);
        assert(votes.len() * u32::MAX == (votes.len() - 1) * u32::MAX + u32::MAX)
            by (nonlinear_arith);
    }
}

/// A pool in which nobody has any weight weighs nothing.
proof fn lemma_pool_weight_zero(pool: Pool)
    requires
        forall|i: int| 0 <= i < pool.len() ==> (#[trigger] pool[i]).1 == 0,
    ensures
        pool_weight(pool) == 0,
    decreases pool.len(),
{
    if pool.len() > 0 {
        let rest = pool.drop_first();
        assert forall|i: int| 0 <= i < rest.len() implies (#[trigger] rest[i]).1 == 0 by {
            assert(rest[i] == pool[i + 1]);
        }
        lemma_pool_weight_zero(rest);
    }
}

/// The weight of the consolidated votes is bounded by their number.
pub proof fn lemma_consolidated_bound(votes: Choices)
    ensures
        pool_weight(consolidated(votes)) <= votes.len() * u32::MAX,
{
    lemma_canonical(choice_names(votes));
    lemma_weighted_bound(votes, canonical(choice_names(votes)));
    assert(consolidated(votes) =~= weighted(votes, canonical(choice_names(votes))));
}

/// One draw of `rand`: `Uniform::from(1..=total)`, sampled with the
/// generator of `thread_rng()`. Taken on trust from `rand`: a sampler made
/// for a closed range, which must not be empty, returns a number of that
/// range. That each number of the range is as likely as any other is the
/// promise of `rand` too; no contract here states it.
#[verifier::external_body]
fn uniform_roll(total: u128) -> (roll: u128)
    requires
        total >= 1,
    ensures
        1 <= roll <= total,
{
    rand::distributions::Distribution::sample(
        &rand::distributions::Uniform::from(1..=total),
        &mut rand::thread_rng(),
    )
}

/// The weight of the pool.
fn pool_total(pool: &Vec<(String, u128)>) -> (total: u128)
    requires
        pool_weight(pool_view(pool@)) <= u128::MAX,
    ensures
        total == pool_weight(pool_view(pool@)),
{
    let ghost model = pool_view(pool@);
    let mut total: u128 = 0;
    let mut i: usize = 0;
    assert(model.skip(0) == model);
    while i < pool.len()
        invariant
            i <= pool@.len(),
            model == pool_view(pool@),
            pool_weight(model) <= u128::MAX,
            pool_weight(model) == total + pool_weight(model.skip(i as int)),
        decreases pool@.len() - i,
    {
        assert(model.skip(i as int).drop_first() == model.skip(i + 1));
        assert(model.skip(i as int)[0].1 == pool@[i as int].1);
        total = total + pool[i].1;
        i += 1;
    }
    total
}

/// The position of the candidate that `roll` falls on.
pub fn pick_winner(pool: &Vec<(String, u128)>, roll: u128) -> (i: usize)
    requires
        1 <= roll <= pool_weight(pool_view(pool@)),
    ensures
        i == pick(pool_view(pool@), roll as nat),
        i < pool@.len(),
{
    let ghost model = pool_view(pool@);
    let n = pool.len();
    let mut left: u128 = roll;
    let mut i: usize = 0;
    assert(model.skip(0) == model);
    proof {
        lemma_pick(model, roll as nat);
    }
    loop
        invariant
            i <= pool@.len() == n,
            model == pool_view(pool@),
            1 <= left <= pool_weight(model.skip(i as int)),
            pick(model, roll as nat) == i + pick(model.skip(i as int), left as nat),
            pick(model, roll as nat) < pool@.len(),
        ensures
            i == pick(model, roll as nat),
            i < pool@.len(),
        decreases pool@.len() - i,
    {
        assert(i < pool@.len());
        assert(model.skip(i as int).drop_first() == model.skip(i + 1));
        assert(model.skip(i as int)[0].1 == pool@[i as int].1);
        let weight: u128 = pool[i].1;
        if left <= weight {
            break ;
        }
        left = left - weight;
        i += 1;
    }
    i
}

/// Draws the candidate that `roll` falls on: it leaves the pool and
/// joins the winners, on the rank of its position among them.
fn draw(pool: &mut Vec<(String, u128)>, left: &mut u128, winners: &mut Ranking, roll: u128)
    requires
        *old(left) == pool_weight(pool_view(old(pool)@)),
        1 <= roll <= *old(left),
    ensures
        pool_view(final(pool)@) == pool_view(old(pool)@).remove(
            pick(pool_view(old(pool)@), roll as nat),
        ),
        *final(left) == pool_weight(pool_view(final(pool)@)),
        final(pool)@.len() < old(pool)@.len(),
        ranking_view(final(winners)@) == ranking_view(old(winners)@).push(
            (
                pool_view(old(pool)@)[pick(pool_view(old(pool)@), roll as nat)].0,
                old(winners)@.len() as nat,
            ),
        ),
{
    let ghost before = pool_view(pool@);
    let ghost won = ranking_view(winners@);
    let i = pick_winner(pool, roll);
    proof {
        lemma_pick(before, roll as nat);
    }
    let entry = pool.remove(i);
    assert(pool_view(pool@) == before.remove(i as int));
    assert(before[i as int] == (entry.0@, entry.1 as nat));
    *left = *left - entry.1;
    let rank = winners.len();
    winners.push((entry.0, rank));
    assert(ranking_view(winners@) == won.push((before[i as int].0, rank as nat)));
}

/// What a lottery comes to once some candidates are drawn: the winners so
/// far, then whatever the rolls still to come draw from what is left.
pub open spec fn resume(won: Seq<Seq<char>>, rest: Option<Seq<Seq<char>>>) -> Option<
    Seq<Seq<char>>,
> {
    match rest {
        None => None,
        Some(r) => Some(won + r),
    }
}

/// The names of a ranking, in its order.
pub open spec fn ranked_names(r: Standing) -> Seq<Seq<char>> {
    r.map_values(|e: (Seq<char>, nat)| e.0)
}

/// The lottery with the rolls given: each draw takes the next of them.
///
/// Returns the candidates with a positive weight in the order of their
/// draw, the first on rank 0. There is no outcome, and `None` is returned,
/// unless `rolls` holds one roll for each draw, each between 1 and the
/// weight that is left in the pool at its turn.
pub fn lottery_with_rolls(votes: &WeightedUnrankedVote, rolls: &Vec<u128>) -> (res: Option<
    Ranking,
>)
    ensures
        match res {
            Some(r) => lottery_ranking(consolidated(votes.deep_view()), wide_nats(rolls@))
                == Some(ranking_view(r@)),
            None => lottery_ranking(consolidated(votes.deep_view()), wide_nats(rolls@)) is None,
        },
{
    let mut pool = consolidate_unranked_votes(votes);
    let ghost start = pool_view(pool@);
    let ghost all = wide_nats(rolls@);
    let count = votes.len();
    proof {
        lemma_consolidated_bound(votes.deep_view());
        assert(count * u32::MAX <= usize::MAX * u32::MAX) by (nonlinear_arith)
            requires
                count <= usize::MAX,
        ;
    }
    let mut left = pool_total(&pool);
    let mut winners: Ranking = Vec::new();
    let mut k: usize = 0;
    assert(all.skip(0) == all);
    assert(ranking_view(winners@) == by_position(Seq::<Seq<char>>::empty()));
    assert(ranked_names(ranking_view(winners@)) == Seq::<Seq<char>>::empty());
    assert(forall|s: Seq<Seq<char>>| Seq::<Seq<char>>::empty() + s == s);
    while left > 0
        invariant
            k <= rolls@.len(),
            k == winners@.len(),
            all == wide_nats(rolls@),
            start == consolidated(votes.deep_view()),
            left == pool_weight(pool_view(pool@)),
            ranking_view(winners@) == by_position(ranked_names(ranking_view(winners@))),
            lottery(start, all) == resume(
                ranked_names(ranking_view(winners@)),
                lottery(pool_view(pool@), all.skip(k as int)),
            ),
        decreases pool@.len(),
    {
        if k >= rolls.len() {
            return None;
        }
        let roll = rolls[k];
        assert(all.skip(k as int)[0] == roll as nat);
        if roll < 1 || roll > left {
            return None;
        }
        let ghost cur = pool_view(pool@);
        let ghost won = ranked_names(ranking_view(winners@));
        assert(all.skip(k as int).drop_first() == all.skip(k + 1));
        draw(&mut pool, &mut left, &mut winners, roll);
        proof {
            lemma_pick(cur, roll as nat);
            let name = cur[pick(cur, roll as nat)].0;
            assert(ranked_names(ranking_view(winners@)) == won.push(name));
            assert(ranking_view(winners@) == by_position(won.push(name)));
            assert forall|s: Seq<Seq<char>>| won + (seq![name] + s) == #[trigger] (won.push(name)
                + s) by {
                assert(won + (seq![name] + s) =~= won.push(name) + s);
            }
        }
        k += 1;
    }
    if k < rolls.len() {
        assert(all.skip(k as int).len() > 0);
        return None;
    }
    assert(all.skip(k as int).len() == 0);
    proof {
        let won = ranked_names(ranking_view(winners@));
        assert(won + Seq::<Seq<char>>::empty() == won);
    }
    Some(winners)
}

/// The weighted lottery: draws the candidates one after another, each
/// time one from those that are left, with a chance in proportion to the
/// weight of its first-choice votes.
///
/// The result holds the candidates with a positive weight in the order
/// of their draw, the first on rank 0. It is the outcome of the lottery
/// for the rolls that the random generator gave, each between 1 and the
/// weight left in the pool at its turn.
pub fn weighted_random(votes: &WeightedUnrankedVote) -> (r: Ranking)
    ensures
        exists|rolls: Seq<nat>|
            lottery_ranking(consolidated(votes.deep_view()), rolls) == Some(ranking_view(r@)),
{
    let mut pool = consolidate_unranked_votes(votes);
    let ghost start = pool_view(pool@);
    let count = votes.len();
    proof {
        lemma_consolidated_bound(votes.deep_view());
        assert(count * u32::MAX <= usize::MAX * u32::MAX) by (nonlinear_arith)
            requires
                count <= usize::MAX,
        ;
    }
    let mut left = pool_total(&pool);
    let mut winners: Ranking = Vec::new();
    let ghost mut drawn: Seq<nat> = Seq::empty();
    assert(ranking_view(winners@) == by_position(Seq::<Seq<char>>::empty()));
    assert(ranked_names(ranking_view(winners@)) == Seq::<Seq<char>>::empty());
    assert forall|rest: Seq<nat>| #[trigger]
        lottery(start, drawn + rest) == resume(
            ranked_names(ranking_view(winners@)),
            lottery(pool_view(pool@), rest),
        ) by {
        assert(drawn + rest == rest);
        match lottery(start, rest) {
            None => {},
            Some(s) => {
                assert(Seq::<Seq<char>>::empty() + s == s);
            },
        }
    }
    while left > 0
        invariant
            left == pool_weight(pool_view(pool@)),
            start == consolidated(votes.deep_view()),
            ranking_view(winners@) == by_position(ranked_names(ranking_view(winners@))),
            forall|rest: Seq<nat>| #[trigger]
                lottery(start, drawn + rest) == resume(
                    ranked_names(ranking_view(winners@)),
                    lottery(pool_view(pool@), rest),
                ),
        decreases pool@.len(),
    {
        let roll = uniform_roll(left);
        let ghost cur = pool_view(pool@);
        let ghost won = ranked_names(ranking_view(winners@));
        let ghost past = drawn;
        draw(&mut pool, &mut left, &mut winners, roll);
        proof {
            lemma_pick(cur, roll as nat);
            let name = cur[pick(cur, roll as nat)].0;
            drawn = past.push(roll as nat);
            assert(ranked_names(ranking_view(winners@)) == won.push(name));
            assert(ranking_view(winners@) == by_position(won.push(name)));
            assert forall|rest: Seq<nat>| #[trigger]
                lottery(start, drawn + rest) == resume(
                    won.push(name),
                    lottery(pool_view(pool@), rest),
                ) by {
                let more = seq![roll as nat] + rest;
                assert(past + more == drawn + rest);
                assert(lottery(start, past + more) == resume(won, lottery(cur, more)));
                assert(more[0] == roll as nat);
                assert(more.drop_first() == rest);
                match lottery(pool_view(pool@), rest) {
                    None => {},
                    Some(s) => {
                        assert(won + (seq![name] + s) == won.push(name) + s);
                    },
                }
            }
        }
    }
    proof {
        let won = ranked_names(ranking_view(winners@));
        let none = Seq::<nat>::empty();
        assert(drawn + none == drawn);
        assert(lottery(start, drawn + none) == resume(won, lottery(pool_view(pool@), none)));
        assert(won + Seq::<Seq<char>>::empty() == won);
        assert(lottery_ranking(start, drawn) == Some(ranking_view(winners@)));
    }
    winners
}

/// Whether the pool holds candidate `x` with a weight of its own.
pub open spec fn has_support(pool: Pool, x: Seq<char>) -> bool {
    exists|j: int| 0 <= j < pool.len() && #[trigger] pool[j] == (x, pool[j].1) && pool[j].1 > 0
}

/// Whether no candidate stands twice in the pool.
pub open spec fn distinct_names(pool: Pool) -> bool {
    forall|a: int, b: int| 0 <= a < b < pool.len() ==> pool[a].0 != pool[b].0
}

/// A pool that weighs nothing holds nobody with a weight.
proof fn lemma_weightless(pool: Pool, j: int)
    requires
        pool_weight(pool) == 0,
        0 <= j < pool.len(),
    ensures
        pool[j].1 == 0,
    decreases pool.len(),
{
    if j > 0 {
        lemma_weightless(pool.drop_first(), j - 1);
    }
}

/// The lottery draws every candidate with a weight of its own, each
/// once, and nobody else: its outcome is these candidates in some order.
pub proof fn lemma_lottery_draws_all(pool: Pool, rolls: Seq<nat>)
    requires
        distinct_names(pool),
        lottery(pool, rolls) is Some,
    ensures
        (lottery(pool, rolls)->0).no_duplicates(),
        forall|x: Seq<char>| (lottery(pool, rolls)->0).contains(x) <==> has_support(pool, x),
    decreases pool.len(),
{
    let w = lottery(pool, rolls)->0;
    if pool_weight(pool) == 0 {
        assert forall|x: Seq<char>| !has_support(pool, x) by {
            if has_support(pool, x) {
                let j = choose|j: int|
                    0 <= j < pool.len() && #[trigger] pool[j] == (x, pool[j].1) && pool[j].1 > 0;
                lemma_weightless(pool, j);
            }
        }
    } else {
        let i = pick(pool, rolls[0]);
        lemma_pick(pool, rolls[0]);
        let left = pool.remove(i);
        let rest = lottery(left, rolls.drop_first())->0;
        assert(w == seq![pool[i].0] + rest);
        assert forall|a: int, b: int| 0 <= a < b < left.len() implies left[a].0 != left[b].0 by {
            let a0 = if a < i { a } else { a + 1 };
            let b0 = if b < i { b } else { b + 1 };
            assert(left[a] == pool[a0] && left[b] == pool[b0]);
        }
        lemma_lottery_draws_all(left, rolls.drop_first());
        assert forall|x: Seq<char>| has_support(left, x) <==> has_support(pool, x) && x
            != pool[i].0 by {
            if has_support(left, x) {
                let j = choose|j: int|
                    0 <= j < left.len() && #[trigger] left[j] == (x, left[j].1) && left[j].1 > 0;
                let j0 = if j < i { j } else { j + 1 };
                assert(pool[j0] == left[j]);
                assert(pool[j0] == (x, pool[j0].1) && pool[j0].1 > 0);
                if j0 < i {
                    assert(pool[j0].0 != pool[i].0);
                } else {
                    assert(pool[i].0 != pool[j0].0);
                }
            }
            if has_support(pool, x) && x != pool[i].0 {
                let j = choose|j: int|
                    0 <= j < pool.len() && #[trigger] pool[j] == (x, pool[j].1) && pool[j].1 > 0;
                let j1 = if j < i { j } else { j - 1 };
                assert(left[j1] == pool[j]);
                assert(left[j1] == (x, left[j1].1) && left[j1].1 > 0);
            }
        }
        assert forall|x: Seq<char>| w.contains(x) <==> has_support(pool, x) by {
            if w.contains(x) {
                let k = choose|k: int| 0 <= k < w.len() && w[k] == x;
                if k == 0 {
                    assert(pool[i] == (x, pool[i].1) && pool[i].1 > 0);
                } else {
                    assert(rest[k - 1] == x);
                    assert(rest.contains(x));
                }
            }
            if has_support(pool, x) {
                if x == pool[i].0 {
                    assert(w[0] == x);
                } else {
                    assert(rest.contains(x));
                    let k = choose|k: int| 0 <= k < rest.len() && rest[k] == x;
                    assert(w[k + 1] == x);
                }
            }
        }
        assert forall|a: int, b: int| 0 <= a < w.len() && 0 <= b < w.len() && a != b implies w[a]
            != w[b] by {
            if a > 0 && b > 0 {
                assert(w[a] == rest[a - 1] && w[b] == rest[b - 1]);
            } else {
                let other = if a == 0 { b } else { a };
                assert(w[other] == rest[other - 1]);
                assert(rest.contains(rest[other - 1]));
                assert(has_support(left, rest[other - 1]));
            }
        }
    }
}

} // verus!

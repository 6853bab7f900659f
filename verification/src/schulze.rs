//! The Schulze tally, winning variant: candidates ranked by the strength
//! of the strongest paths of pairwise victories between them.

use crate::ballot::{has_repeat, Ballots, RankedVote, Ranking, Tiers, WeightedRankedVote};
use crate::errors::VoteError;
use crate::names::{
    canonical, lemma_canonical, lemma_name_lt_irreflexive, locate, name_lt, rows, strictly_sorted,
};
use crate::project::sorted_names;
use crate::standing::{
    arrange, arrange_ranking, arrange_upto, as_nats, in_order, lemma_arrange, lists_kept,
    rank_block, ranking_view, Standing,
};
use crate::text::{chars_of, string_of};
use vstd::prelude::*;

verus! {

/// The tier of a candidate that a vote does not name: below every tier
/// that a vote can state.
pub const UNLISTED: u64 = 0x1_0000_0000;

/// The tier on which the vote puts candidate `c`. A candidate that the
/// vote leaves out stands on `UNLISTED`, below all that it names. (Of a
/// vote that names `c` twice, which no tally accepts, the later entry
/// counts.)
pub open spec fn tier_of(vote: Tiers, c: Seq<char>) -> int
    decreases vote.len(),
{
    if vote.len() == 0 {
        UNLISTED as int
    } else if vote.last().0 == c {
        vote.last().1 as int
    } else {
        tier_of(vote.drop_last(), c)
    }
}

/// Whether the vote prefers `a` to `b`: it puts `a` on a strictly better
/// tier. Candidates on one tier, or both left out, are preferred neither
/// way.
pub open spec fn prefers(vote: Tiers, a: Seq<char>, b: Seq<char>) -> bool {
    tier_of(vote, a) < tier_of(vote, b)
}

/// The pairwise count: the weight of the votes that prefer `a` to `b`.
pub open spec fn pairwise(votes: Ballots, a: Seq<char>, b: Seq<char>) -> nat
    decreases votes.len(),
{
    if votes.len() == 0 {
        0
    } else if prefers(votes.last().0, a, b) {
        pairwise(votes.drop_last(), a, b) + votes.last().1 as nat
    } else {
        pairwise(votes.drop_last(), a, b)
    }
}

/// The pairwise counts between the names, row `i` holding the counts of
/// `names[i]` over each of the others.
pub open spec fn pairwise_matrix(votes: Ballots, names: Seq<Seq<char>>) -> Seq<Seq<nat>> {
    Seq::new(
        names.len(),
        |i: int| Seq::new(names.len(), |j: int| pairwise(votes, names[i], names[j])),
    )
}

/// The strength of the direct link from `i` to `j`: the pairwise count of
/// `i` over `j` where it is the greater of the two, else nothing.
pub open spec fn link(d: Seq<Seq<nat>>, i: int, j: int) -> nat {
    if d[i][j] > d[j][i] {
        d[i][j]
    } else {
        0
    }
}

/// The strength of the strongest path from `i` to `j` that passes only
/// through the first `k` candidates. The strength of a path is that of its
/// weakest link. Letting one more candidate `m` in, the strongest path
/// either avoids `m`, or is the strongest one to `m` followed by the
/// strongest one from `m`.
pub open spec fn strength(d: Seq<Seq<nat>>, k: nat, i: int, j: int) -> nat
    decreases k,
{
    if k == 0 {
        link(d, i, j)
    } else {
        let m = (k - 1) as nat;
        widest(strength(d, m, i, j), strength(d, m, i, m as int), strength(d, m, m as int, j))
    }
}

/// Whether `i` beats `j`: the strongest path from `i` to `j` is stronger
/// than the strongest one back.
pub open spec fn beats(d: Seq<Seq<nat>>, i: int, j: int) -> bool {
    strength(d, d.len(), i, j) > strength(d, d.len(), j, i)
}

/// How many of the first `upto` candidates beat `i`.
pub open spec fn count_beaters(d: Seq<Seq<nat>>, i: int, upto: nat) -> nat
    decreases upto,
{
    if upto == 0 {
        0
    } else if beats(d, upto - 1, i) {
        count_beaters(d, i, (upto - 1) as nat) + 1
    } else {
        count_beaters(d, i, (upto - 1) as nat)
    }
}

/// The rank of each candidate: the number of candidates that beat it.
pub open spec fn schulze_ranks(d: Seq<Seq<nat>>) -> Seq<nat> {
    Seq::new(d.len(), |i: int| count_beaters(d, i, d.len()))
}

/// Whether a tally over `names` accepts the vote: it names no candidate
/// twice and none outside `names`.
pub open spec fn valid_vote(vote: Tiers, names: Seq<Seq<char>>) -> bool {
    &&& !has_repeat(vote)
    &&& forall|e: int| 0 <= e < vote.len() ==> names.contains(#[trigger] vote[e].0)
}

/// Whether a tally over `names` refuses one of the votes.
pub open spec fn some_vote_invalid(votes: Ballots, names: Seq<Seq<char>>) -> bool {
    exists|v: int| 0 <= v < votes.len() && !valid_vote((#[trigger] votes[v]).0, names)
}

/// Everybody takes part.
pub open spec fn all_kept(n: nat) -> Seq<bool> {
    Seq::new(n, |i: int| true)
}

/// The Schulze ranking of the candidates. A single candidate stands
/// alone on rank 0 whatever the votes hold. Otherwise every vote must be
/// valid, every candidate takes part, and the rank of a candidate is the
/// number of candidates that beat it; candidates of one rank stand in the
/// lexical order of their names.
pub open spec fn schulze_ranking(votes: Ballots, candidates: Seq<Seq<char>>) -> Result<
    Standing,
    VoteError,
> {
    let names = canonical(candidates);
    if names.len() == 1 {
        Ok(seq![(names[0], 0nat)])
    } else if some_vote_invalid(votes, names) {
        Err(VoteError::InvalidVote)
    } else {
        Ok(arrange(names, schulze_ranks(pairwise_matrix(votes, names)), all_kept(names.len())))
    }
}

/// The pairwise count of some votes is bounded by their number.
pub proof fn lemma_pairwise_bound(votes: Ballots, a: Seq<char>, b: Seq<char>)
    ensures
        pairwise(votes, a, b) <= votes.len() * u32::MAX,
    decreases votes.len(),
{
    if votes.len() > 0 {
        lemma_pairwise_bound(votes.drop_last(), a, b);
        assert(votes.len() * u32::MAX == (votes.len() - 1) * u32::MAX + u32::MAX)
            by (nonlinear_arith);
    }
}

/// The numbers that a matrix holds.
pub open spec fn grid(m: Seq<Vec<u128>>) -> Seq<Seq<nat>> {
    Seq::new(m.len(), |i: int| Seq::new(m[i]@.len(), |j: int| m[i]@[j] as nat))
}

/// Whether the matrix has `n` rows of `n` numbers.
pub open spec fn square(m: Seq<Vec<u128>>, n: nat) -> bool {
    &&& m.len() == n
    &&& forall|i: int| 0 <= i < n ==> (#[trigger] m[i])@.len() == n
}

/// The tier of each of the names in the vote, or `None` where the vote is
/// not valid.
fn vote_tiers(names: &Vec<Vec<char>>, vote: &RankedVote) -> (r: Option<Vec<u64>>)
    requires
        strictly_sorted(rows(names@)),
    ensures
        r is Some <==> valid_vote(vote.deep_view(), rows(names@)),
        r matches Some(t) ==> t@.len() == names@.len() && forall|i: int|
            0 <= i < names@.len() ==> t@[i] as int == tier_of(
                vote.deep_view(),
                #[trigger] rows(names@)[i],
            ),
{
    let n = names.len();
    let ghost all = rows(names@);
    let ghost model = vote.deep_view();
    let mut tiers: Vec<u64> = Vec::new();
    let mut i: usize = 0;
    while i < n
        invariant
            i <= n,
            tiers@.len() == i,
            forall|j: int| 0 <= j < i ==> tiers@[j] == UNLISTED,
        decreases n - i,
    {
        tiers.push(UNLISTED);
        i += 1;
    }
    let mut e: usize = 0;
    assert(model.take(0) == Seq::<(Seq<char>, u32)>::empty());
    while e < vote.len()
        invariant
            e <= vote@.len(),
            n == names@.len(),
            all == rows(names@),
            strictly_sorted(all),
            model == vote.deep_view(),
            tiers@.len() == n,
            forall|j: int|
                0 <= j < n ==> tiers@[j] as int == tier_of(model.take(e as int), #[trigger] all[j]),
            forall|j: int|
                0 <= j < n ==> (tiers@[j] != UNLISTED <==> exists|x: int|
                    0 <= x < e && (#[trigger] model[x]).0 == all[j]),
            forall|x: int, y: int| 0 <= x < y < e ==> model[x].0 != model[y].0,
            forall|x: int| 0 <= x < e ==> all.contains(#[trigger] model[x].0),
        decreases vote@.len() - e,
    {
        let c = chars_of(vote[e].0.as_str());
        let (k, found) = locate(names, c.as_slice());
        assert(model[e as int].0 == c@);
        assert(model[e as int].1 == vote@[e as int].1);
        if !found {
            return None;
        }
        if tiers[k] != UNLISTED {
            proof {
                let x = choose|x: int| 0 <= x < e && (#[trigger] model[x]).0 == all[k as int];
                assert(model[x].0 == model[e as int].0);
            }
            return None;
        }
        assert(model.take(e + 1).drop_last() == model.take(e as int));
        proof {
            assert forall|j: int| 0 <= j < n && j != k implies #[trigger] all[j] != c@ by {
                if all[j] == c@ {
                    lemma_name_lt_irreflexive(c@);
                    if j < k {
                        assert(name_lt(all[j], all[k as int]));
                    } else {
                        assert(name_lt(all[k as int], all[j]));
                    }
                }
            }
        }
        let ghost before = tiers@;
        tiers.set(k, vote[e].1 as u64);
        proof {
            assert forall|j: int| 0 <= j < n implies (tiers@[j] != UNLISTED <==> exists|x: int|
                0 <= x < e + 1 && (#[trigger] model[x]).0 == all[j]) by {
                if j == k {
                    assert(model[e as int].0 == all[j]);
                } else {
                    if before[j] != UNLISTED {
                        let x = choose|x: int| 0 <= x < e && (#[trigger] model[x]).0 == all[j];
                        assert(0 <= x < e + 1 && model[x].0 == all[j]);
                    }
                    if exists|x: int| 0 <= x < e + 1 && (#[trigger] model[x]).0 == all[j] {
                        let x = choose|x: int|
                            0 <= x < e + 1 && (#[trigger] model[x]).0 == all[j];
                        assert(x < e);
                    }
                }
            }
            assert forall|x: int, y: int| 0 <= x < y < e + 1 implies model[x].0
                != model[y].0 by {
                if y == e && model[x].0 == model[y].0 {
                    assert(before[k as int] != UNLISTED);
                }
            }
        }
        e += 1;
    }
    assert(model.take(e as int) == model);
    proof {
        assert(!has_repeat(model));
    }
    Some(tiers)
}

/// A matrix of `n` rows of `n` zeros.
fn zero_matrix(n: usize) -> (m: Vec<Vec<u128>>)
    ensures
        square(m@, n as nat),
        forall|i: int, j: int| 0 <= i < n && 0 <= j < n ==> (#[trigger] m@[i]@[j]) == 0,
{
    let mut m: Vec<Vec<u128>> = Vec::new();
    let mut i: usize = 0;
    while i < n
        invariant
            i <= n,
            m@.len() == i,
            forall|x: int| 0 <= x < i ==> (#[trigger] m@[x])@.len() == n,
            forall|x: int, y: int| 0 <= x < i && 0 <= y < n ==> (#[trigger] m@[x]@[y]) == 0,
        decreases n - i,
    {
        let mut row: Vec<u128> = Vec::new();
        let mut j: usize = 0;
        while j < n
            invariant
                j <= n,
                row@.len() == j,
                forall|y: int| 0 <= y < j ==> row@[y] == 0,
            decreases n - j,
        {
            row.push(0u128);
            j += 1;
        }
        m.push(row);
        i += 1;
    }
    m
}

/// The pairwise counts with one more vote counted: the weight is added
/// wherever the vote puts the row's candidate on a better tier than the
/// column's.
fn count_vote(d: &Vec<Vec<u128>>, tiers: &Vec<u64>, weight: u32) -> (m: Vec<Vec<u128>>)
    requires
        square(d@, tiers@.len()),
        forall|i: int, j: int|
            0 <= i < tiers@.len() && 0 <= j < tiers@.len() ==> (#[trigger] d@[i]@[j]) + weight
                <= u128::MAX,
    ensures
        square(m@, tiers@.len()),
        forall|i: int, j: int|
            0 <= i < tiers@.len() && 0 <= j < tiers@.len() ==> (#[trigger] m@[i]@[j]) == d@[i]@[j]
                + if tiers@[i] < tiers@[j] {
                weight as int
            } else {
                0
            },
{
    let n = tiers.len();
    let mut m: Vec<Vec<u128>> = Vec::new();
    let mut i: usize = 0;
    while i < n
        invariant
            i <= n == tiers@.len(),
            square(d@, n as nat),
            forall|x: int, y: int|
                0 <= x < n && 0 <= y < n ==> (#[trigger] d@[x]@[y]) + weight <= u128::MAX,
            m@.len() == i,
            forall|x: int| 0 <= x < i ==> (#[trigger] m@[x])@.len() == n,
            forall|x: int, y: int|
                0 <= x < i && 0 <= y < n ==> (#[trigger] m@[x]@[y]) == d@[x]@[y] + if tiers@[x]
                    < tiers@[y] {
                    weight as int
                } else {
                    0
                },
        decreases n - i,
    {
        let mut row: Vec<u128> = Vec::new();
        let mut j: usize = 0;
        while j < n
            invariant
                j <= n == tiers@.len(),
                i < n,
                square(d@, n as nat),
                forall|x: int, y: int|
                    0 <= x < n && 0 <= y < n ==> (#[trigger] d@[x]@[y]) + weight <= u128::MAX,
                row@.len() == j,
                forall|y: int|
                    0 <= y < j ==> (#[trigger] row@[y]) == d@[i as int]@[y] + if tiers@[i as int]
                        < tiers@[y] {
                        weight as int
                    } else {
                        0
                    },
            decreases n - j,
        {
            assert(d@[i as int]@[j as int] + weight <= u128::MAX);
            let old: u128 = d[i][j];
            if tiers[i] < tiers[j] {
                row.push(old + weight as u128);
            } else {
                row.push(old);
            }
            j += 1;
        }
        m.push(row);
        i += 1;
    }
    m
}

/// The strengths of the direct links.
fn link_matrix(d: &Vec<Vec<u128>>) -> (p: Vec<Vec<u128>>)
    requires
        square(d@, d@.len()),
    ensures
        square(p@, d@.len()),
        forall|i: int, j: int|
            0 <= i < d@.len() && 0 <= j < d@.len() ==> (#[trigger] p@[i]@[j]) as nat == link(
                grid(d@),
                i,
                j,
            ),
{
    let n = d.len();
    let ghost g = grid(d@);
    let mut p: Vec<Vec<u128>> = Vec::new();
    let mut i: usize = 0;
    while i < n
        invariant
            i <= n == d@.len(),
            square(d@, n as nat),
            g == grid(d@),
            p@.len() == i,
            forall|x: int| 0 <= x < i ==> (#[trigger] p@[x])@.len() == n,
            forall|x: int, y: int|
                0 <= x < i && 0 <= y < n ==> (#[trigger] p@[x]@[y]) as nat == link(g, x, y),
        decreases n - i,
    {
        let mut row: Vec<u128> = Vec::new();
        let mut j: usize = 0;
        while j < n
            invariant
                j <= n == d@.len(),
                i < n,
                square(d@, n as nat),
                g == grid(d@),
                row@.len() == j,
                forall|y: int| 0 <= y < j ==> (#[trigger] row@[y]) as nat == link(g, i as int, y),
            decreases n - j,
        {
            assert(g[i as int][j as int] == d@[i as int]@[j as int]);
            assert(g[j as int][i as int] == d@[j as int]@[i as int]);
            if d[i][j] > d[j][i] {
                row.push(d[i][j]);
            } else {
                row.push(0u128);
            }
            j += 1;
        }
        p.push(row);
        i += 1;
    }
    p
}

/// The greater of `direct` and the lesser of `first` and `second`: the
/// strength of the better of a path and a detour in two parts.
pub open spec fn widest(direct: nat, first: nat, second: nat) -> nat {
    let through = if first < second {
        first
    } else {
        second
    };
    if direct > through {
        direct
    } else {
        through
    }
}

/// The strengths once candidate `k` may lie on the paths too.
fn relax(p: &Vec<Vec<u128>>, k: usize) -> (q: Vec<Vec<u128>>)
    requires
        square(p@, p@.len()),
        k < p@.len(),
    ensures
        square(q@, p@.len()),
        forall|i: int, j: int|
            0 <= i < p@.len() && 0 <= j < p@.len() ==> (#[trigger] q@[i]@[j]) as nat == widest(
                p@[i]@[j] as nat,
                p@[i]@[k as int] as nat,
                p@[k as int]@[j] as nat,
            ),
{
    let n = p.len();
    let mut q: Vec<Vec<u128>> = Vec::new();
    let mut i: usize = 0;
    while i < n
        invariant
            i <= n == p@.len(),
            k < n,
            square(p@, n as nat),
            q@.len() == i,
            forall|x: int| 0 <= x < i ==> (#[trigger] q@[x])@.len() == n,
            forall|x: int, y: int|
                0 <= x < i && 0 <= y < n ==> (#[trigger] q@[x]@[y]) as nat == widest(
                    p@[x]@[y] as nat,
                    p@[x]@[k as int] as nat,
                    p@[k as int]@[y] as nat,
                ),
        decreases n - i,
    {
        let mut row: Vec<u128> = Vec::new();
        let mut j: usize = 0;
        while j < n
            invariant
                j <= n == p@.len(),
                i < n,
                k < n,
                square(p@, n as nat),
                row@.len() == j,
                forall|y: int|
                    0 <= y < j ==> (#[trigger] row@[y]) as nat == widest(
                        p@[i as int]@[y] as nat,
                        p@[i as int]@[k as int] as nat,
                        p@[k as int]@[y] as nat,
                    ),
            decreases n - j,
        {
            let direct: u128 = p[i][j];
            let first: u128 = p[i][k];
            let second: u128 = p[k][j];
            let through: u128 = if first < second {
                first
            } else {
                second
            };
            if direct > through {
                row.push(direct);
            } else {
                row.push(through);
            }
            j += 1;
        }
        q.push(row);
        i += 1;
    }
    q
}

/// Ranks the candidates by the Schulze method, winning variant.
///
/// A single candidate is returned on rank 0 without a look at the votes.
/// Otherwise the call fails with `VoteError::InvalidVote` where a vote
/// names a candidate twice or one outside `candidates`. The rank of a
/// candidate is the number of candidates that beat it; candidates of one
/// rank stand in the lexical order of their names.
pub fn schulze(votes: &WeightedRankedVote, candidates: Vec<String>) -> (res: Result<
    Ranking,
    VoteError,
>)
    ensures
        match res {
            Ok(r) => schulze_ranking(votes.deep_view(), candidates.deep_view()) == Ok::<
                Standing,
                VoteError,
            >(ranking_view(r@)),
            Err(e) => schulze_ranking(votes.deep_view(), candidates.deep_view()) == Err::<
                Standing,
                VoteError,
            >(e),
        },
{
    let names = sorted_names(&candidates);
    let n = names.len();
    let ghost all = rows(names@);
    let ghost model = votes.deep_view();
    if n == 1 {
        let mut single: Ranking = Vec::new();
        single.push((string_of(names[0].as_slice()), 0usize));
        assert(ranking_view(single@) == seq![(all[0], 0nat)]);
        return Ok(single);
    }
    let mut d = zero_matrix(n);
    let mut v: usize = 0;
    assert(model.take(0) == Seq::<(Tiers, u32)>::empty());
    while v < votes.len()
        invariant
            v <= votes@.len(),
            n == names@.len(),
            n != 1,
            all == rows(names@),
            all == canonical(candidates.deep_view()),
            strictly_sorted(all),
            model == votes.deep_view(),
            square(d@, n as nat),
            forall|i: int, j: int|
                0 <= i < n && 0 <= j < n ==> (#[trigger] d@[i]@[j]) as nat == pairwise(
                    model.take(v as int),
                    all[i],
                    all[j],
                ),
            forall|x: int| 0 <= x < v ==> valid_vote((#[trigger] model[x]).0, all),
        decreases votes@.len() - v,
    {
        assert(model[v as int].0 == votes@[v as int].0.deep_view());
        assert(model[v as int].1 == votes@[v as int].1);
        assert(model.take(v + 1).drop_last() == model.take(v as int));
        match vote_tiers(&names, &votes[v].0) {
            None => {
                assert(!valid_vote(model[v as int].0, all));
                return Err(VoteError::InvalidVote);
            },
            Some(tiers) => {
                proof {
                    assert forall|i: int, j: int| 0 <= i < n && 0 <= j < n implies (
                    #[trigger] d@[i]@[j]) + votes@[v as int].1 <= u128::MAX by {
                        lemma_pairwise_bound(model.take(v as int), all[i], all[j]);
                        assert(v * u32::MAX + u32::MAX <= usize::MAX * u32::MAX + u32::MAX)
                            by (nonlinear_arith)
                            requires
                                v <= usize::MAX,
                        ;
                    }
                }
                d = count_vote(&d, &tiers, votes[v].1);
            },
        }
        v += 1;
    }
    assert(model.take(v as int) == model);
    let ghost g = grid(d@);
    assert(g =~= pairwise_matrix(model, all)) by {
        assert forall|i: int| 0 <= i < n implies #[trigger] g[i] =~= pairwise_matrix(
            model,
            all,
        )[i] by {
            assert forall|j: int| 0 <= j < n implies #[trigger] g[i][j] == pairwise(
                model,
                all[i],
                all[j],
            ) by {
                assert(d@[i]@[j] as nat == pairwise(model, all[i], all[j]));
            }
        }
    }
    let mut p = link_matrix(&d);
    let mut k: usize = 0;
    while k < n
        invariant
            k <= n,
            g.len() == n,
            square(p@, n as nat),
            forall|i: int, j: int|
                0 <= i < n && 0 <= j < n ==> (#[trigger] p@[i]@[j]) as nat == strength(
                    g,
                    k as nat,
                    i,
                    j,
                ),
        decreases n - k,
    {
        let ghost before = p@;
        p = relax(&p, k);
        proof {
            assert forall|i: int, j: int| 0 <= i < n && 0 <= j < n implies (#[trigger] p@[i]@[j])
                as nat == strength(g, (k + 1) as nat, i, j) by {
                assert(before[i]@[j] as nat == strength(g, k as nat, i, j));
                assert(before[i]@[k as int] as nat == strength(g, k as nat, i, k as int));
                assert(before[k as int]@[j] as nat == strength(g, k as nat, k as int, j));
            }
        }
        k += 1;
    }
    let mut ranks: Vec<usize> = Vec::new();
    let mut keep: Vec<bool> = Vec::new();
    let mut i: usize = 0;
    while i < n
        invariant
            i <= n,
            g.len() == n,
            square(p@, n as nat),
            forall|x: int, y: int|
                0 <= x < n && 0 <= y < n ==> (#[trigger] p@[x]@[y]) as nat == strength(
                    g,
                    n as nat,
                    x,
                    y,
                ),
            ranks@.len() == i,
            keep@.len() == i,
            forall|x: int| 0 <= x < i ==> ranks@[x] as nat == count_beaters(g, x, n as nat),
            forall|x: int| 0 <= x < i ==> keep@[x],
        decreases n - i,
    {
        let mut beaters: usize = 0;
        let mut j: usize = 0;
        while j < n
            invariant
                j <= n,
                i < n,
                g.len() == n,
                square(p@, n as nat),
                forall|x: int, y: int|
                    0 <= x < n && 0 <= y < n ==> (#[trigger] p@[x]@[y]) as nat == strength(
                        g,
                        n as nat,
                        x,
                        y,
                    ),
                beaters as nat == count_beaters(g, i as int, j as nat),
                beaters <= j,
            decreases n - j,
        {
            assert(p@[j as int]@[i as int] as nat == strength(g, n as nat, j as int, i as int));
            assert(p@[i as int]@[j as int] as nat == strength(g, n as nat, i as int, j as int));
            if p[j][i] > p[i][j] {
                beaters += 1;
            }
            j += 1;
        }
        ranks.push(beaters);
        keep.push(true);
        i += 1;
    }
    assert(as_nats(ranks@) =~= schulze_ranks(g));
    assert(keep@ =~= all_kept(n as nat));
    Ok(arrange_ranking(&names, &ranks, &keep))
}

/// The lesser of two numbers.
pub open spec fn lesser(a: nat, b: nat) -> nat {
    if a < b {
        a
    } else {
        b
    }
}

/// Letting candidate `k` in changes no strength of a path that starts or
/// ends at `k`.
proof fn lemma_strength_at_new(d: Seq<Seq<nat>>, k: nat, i: int)
    ensures
        strength(d, k + 1, i, k as int) == strength(d, k, i, k as int),
        strength(d, k + 1, k as int, i) == strength(d, k, k as int, i),
{
}

/// Strengths are closed under detours through the candidates let in: the
/// strongest path from `i` to `j` is at least as strong as the strongest
/// one to `m` followed by the strongest one from `m`.
proof fn lemma_strength_closed(d: Seq<Seq<nat>>, k: nat, i: int, j: int, m: int)
    requires
        0 <= m < k,
    ensures
        strength(d, k, i, j) >= lesser(strength(d, k, i, m), strength(d, k, m, j)),
    decreases k,
{
    let h = (k - 1) as nat;
    let c = h as int;
    if m == c {
        lemma_strength_at_new(d, h, i);
        lemma_strength_at_new(d, h, j);
    } else {
        lemma_strength_closed(d, h, i, j, m);
        lemma_strength_closed(d, h, c, j, m);
        lemma_strength_closed(d, h, i, c, m);
    }
}

/// Beating is transitive: who beats a candidate beats all that this
/// candidate beats.
pub proof fn lemma_beats_transitive(d: Seq<Seq<nat>>, a: int, b: int, c: int)
    requires
        0 <= a < d.len(),
        0 <= b < d.len(),
        0 <= c < d.len(),
        beats(d, a, b),
        beats(d, b, c),
    ensures
        beats(d, a, c),
{
    let n = d.len();
    lemma_strength_closed(d, n, a, c, b);
    lemma_strength_closed(d, n, b, a, c);
    lemma_strength_closed(d, n, c, b, a);
}

/// The candidates that beat `a` are among those that beat `b`, where `a`
/// beats `b`; and `a` itself is one more of the latter.
proof fn lemma_count_beaters_grows(d: Seq<Seq<nat>>, a: int, b: int, upto: nat)
    requires
        0 <= a < d.len(),
        0 <= b < d.len(),
        upto <= d.len(),
        beats(d, a, b),
    ensures
        count_beaters(d, a, upto) <= count_beaters(d, b, upto),
        a < upto ==> count_beaters(d, a, upto) < count_beaters(d, b, upto),
    decreases upto,
{
    if upto > 0 {
        lemma_count_beaters_grows(d, a, b, (upto - 1) as nat);
        let c = upto - 1;
        if beats(d, c, a) {
            lemma_beats_transitive(d, c, a, b);
        }
    }
}

/// Nobody beats itself, so fewer than all candidates beat any one.
proof fn lemma_count_beaters_bound(d: Seq<Seq<nat>>, i: int, upto: nat)
    ensures
        count_beaters(d, i, upto) <= upto,
        0 <= i < upto ==> count_beaters(d, i, upto) < upto,
    decreases upto,
{
    if upto > 0 {
        lemma_count_beaters_bound(d, i, (upto - 1) as nat);
    }
}

/// The ranks are consistent with the beat relation: a candidate holds a
/// strictly better rank than every candidate that it beats. So whoever
/// holds rank 0 is beaten by nobody, and candidates on one rank do not
/// beat each other.
pub proof fn lemma_schulze_ranks_consistent(d: Seq<Seq<nat>>, a: int, b: int)
    requires
        0 <= a < d.len(),
        0 <= b < d.len(),
        beats(d, a, b),
    ensures
        schulze_ranks(d)[a] < schulze_ranks(d)[b],
{
    lemma_count_beaters_grows(d, a, b, d.len());
}

/// How the Schulze ranking is laid out: where it exists, it holds every
/// candidate with its rank, in the order of the ranks and within one
/// rank in the lexical order of the names.
pub proof fn lemma_schulze_ranking(votes: Ballots, candidates: Seq<Seq<char>>)
    requires
        schulze_ranking(votes, candidates) is Ok,
    ensures
        lists_kept(
            schulze_ranking(votes, candidates)->Ok_0,
            canonical(candidates),
            schulze_ranks(pairwise_matrix(votes, canonical(candidates))),
            all_kept(canonical(candidates).len()),
        ),
        in_order(schulze_ranking(votes, candidates)->Ok_0),
{
    let names = canonical(candidates);
    let d = pairwise_matrix(votes, names);
    let ranks = schulze_ranks(d);
    let keep = all_kept(names.len());
    lemma_canonical(candidates);
    assert forall|i: int| 0 <= i < names.len() implies ranks[i] < names.len() by {
        lemma_count_beaters_bound(d, i, names.len());
    }
    lemma_arrange(names, ranks, keep);
    if names.len() == 1 {
        reveal_with_fuel(count_beaters, 2);
        reveal_with_fuel(rank_block, 2);
        reveal_with_fuel(arrange_upto, 2);
        assert(ranks[0] == 0);
        assert(keep[0]);
        assert(rank_block(names, ranks, keep, 0, 1) == seq![(names[0], 0nat)]);
        assert(arrange(names, ranks, keep) == seq![(names[0], 0nat)]);
    }
}

/// Whether `path` leads from `i` to `j` over candidates of the matrix,
/// in one step or more.
pub open spec fn is_path(d: Seq<Seq<nat>>, path: Seq<int>, i: int, j: int) -> bool {
    &&& path.len() >= 2
    &&& path[0] == i
    &&& path.last() == j
    &&& forall|x: int| 0 <= x < path.len() ==> 0 <= #[trigger] path[x] < d.len()
}

/// The strength of a path: that of the weakest of its links.
pub open spec fn path_strength(d: Seq<Seq<nat>>, path: Seq<int>) -> nat
    decreases path.len(),
{
    if path.len() <= 2 {
        link(d, path[0], path[1])
    } else {
        lesser(
            path_strength(d, path.drop_last()),
            link(d, path[path.len() - 2], path[path.len() - 1]),
        )
    }
}

/// Letting more candidates in weakens no strongest path.
proof fn lemma_strength_grows(d: Seq<Seq<nat>>, k: nat, i: int, j: int)
    ensures
        link(d, i, j) <= strength(d, k, i, j),
    decreases k,
{
    if k > 0 {
        lemma_strength_grows(d, (k - 1) as nat, i, j);
    }
}

/// No path from `i` to `j` is stronger than the strength computed for
/// the two.
pub proof fn lemma_no_path_is_stronger(d: Seq<Seq<nat>>, path: Seq<int>, i: int, j: int)
    requires
        is_path(d, path, i, j),
    ensures
        path_strength(d, path) <= strength(d, d.len(), i, j),
    decreases path.len(),
{
    let n = d.len();
    if path.len() <= 2 {
        assert(path[1] == j);
        lemma_strength_grows(d, n, i, j);
    } else {
        let head = path.drop_last();
        let m = path[path.len() - 2];
        assert(head.last() == m);
        assert forall|x: int| 0 <= x < head.len() implies 0 <= #[trigger] head[x] < d.len() by {
            assert(head[x] == path[x]);
        }
        lemma_no_path_is_stronger(d, head, i, m);
        lemma_strength_grows(d, n, m, j);
        lemma_strength_closed(d, n, i, j, m);
    }
}

/// The strength of two paths joined is that of the weaker one.
proof fn lemma_joined_paths(d: Seq<Seq<nat>>, first: Seq<int>, second: Seq<int>)
    requires
        first.len() >= 2,
        second.len() >= 2,
        first.last() == second[0],
    ensures
        path_strength(d, first + second.drop_first()) == lesser(
            path_strength(d, first),
            path_strength(d, second),
        ),
    decreases second.len(),
{
    let joined = first + second.drop_first();
    if second.len() == 2 {
        assert(joined.drop_last() == first);
        assert(joined[joined.len() - 2] == second[0]);
        assert(joined[joined.len() - 1] == second[1]);
    } else {
        let shorter = second.drop_last();
        lemma_joined_paths(d, first, shorter);
        assert(joined.drop_last() == first + shorter.drop_first());
        assert(joined[joined.len() - 2] == second[second.len() - 2]);
        assert(joined[joined.len() - 1] == second[second.len() - 1]);
    }
}

/// A path from `i` to `j` through the first `k` candidates that is as
/// strong as the strength computed for them.
proof fn strongest_path(d: Seq<Seq<nat>>, k: nat, i: int, j: int) -> (path: Seq<int>)
    requires
        k <= d.len(),
        0 <= i < d.len(),
        0 <= j < d.len(),
    ensures
        is_path(d, path, i, j),
        path_strength(d, path) == strength(d, k, i, j),
    decreases k,
{
    if k == 0 {
        seq![i, j]
    } else {
        let h = (k - 1) as nat;
        let m = h as int;
        let direct = strongest_path(d, h, i, j);
        let first = strongest_path(d, h, i, m);
        let second = strongest_path(d, h, m, j);
        if strength(d, h, i, j) > lesser(strength(d, h, i, m), strength(d, h, m, j)) {
            direct
        } else {
            let joined = first + second.drop_first();
            lemma_joined_paths(d, first, second);
            assert(joined[0] == first[0]);
            assert(joined.last() == second.last());
            assert forall|x: int| 0 <= x < joined.len() implies 0 <= #[trigger] joined[x]
                < d.len() by {
                if x < first.len() {
                    assert(joined[x] == first[x]);
                } else {
                    assert(joined[x] == second[x - first.len() + 1]);
                }
            }
            joined
        }
    }
}

/// The strength computed for two candidates is the strength of the
/// strongest path from the one to the other: some path is that strong,
/// and none is stronger. So it does not depend on the order in which the
/// candidates are let in.
pub proof fn lemma_strength_is_strongest_path(d: Seq<Seq<nat>>, i: int, j: int)
    requires
        0 <= i < d.len(),
        0 <= j < d.len(),
    ensures
        exists|path: Seq<int>| #[trigger]
            is_path(d, path, i, j) && path_strength(d, path) == strength(d, d.len(), i, j),
        forall|path: Seq<int>| #[trigger]
            is_path(d, path, i, j) ==> path_strength(d, path) <= strength(d, d.len(), i, j),
{
    let best = strongest_path(d, d.len(), i, j);
    assert(is_path(d, best, i, j) && path_strength(d, best) == strength(d, d.len(), i, j));
    assert forall|path: Seq<int>| #[trigger] is_path(d, path, i, j) implies path_strength(
        d,
        path,
    ) <= strength(d, d.len(), i, j) by {
        lemma_no_path_is_stronger(d, path, i, j);
    }
}

} // verus!

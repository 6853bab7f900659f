//! How a ranking is laid out: candidates in the order of their ranks, and
//! within one rank in the lexical order of their names.

use crate::ballot::Ranking;
use crate::names::{name_lt, rows, strictly_sorted};
use crate::text::string_of;
use vstd::prelude::*;

verus! {

/// The model of a ranking: names with their ranks.
pub type Standing = Seq<(Seq<char>, nat)>;

/// The model of a ranking.
pub open spec fn ranking_view(r: Seq<(String, usize)>) -> Standing {
    r.map_values(|e: (String, usize)| (e.0@, e.1 as nat))
}

/// The numbers of the sequence, as naturals.
pub open spec fn as_nats(s: Seq<usize>) -> Seq<nat> {
    s.map_values(|x: usize| x as nat)
}

/// The kept candidates of rank `t` among the first `upto` names, in the
/// order of the names.
pub open spec fn rank_block(
    names: Seq<Seq<char>>,
    ranks: Seq<nat>,
    keep: Seq<bool>,
    t: nat,
    upto: nat,
) -> Standing
    decreases upto,
{
    if upto == 0 {
        Seq::empty()
    } else if keep[upto - 1] && ranks[upto - 1] == t {
        rank_block(names, ranks, keep, t, (upto - 1) as nat).push((names[upto - 1], t))
    } else {
        rank_block(names, ranks, keep, t, (upto - 1) as nat)
    }
}

/// The kept candidates of the ranks below `t`, rank by rank.
pub open spec fn arrange_upto(
    names: Seq<Seq<char>>,
    ranks: Seq<nat>,
    keep: Seq<bool>,
    t: nat,
) -> Standing
    decreases t,
{
    if t == 0 {
        Seq::empty()
    } else {
        arrange_upto(names, ranks, keep, (t - 1) as nat) + rank_block(
            names,
            ranks,
            keep,
            (t - 1) as nat,
            names.len(),
        )
    }
}

/// The ranking of the kept candidates: `names[i]` holds rank `ranks[i]`
/// and takes part where `keep[i]` holds. Candidates come by rank, and
/// those of one rank in the order of `names`. No rank reaches the number
/// of names.
pub open spec fn arrange(names: Seq<Seq<char>>, ranks: Seq<nat>, keep: Seq<bool>) -> Standing {
    arrange_upto(names, ranks, keep, names.len())
}

/// Lays out the ranking of the kept candidates.
pub(crate) fn arrange_ranking(names: &Vec<Vec<char>>, ranks: &Vec<usize>, keep: &Vec<bool>) -> (r:
    Ranking)
    requires
        ranks@.len() == names@.len(),
        keep@.len() == names@.len(),
    ensures
        ranking_view(r@) == arrange(rows(names@), as_nats(ranks@), keep@),
{
    let n = names.len();
    let ghost all = rows(names@);
    let ghost rk = as_nats(ranks@);
    let mut out: Ranking = Vec::new();
    let mut t: usize = 0;
    assert(ranking_view(out@) == Seq::<(Seq<char>, nat)>::empty());
    while t < n
        invariant
            t <= n == names@.len(),
            ranks@.len() == n,
            keep@.len() == n,
            all == rows(names@),
            rk == as_nats(ranks@),
            ranking_view(out@) == arrange_upto(all, rk, keep@, t as nat),
        decreases n - t,
    {
        let ghost base = ranking_view(out@);
        let mut i: usize = 0;
        assert(base + rank_block(all, rk, keep@, t as nat, 0) == base);
        while i < n
            invariant
                i <= n == names@.len(),
                ranks@.len() == n,
                keep@.len() == n,
                all == rows(names@),
                rk == as_nats(ranks@),
                ranking_view(out@) == base + rank_block(all, rk, keep@, t as nat, i as nat),
            decreases n - i,
        {
            if keep[i] && ranks[i] == t {
                let ghost before = ranking_view(out@);
                out.push((string_of(names[i].as_slice()), t));
                assert(ranking_view(out@) == before.push((all[i as int], t as nat)));
                assert(base + rank_block(all, rk, keep@, t as nat, i as nat).push(
                    (all[i as int], t as nat),
                ) == before.push((all[i as int], t as nat)));
            }
            i += 1;
        }
        t += 1;
    }
    out
}

/// Whether the ranking goes by rank, and within one rank by the lexical
/// order of the names.
pub open spec fn in_order(r: Standing) -> bool {
    forall|k: int, l: int|
        #![trigger r[k], r[l]]
        0 <= k < l < r.len() ==> r[k].1 < r[l].1 || (r[k].1 == r[l].1 && name_lt(r[k].0, r[l].0))
}

/// Whether `e` is the entry of the kept candidate `names[i]`.
pub open spec fn placed(
    e: (Seq<char>, nat),
    names: Seq<Seq<char>>,
    ranks: Seq<nat>,
    keep: Seq<bool>,
    i: int,
) -> bool {
    0 <= i < names.len() && keep[i] && e == (names[i], ranks[i])
}

/// Whether `e` is the entry of one of the first `upto` candidates, and
/// of a kept one.
pub open spec fn kept_entry(
    e: (Seq<char>, nat),
    names: Seq<Seq<char>>,
    ranks: Seq<nat>,
    keep: Seq<bool>,
    upto: int,
) -> bool {
    exists|i: int| #[trigger] placed(e, names, ranks, keep, i) && i < upto
}

/// Whether the ranking holds the kept candidates, each with its rank,
/// and nothing else.
pub open spec fn lists_kept(
    r: Standing,
    names: Seq<Seq<char>>,
    ranks: Seq<nat>,
    keep: Seq<bool>,
) -> bool {
    &&& forall|k: int|
        0 <= k < r.len() ==> kept_entry(#[trigger] r[k], names, ranks, keep, names.len() as int)
    &&& forall|i: int|
        0 <= i < names.len() && keep[i] ==> r.contains((#[trigger] names[i], ranks[i]))
}

/// A block holds the kept candidates of its rank among the first `upto`
/// names, in the order of the names.
proof fn lemma_rank_block(
    names: Seq<Seq<char>>,
    ranks: Seq<nat>,
    keep: Seq<bool>,
    t: nat,
    upto: nat,
)
    requires
        ranks.len() == names.len(),
        keep.len() == names.len(),
        upto <= names.len(),
        strictly_sorted(names),
    ensures
        forall|k: int|
            0 <= k < rank_block(names, ranks, keep, t, upto).len() ==> (#[trigger] rank_block(
                names,
                ranks,
                keep,
                t,
                upto,
            )[k]).1 == t && kept_entry(
                rank_block(names, ranks, keep, t, upto)[k],
                names,
                ranks,
                keep,
                upto as int,
            ),
        forall|i: int|
            0 <= i < upto && keep[i] && ranks[i] == t ==> rank_block(
                names,
                ranks,
                keep,
                t,
                upto,
            ).contains((#[trigger] names[i], t)),
        in_order(rank_block(names, ranks, keep, t, upto)),
    decreases upto,
{
    let b = rank_block(names, ranks, keep, t, upto);
    if upto > 0 {
        let rest = rank_block(names, ranks, keep, t, (upto - 1) as nat);
        lemma_rank_block(names, ranks, keep, t, (upto - 1) as nat);
        let last = upto - 1;
        assert forall|k: int| 0 <= k < b.len() implies (#[trigger] b[k]).1 == t && kept_entry(
            b[k],
            names,
            ranks,
            keep,
            upto as int,
        ) by {
            if k < rest.len() {
                let i = choose|i: int| #[trigger]
                    placed(rest[k], names, ranks, keep, i) && i < upto - 1;
                assert(b[k] == rest[k]);
                assert(placed(b[k], names, ranks, keep, i) && i < upto);
            } else {
                assert(b[k] == (names[last], t));
                assert(placed(b[k], names, ranks, keep, last) && last < upto);
            }
        }
        assert forall|i: int| 0 <= i < upto && keep[i] && ranks[i] == t implies b.contains(
            (#[trigger] names[i], t),
        ) by {
            if i < last {
                let k = choose|k: int| 0 <= k < rest.len() && rest[k] == (names[i], t);
                assert(b[k] == (names[i], t));
            } else {
                assert(b[b.len() - 1] == (names[i], t));
            }
        }
        assert forall|k: int, l: int|
            #![trigger b[k], b[l]]
            0 <= k < l < b.len() implies b[k].1 < b[l].1 || (b[k].1 == b[l].1 && name_lt(
            b[k].0,
            b[l].0,
        )) by {
            if l < rest.len() {
                assert(b[k] == rest[k] && b[l] == rest[l]);
            } else {
                let i = choose|i: int| #[trigger]
                    placed(rest[k], names, ranks, keep, i) && i < upto - 1;
                assert(b[k] == rest[k]);
                assert(b[l] == (names[last], t));
                assert(name_lt(names[i], names[last]));
            }
        }
    }
}

/// The ranks below `t` hold the kept candidates of those ranks, rank by
/// rank.
proof fn lemma_arrange_upto(names: Seq<Seq<char>>, ranks: Seq<nat>, keep: Seq<bool>, t: nat)
    requires
        ranks.len() == names.len(),
        keep.len() == names.len(),
        strictly_sorted(names),
    ensures
        forall|k: int|
            0 <= k < arrange_upto(names, ranks, keep, t).len() ==> (#[trigger] arrange_upto(
                names,
                ranks,
                keep,
                t,
            )[k]).1 < t && kept_entry(
                arrange_upto(names, ranks, keep, t)[k],
                names,
                ranks,
                keep,
                names.len() as int,
            ),
        forall|i: int|
            0 <= i < names.len() && keep[i] && ranks[i] < t ==> arrange_upto(
                names,
                ranks,
                keep,
                t,
            ).contains((#[trigger] names[i], ranks[i])),
        in_order(arrange_upto(names, ranks, keep, t)),
    decreases t,
{
    let r = arrange_upto(names, ranks, keep, t);
    if t > 0 {
        let s = (t - 1) as nat;
        let head = arrange_upto(names, ranks, keep, s);
        let block = rank_block(names, ranks, keep, s, names.len());
        lemma_arrange_upto(names, ranks, keep, s);
        lemma_rank_block(names, ranks, keep, s, names.len());
        assert forall|k: int| 0 <= k < r.len() implies (#[trigger] r[k]).1 < t && kept_entry(
            r[k],
            names,
            ranks,
            keep,
            names.len() as int,
        ) by {
            if k < head.len() {
                let i = choose|i: int| #[trigger]
                    placed(head[k], names, ranks, keep, i) && i < names.len();
                assert(r[k] == head[k]);
                assert(placed(r[k], names, ranks, keep, i));
            } else {
                let e = block[k - head.len()];
                let i = choose|i: int| #[trigger]
                    placed(e, names, ranks, keep, i) && i < names.len();
                assert(r[k] == e);
                assert(placed(r[k], names, ranks, keep, i));
            }
        }
        assert forall|i: int| 0 <= i < names.len() && keep[i] && ranks[i] < t implies r.contains(
            (#[trigger] names[i], ranks[i]),
        ) by {
            if ranks[i] < s {
                let k = choose|k: int| 0 <= k < head.len() && head[k] == (names[i], ranks[i]);
                assert(r[k] == (names[i], ranks[i]));
            } else {
                let k = choose|k: int| 0 <= k < block.len() && block[k] == (names[i], s);
                assert(r[head.len() + k] == (names[i], ranks[i]));
            }
        }
        assert forall|k: int, l: int|
            #![trigger r[k], r[l]]
            0 <= k < l < r.len() implies r[k].1 < r[l].1 || (r[k].1 == r[l].1 && name_lt(
            r[k].0,
            r[l].0,
        )) by {
            if l < head.len() {
                assert(r[k] == head[k] && r[l] == head[l]);
                assert(head[k].1 < head[l].1 || (head[k].1 == head[l].1 && name_lt(
                    head[k].0,
                    head[l].0,
                )));
            } else if k >= head.len() {
                let x = k - head.len();
                let y = l - head.len();
                assert(r[k] == block[x] && r[l] == block[y]);
                assert(block[x].1 < block[y].1 || (block[x].1 == block[y].1 && name_lt(
                    block[x].0,
                    block[y].0,
                )));
            } else {
                assert(r[k] == head[k]);
                assert(r[l] == block[l - head.len()]);
                assert(head[k].1 < s);
                assert(block[l - head.len()].1 == s);
            }
        }
    }
}

/// How a ranking is laid out: it holds exactly the kept candidates, each
/// with its rank, in the order of the ranks, and within one rank in the
/// lexical order of the names.
pub proof fn lemma_arrange(names: Seq<Seq<char>>, ranks: Seq<nat>, keep: Seq<bool>)
    requires
        ranks.len() == names.len(),
        keep.len() == names.len(),
        strictly_sorted(names),
        forall|i: int| 0 <= i < names.len() ==> ranks[i] < names.len(),
    ensures
        lists_kept(arrange(names, ranks, keep), names, ranks, keep),
        in_order(arrange(names, ranks, keep)),
{
    lemma_arrange_upto(names, ranks, keep, names.len());
}

} // verus!

//! Candidate names: their lexical order, and sorted listings without
//! repeats, which give every set of candidates one canonical sequence.

use vstd::prelude::*;

verus! {

/// Whether `a` comes strictly before `b` in lexical order: at the first
/// position where they differ `a` holds the smaller character, or `a` ends
/// there and `b` does not.
pub open spec fn name_lt(a: Seq<char>, b: Seq<char>) -> bool
    decreases a.len(),
{
    if b.len() == 0 {
        false
    } else if a.len() == 0 {
        true
    } else if a[0] == b[0] {
        name_lt(a.drop_first(), b.drop_first())
    } else {
        a[0] < b[0]
    }
}

/// No name comes before itself.
pub proof fn lemma_name_lt_irreflexive(a: Seq<char>)
    ensures
        !name_lt(a, a),
    decreases a.len(),
{
    if a.len() > 0 {
        lemma_name_lt_irreflexive(a.drop_first());
    }
}

/// Of two different names exactly one comes before the other.
pub proof fn lemma_name_lt_total(a: Seq<char>, b: Seq<char>)
    ensures
        a != b ==> (name_lt(a, b) <==> !name_lt(b, a)),
        a == b ==> !name_lt(a, b) && !name_lt(b, a),
    decreases a.len(),
{
    if a == b {
        lemma_name_lt_irreflexive(a);
    } else if a.len() == 0 || b.len() == 0 {
        if a.len() == 0 && b.len() == 0 {
            assert(a =~= b);
        }
    } else if a[0] == b[0] {
        if a.drop_first() == b.drop_first() {
            assert(a =~= seq![a[0]] + a.drop_first());
            assert(b =~= seq![b[0]] + b.drop_first());
        }
        lemma_name_lt_total(a.drop_first(), b.drop_first());
    }
}

/// The order of names is transitive.
pub proof fn lemma_name_lt_transitive(a: Seq<char>, b: Seq<char>, c: Seq<char>)
    requires
        name_lt(a, b),
        name_lt(b, c),
    ensures
        name_lt(a, c),
    decreases a.len(),
{
    if a.len() > 0 && a[0] == b[0] && b[0] == c[0] {
        lemma_name_lt_transitive(a.drop_first(), b.drop_first(), c.drop_first());
    }
}

/// How one name stands to another in lexical order.
#[derive(Clone, Copy, Debug, PartialEq, Eq)]
pub(crate) enum Place {
    Before,
    Same,
    After,
}

/// Where `a` stands relative to `b`.
pub(crate) fn name_place(a: &[char], b: &[char]) -> (p: Place)
    ensures
        p is Before <==> name_lt(a@, b@),
        p is Same <==> a@ == b@,
        p is After <==> name_lt(b@, a@),
{
    let mut i: usize = 0;
    assert(a@.skip(0) == a@ && b@.skip(0) == b@);
    while i < a.len() && i < b.len() && a[i] == b[i]
        invariant
            i <= a@.len(),
            i <= b@.len(),
            a@.take(i as int) == b@.take(i as int),
            name_lt(a@, b@) == name_lt(a@.skip(i as int), b@.skip(i as int)),
            name_lt(b@, a@) == name_lt(b@.skip(i as int), a@.skip(i as int)),
        decreases a@.len() - i,
    {
        assert(a@.skip(i as int).drop_first() == a@.skip(i + 1));
        assert(b@.skip(i as int).drop_first() == b@.skip(i + 1));
        assert(a@.take(i + 1) == a@.take(i as int).push(a@[i as int]));
        assert(b@.take(i + 1) == b@.take(i as int).push(b@[i as int]));
        i += 1;
    }
    proof {
        lemma_name_lt_total(a@, b@);
        if i == a@.len() && i == b@.len() {
            assert(a@ == a@.take(i as int));
            assert(b@ == b@.take(i as int));
        } else if i < a@.len() && i < b@.len() {
            assert(a@.skip(i as int)[0] == a@[i as int]);
            assert(b@.skip(i as int)[0] == b@[i as int]);
        }
    }
    if i == a.len() {
        if i == b.len() {
            Place::Same
        } else {
            Place::Before
        }
    } else if i == b.len() {
        Place::After
    } else if a[i] < b[i] {
        Place::Before
    } else {
        Place::After
    }
}

/// Whether each name of the listing comes strictly before all later ones.
/// Such a listing holds no name twice.
pub open spec fn strictly_sorted(names: Seq<Seq<char>>) -> bool {
    forall|i: int, j: int| 0 <= i < j < names.len() ==> name_lt(names[i], names[j])
}

/// The number of names at the head of the listing that come before `c`.
pub open spec fn lower_bound(names: Seq<Seq<char>>, c: Seq<char>) -> int
    decreases names.len(),
{
    if names.len() > 0 && name_lt(names[0], c) {
        1 + lower_bound(names.drop_first(), c)
    } else {
        0
    }
}

/// The listing with `c` put in its place, unless it is there already.
pub open spec fn insert_name(names: Seq<Seq<char>>, c: Seq<char>) -> Seq<Seq<char>> {
    let k = lower_bound(names, c);
    if k < names.len() && names[k] == c {
        names
    } else {
        names.insert(k, c)
    }
}

/// The canonical listing of the names in `list`: each once, in lexical
/// order.
pub open spec fn canonical(list: Seq<Seq<char>>) -> Seq<Seq<char>>
    decreases list.len(),
{
    if list.len() == 0 {
        Seq::empty()
    } else {
        insert_name(canonical(list.drop_last()), list.last())
    }
}

/// In a sorted listing `lower_bound` parts the names before `c` from the
/// rest, and `c` can only stand at that place.
pub proof fn lemma_lower_bound(names: Seq<Seq<char>>, c: Seq<char>)
    requires
        strictly_sorted(names),
    ensures
        0 <= lower_bound(names, c) <= names.len(),
        forall|i: int| 0 <= i < lower_bound(names, c) ==> name_lt(#[trigger] names[i], c),
        forall|i: int|
            lower_bound(names, c) <= i < names.len() ==> !name_lt(#[trigger] names[i], c),
        forall|i: int|
            0 <= i < names.len() && #[trigger] names[i] == c ==> i == lower_bound(names, c),
    decreases names.len(),
{
    let k = lower_bound(names, c);
    if names.len() > 0 && name_lt(names[0], c) {
        let rest = names.drop_first();
        assert forall|i: int, j: int| 0 <= i < j < rest.len() implies name_lt(
            rest[i],
            rest[j],
        ) by {
            assert(rest[i] == names[i + 1] && rest[j] == names[j + 1]);
        }
        lemma_lower_bound(rest, c);
        assert forall|i: int| 0 <= i < k implies name_lt(#[trigger] names[i], c) by {
            if i > 0 {
                assert(names[i] == rest[i - 1]);
            }
        }
        assert forall|i: int| k <= i < names.len() implies !name_lt(#[trigger] names[i], c) by {
            assert(names[i] == rest[i - 1]);
        }
        assert forall|i: int| 0 <= i < names.len() && #[trigger] names[i] == c implies i
            == k by {
            lemma_name_lt_irreflexive(c);
            assert(names[i] == rest[i - 1]);
        }
    } else {
        assert forall|i: int| 0 <= i < names.len() implies !name_lt(#[trigger] names[i], c) by {
            if i > 0 {
                if name_lt(names[i], c) {
                    lemma_name_lt_transitive(names[0], names[i], c);
                }
            }
        }
        assert forall|i: int| 0 <= i < names.len() && #[trigger] names[i] == c implies i
            == 0 by {
            if i > 0 {
                assert(name_lt(names[0], names[i]));
            }
        }
    }
}

/// Putting a name in its place keeps the listing sorted and adds that
/// name and no other.
pub proof fn lemma_insert_name(names: Seq<Seq<char>>, c: Seq<char>)
    requires
        strictly_sorted(names),
    ensures
        strictly_sorted(insert_name(names, c)),
        forall|x: Seq<char>|
            insert_name(names, c).contains(x) <==> names.contains(x) || x == c,
{
    lemma_lower_bound(names, c);
    let k = lower_bound(names, c);
    let out = insert_name(names, c);
    if k < names.len() && names[k] == c {
        assert(names.contains(c));
    } else {
        assert forall|i: int, j: int| 0 <= i < j < out.len() implies name_lt(out[i], out[j]) by {
            if j == k {
                assert(out[i] == names[i]);
            } else if i == k {
                assert(out[j] == names[j - 1]);
                lemma_name_lt_total(names[j - 1], c);
            } else {
                let i0 = if i < k { i } else { i - 1 };
                let j0 = if j < k { j } else { j - 1 };
                assert(out[i] == names[i0] && out[j] == names[j0]);
            }
        }
        assert forall|x: Seq<char>| out.contains(x) <==> names.contains(x) || x == c by {
            if out.contains(x) {
                let i = choose|i: int| 0 <= i < out.len() && out[i] == x;
                if i < k {
                    assert(names[i] == x);
                } else if i > k {
                    assert(names[i - 1] == x);
                }
            }
            if names.contains(x) {
                let i = choose|i: int| 0 <= i < names.len() && names[i] == x;
                if i < k {
                    assert(out[i] == x);
                } else {
                    assert(out[i + 1] == x);
                }
            }
            if x == c {
                assert(out[k] == x);
            }
        }
    }
}

/// The canonical listing is sorted and names exactly what `list` names.
pub proof fn lemma_canonical(list: Seq<Seq<char>>)
    ensures
        strictly_sorted(canonical(list)),
        forall|x: Seq<char>| canonical(list).contains(x) <==> list.contains(x),
        canonical(list).len() <= list.len(),
    decreases list.len(),
{
    if list.len() > 0 {
        let head = list.drop_last();
        lemma_canonical(head);
        lemma_insert_name(canonical(head), list.last());
        lemma_lower_bound(canonical(head), list.last());
        assert forall|x: Seq<char>| canonical(list).contains(x) <==> list.contains(x) by {
            if list.contains(x) {
                let i = choose|i: int| 0 <= i < list.len() && list[i] == x;
                if i < list.len() - 1 {
                    assert(head[i] == x);
                }
            }
            if head.contains(x) {
                let i = choose|i: int| 0 <= i < head.len() && head[i] == x;
                assert(list[i] == x);
            }
            if x == list.last() {
                assert(list[list.len() - 1] == x);
            }
        }
    }
}

/// Two sorted listings of the same names are the same listing.
pub proof fn lemma_sorted_unique(a: Seq<Seq<char>>, b: Seq<Seq<char>>)
    requires
        strictly_sorted(a),
        strictly_sorted(b),
        forall|x: Seq<char>| a.contains(x) <==> b.contains(x),
    ensures
        a == b,
    decreases a.len(),
{
    if a.len() == 0 {
        if b.len() > 0 {
            assert(b.contains(b[0]));
        }
        assert(a =~= b);
    } else {
        // the greatest name of one listing is the greatest of the other
        let x = a.last();
        assert(a.contains(x));
        let j = choose|j: int| 0 <= j < b.len() && b[j] == x;
        if j < b.len() - 1 {
            let y = b.last();
            assert(b.contains(y));
            let i = choose|i: int| 0 <= i < a.len() && a[i] == y;
            assert(name_lt(b[j], b[b.len() - 1]));
            if i < a.len() - 1 {
                assert(name_lt(a[i], a[a.len() - 1]));
            }
            lemma_name_lt_total(x, y);
        }
        let a0 = a.drop_last();
        let b0 = b.drop_last();
        assert forall|x0: Seq<char>| a0.contains(x0) <==> b0.contains(x0) by {
            lemma_name_lt_irreflexive(x);
            if a0.contains(x0) {
                let i = choose|i: int| 0 <= i < a0.len() && a0[i] == x0;
                assert(a[i] == x0);
                assert(name_lt(a[i], a[a.len() - 1]));
                assert(a.contains(x0));
                let k = choose|k: int| 0 <= k < b.len() && b[k] == x0;
                assert(b0[k] == x0);
            }
            if b0.contains(x0) {
                let i = choose|i: int| 0 <= i < b0.len() && b0[i] == x0;
                assert(b[i] == x0);
                assert(name_lt(b[i], b[b.len() - 1]));
                assert(b.contains(x0));
                let k = choose|k: int| 0 <= k < a.len() && a[k] == x0;
                assert(a0[k] == x0);
            }
        }
        lemma_sorted_unique(a0, b0);
        assert(a =~= a0.push(x));
        assert(b =~= b0.push(x));
    }
}

/// The canonical listing depends only on which names `list` holds.
pub proof fn lemma_canonical_by_content(a: Seq<Seq<char>>, b: Seq<Seq<char>>)
    requires
        forall|x: Seq<char>| a.contains(x) <==> b.contains(x),
    ensures
        canonical(a) == canonical(b),
{
    lemma_canonical(a);
    lemma_canonical(b);
    assert forall|x: Seq<char>| canonical(a).contains(x) <==> canonical(b).contains(x) by {
        assert(canonical(a).contains(x) <==> a.contains(x));
        assert(canonical(b).contains(x) <==> b.contains(x));
    }
    lemma_sorted_unique(canonical(a), canonical(b));
}

/// The character sequences that the rows hold.
pub open spec fn rows(v: Seq<Vec<char>>) -> Seq<Seq<char>> {
    v.map_values(|r: Vec<char>| r@)
}

/// Where `c` belongs in the sorted listing, and whether it stands there.
pub(crate) fn locate(names: &Vec<Vec<char>>, c: &[char]) -> (r: (usize, bool))
    requires
        strictly_sorted(rows(names@)),
    ensures
        r.0 == lower_bound(rows(names@), c@),
        r.0 <= names@.len(),
        r.1 == rows(names@).contains(c@),
        r.1 ==> r.0 < names@.len() && names@[r.0 as int]@ == c@,
{
    let ghost all = rows(names@);
    let mut k: usize = 0;
    let mut found = false;
    assert(all.skip(0) == all);
    while k < names.len()
        invariant_except_break
            !found,
            lower_bound(all, c@) == k + lower_bound(all.skip(k as int), c@),
        invariant
            k <= names@.len(),
            all == rows(names@),
        ensures
            k <= names@.len(),
            k == lower_bound(all, c@),
            found == (k < all.len() && all[k as int] == c@),
        decreases names@.len() - k,
    {
        assert(all.skip(k as int)[0] == names@[k as int]@);
        match name_place(names[k].as_slice(), c) {
            Place::Before => {
                assert(all.skip(k as int).drop_first() == all.skip(k + 1));
                k += 1;
            },
            Place::Same => {
                proof {
                    lemma_name_lt_irreflexive(c@);
                }
                found = true;
                break ;
            },
            Place::After => {
                proof {
                    lemma_name_lt_total(all[k as int], c@);
                }
                break ;
            },
        }
    }
    proof {
        lemma_lower_bound(all, c@);
        if all.contains(c@) {
            let i = choose|i: int| 0 <= i < all.len() && all[i] == c@;
            assert(i == k);
        }
    }
    (k, found)
}

/// Puts `c` in its place in the sorted listing, unless it is there.
pub(crate) fn insert_sorted(names: &mut Vec<Vec<char>>, c: Vec<char>)
    requires
        strictly_sorted(rows(old(names)@)),
    ensures
        rows(final(names)@) == insert_name(rows(old(names)@), c@),
        strictly_sorted(rows(final(names)@)),
{
    let (k, found) = locate(names, c.as_slice());
    proof {
        lemma_insert_name(rows(names@), c@);
    }
    if !found {
        let ghost before = names@;
        names.insert(k, c);
        assert(rows(names@) =~= rows(before).insert(k as int, c@));
    }
}

} // verus!

//! The ballot grammar. Each line of the text is one vote:
//!
//! ```text
//! candidate (('>' | '=') candidate)* ('*' weight)?
//! ```
//!
//! A candidate is a run of characters other than `*`, `>` and `=`, with the
//! white space at its ends taken off. `>` puts the next candidate one tier
//! lower, `=` keeps it on the same tier. The weight says how many equal
//! ballots the line stands for.

use crate::errors::VoteError;
use crate::text::{chars_of, find_either, first_of, lemma_first_of, string_of, trim, trim_bounds};
use vstd::prelude::*;
use vstd::slice::slice_subrange;

verus! {

/// One ranked vote: candidates with their tiers. Tier 0 is the most
/// preferred; candidates on one tier are equally preferred.
pub type RankedVote = Vec<(String, u32)>;

/// Ranked votes, each with its weight.
pub type WeightedRankedVote = Vec<(RankedVote, u32)>;

/// First choices, each with the weight of its vote.
pub type WeightedUnrankedVote = Vec<(String, u32)>;

/// The outcome of a tally: candidates with their ranks, best first. Rank 0
/// is the best, and tied candidates share a rank.
pub type Ranking = Vec<(String, usize)>;

/// The model of a ranked vote.
pub type Tiers = Seq<(Seq<char>, u32)>;

/// The model of a list of weighted ranked votes.
pub type Ballots = Seq<(Seq<(Seq<char>, u32)>, u32)>;

/// Whether `c` is a decimal digit.
pub open spec fn is_digit(c: char) -> bool {
    '0' <= c <= '9'
}

/// The number that the digits of `s` write in base ten.
pub open spec fn decimal(s: Seq<char>) -> nat
    decreases s.len(),
{
    if s.len() == 0 {
        0
    } else {
        decimal(s.drop_last()) * 10 + (s.last() as u32 - '0' as u32) as nat
    }
}

/// The digits of a weight field: the field without a leading `+`.
pub open spec fn weight_digits(t: Seq<char>) -> Seq<char> {
    if t.len() > 0 && t[0] == '+' {
        t.drop_first()
    } else {
        t
    }
}

/// The weight that the text behind a `*` states: a decimal number from 1
/// to `u32::MAX`, which may carry a `+` and be surrounded by white space.
/// `None` for any other text.
pub open spec fn weight_of(field: Seq<char>) -> Option<u32> {
    let digits = weight_digits(trim(field));
    if digits.len() > 0 && (forall|i: int| 0 <= i < digits.len() ==> is_digit(digits[i])) && 1
        <= decimal(digits) <= u32::MAX {
        Some(decimal(digits) as u32)
    } else {
        None
    }
}

/// The ranked vote that `s` states, its first candidate standing on `tier`.
/// `None` where a candidate is missing before or after a `>` or `=`, or
/// where a tier would not fit `u32`.
pub open spec fn ranking_of(s: Seq<char>, tier: nat) -> Option<Tiers>
    decreases s.len(),
    via ranking_of_decreases
{
    let k = first_of(s, '>', '=');
    let name = trim(s.take(k));
    if name.len() == 0 || tier > u32::MAX {
        None
    } else if k >= s.len() {
        Some(seq![(name, tier as u32)])
    } else {
        let next = if s[k] == '>' {
            tier + 1
        } else {
            tier
        };
        match ranking_of(s.skip(k + 1), next as nat) {
            None => None,
            Some(rest) => Some(seq![(name, tier as u32)] + rest),
        }
    }
}

#[via_fn]
proof fn ranking_of_decreases(s: Seq<char>, tier: nat) {
    lemma_first_of(s, '>', '=');
}

/// The vote that one line states, with its weight: an empty vote of weight
/// 1 for a blank line, `None` for a line that breaks the grammar.
pub open spec fn parse_line(line: Seq<char>) -> Option<(Tiers, u32)> {
    let t = trim(line);
    let k = first_of(t, '*', '*');
    if t.len() == 0 {
        Some((Seq::empty(), 1u32))
    } else {
        match (
            ranking_of(t.take(k), 0),
            if k < t.len() {
                weight_of(t.skip(k + 1))
            } else {
                Some(1u32)
            },
        ) {
            (Some(r), Some(w)) => Some((r, w)),
            _ => None,
        }
    }
}

/// The lines of a text. A line ends at a line feed or at the end of the
/// text; a line feed at the very end opens no further line.
pub open spec fn split_lines(text: Seq<char>) -> Seq<Seq<char>>
    decreases text.len(),
    via split_lines_decreases
{
    let k = first_of(text, '\n', '\n');
    if text.len() == 0 {
        Seq::empty()
    } else if k >= text.len() {
        seq![text]
    } else {
        seq![text.take(k)] + split_lines(text.skip(k + 1))
    }
}

#[via_fn]
proof fn split_lines_decreases(text: Seq<char>) {
    lemma_first_of(text, '\n', '\n');
}

/// Whether the vote names a candidate twice.
pub open spec fn has_repeat(vote: Tiers) -> bool {
    exists|i: int, j: int| 0 <= i < j < vote.len() && vote[i].0 == vote[j].0
}

/// Whether some line of the text breaks the grammar.
pub open spec fn some_line_malformed(lines: Seq<Seq<char>>) -> bool {
    exists|i: int| 0 <= i < lines.len() && parse_line(#[trigger] lines[i]) is None
}

/// Whether some line of the text names a candidate twice.
pub open spec fn some_line_repeats(lines: Seq<Seq<char>>) -> bool {
    exists|i: int|
        0 <= i < lines.len() && parse_line(#[trigger] lines[i]) is Some && has_repeat(
            (parse_line(lines[i])->0).0,
        )
}

/// The votes that the lines state, in the order of the lines.
pub open spec fn votes_of(lines: Seq<Seq<char>>) -> Ballots {
    lines.map_values(|l: Seq<char>| parse_line(l)->0)
}

/// What a ballot text states: its votes line by line, or the reason why
/// it states none. A malformed line anywhere outweighs a repeated
/// candidate.
pub open spec fn parse_text(text: Seq<char>) -> Result<Ballots, VoteError> {
    let lines = split_lines(text);
    if some_line_malformed(lines) {
        Err(VoteError::Parse)
    } else if some_line_repeats(lines) {
        Err(VoteError::DuplicateCandidate)
    } else {
        Ok(votes_of(lines))
    }
}

/// The number written by a part of the digits is no greater than the
/// number written by all of them.
proof fn lemma_decimal_grows(s: Seq<char>, i: int)
    requires
        0 <= i <= s.len(),
        forall|j: int| 0 <= j < s.len() ==> is_digit(s[j]),
    ensures
        decimal(s.take(i)) <= decimal(s),
    decreases s.len() - i,
{
    if i < s.len() {
        lemma_decimal_grows(s, i + 1);
        assert(s.take(i + 1).drop_last() == s.take(i));
    } else {
        assert(s.take(i) == s);
    }
}

/// Reads the weight behind a `*`.
pub(crate) fn parse_weight(field: &[char]) -> (w: Option<u32>)
    ensures
        w == weight_of(field@),
{
    let (a, b) = trim_bounds(field);
    let t = slice_subrange(field, a, b);
    let start: usize = if t.len() > 0 && t[0] == '+' {
        1
    } else {
        0
    };
    let digits = slice_subrange(t, start, t.len());
    assert(digits@ == weight_digits(trim(field@)));
    if digits.len() == 0 {
        return None;
    }
    let mut acc: u64 = 0;
    let mut i: usize = 0;
    assert(digits@.take(0) == Seq::<char>::empty());
    while i < digits.len()
        invariant
            i <= digits@.len(),
            digits@ == weight_digits(trim(field@)),
            acc == decimal(digits@.take(i as int)),
            acc <= u32::MAX,
            forall|j: int| 0 <= j < i ==> is_digit(digits@[j]),
        decreases digits@.len() - i,
    {
        let c = digits[i];
        if !('0' <= c && c <= '9') {
            return None;
        }
        assert(digits@.take(i + 1).drop_last() == digits@.take(i as int));
        acc = acc * 10 + ((c as u32 - '0' as u32) as u64);
        if acc > 0xffff_ffff {
            proof {
                if forall|j: int| 0 <= j < digits@.len() ==> is_digit(digits@[j]) {
                    lemma_decimal_grows(digits@, i + 1);
                }
            }
            return None;
        }
        i += 1;
    }
    assert(digits@.take(i as int) == digits@);
    if acc == 0 {
        None
    } else {
        Some(acc as u32)
    }
}

/// What is left of `rest` after `head`, where there is anything left.
pub open spec fn prepend(head: Tiers, rest: Option<Tiers>) -> Option<Tiers> {
    match rest {
        None => None,
        Some(r) => Some(head + r),
    }
}

/// Reads the candidates of a line, which stand before its `*`.
pub(crate) fn parse_ranking(s: &[char]) -> (r: Option<RankedVote>)
    ensures
        match r {
            Some(v) => ranking_of(s@, 0) == Some(v.deep_view()),
            None => ranking_of(s@, 0) is None,
        },
{
    let n = s.len();
    let mut out: RankedVote = Vec::new();
    let mut pos: usize = 0;
    let mut tier: u64 = 0;
    proof {
        assert(s@.skip(0) == s@);
        assert(out.deep_view() == Seq::<(Seq<char>, u32)>::empty());
        if let Some(all) = ranking_of(s@, 0) {
            assert(out.deep_view() + all == all);
        }
    }
    loop
        invariant
            pos <= n == s@.len(),
            tier <= u32::MAX + 1,
            ranking_of(s@, 0) == prepend(
                out.deep_view(),
                ranking_of(s@.skip(pos as int), tier as nat),
            ),
        decreases n - pos,
    {
        let ghost rest = s@.skip(pos as int);
        let ghost head = out.deep_view();
        let k = find_either(s, pos, '>', '=');
        let segment = slice_subrange(s, pos, k);
        assert(segment@ == rest.take(k - pos));
        let (a, b) = trim_bounds(segment);
        if a == b || tier > 0xffff_ffff {
            return None;
        }
        let ghost entry = (trim(segment@), tier as u32);
        out.push((string_of(slice_subrange(segment, a, b)), tier as u32));
        assert(out.deep_view() == head.push(entry));
        if k == n {
            assert(head + seq![entry] == out.deep_view());
            return Some(out);
        }
        assert(rest[k - pos] == s@[k as int]);
        if s[k] == '>' {
            tier = tier + 1;
        }
        proof {
            assert(rest.skip(k - pos + 1) == s@.skip(k + 1));
            if let Some(more) = ranking_of(s@.skip(k + 1), tier as nat) {
                assert(head + (seq![entry] + more) == out.deep_view() + more);
            }
        }
        pos = k + 1;
    }
}

/// Reads one line of the ballot text.
pub(crate) fn read_line(line: &[char]) -> (r: Option<(RankedVote, u32)>)
    ensures
        match r {
            Some(v) => parse_line(line@) == Some(v.deep_view()),
            None => parse_line(line@) is None,
        },
{
    let (a, b) = trim_bounds(line);
    let t = slice_subrange(line, a, b);
    if t.len() == 0 {
        let empty: RankedVote = Vec::new();
        assert(empty.deep_view() == Seq::<(Seq<char>, u32)>::empty());
        return Some((empty, 1));
    }
    let k = find_either(t, 0, '*', '*');
    assert(t@.skip(0) == t@);
    let ranking = parse_ranking(slice_subrange(t, 0, k));
    let weight = if k < t.len() {
        parse_weight(slice_subrange(t, k + 1, t.len()))
    } else {
        Some(1)
    };
    match (ranking, weight) {
        (Some(r), Some(w)) => Some((r, w)),
        _ => None,
    }
}

/// Whether the vote names a candidate twice.
pub(crate) fn names_repeat(vote: &RankedVote) -> (b: bool)
    ensures
        b == has_repeat(vote.deep_view()),
{
    let ghost model = vote.deep_view();
    let mut j: usize = 0;
    while j < vote.len()
        invariant
            j <= vote@.len(),
            model == vote.deep_view(),
            forall|x: int, y: int| 0 <= x < y < j ==> model[x].0 != model[y].0,
        decreases vote@.len() - j,
    {
        let mut i: usize = 0;
        while i < j
            invariant
                i <= j < vote@.len(),
                model == vote.deep_view(),
                forall|x: int| 0 <= x < i ==> model[x].0 != model[j as int].0,
            decreases j - i,
        {
            assert(model[i as int].0 == vote@[i as int].0@);
            assert(model[j as int].0 == vote@[j as int].0@);
            if vote[i].0 == vote[j].0 {
                return true;
            }
            i += 1;
        }
        j += 1;
    }
    false
}

/// What one more line adds to the lines read so far.
proof fn lemma_one_more_line(done: Seq<Seq<char>>, line: Seq<char>)
    ensures
        some_line_malformed(done.push(line)) == (some_line_malformed(done) || parse_line(
            line,
        ) is None),
        some_line_repeats(done.push(line)) == (some_line_repeats(done) || (parse_line(line) is Some
            && has_repeat((parse_line(line)->0).0))),
        votes_of(done.push(line)) == votes_of(done).push(parse_line(line)->0),
{
    let more = done.push(line);
    assert(more[done.len() as int] == line);
    assert forall|i: int| 0 <= i < done.len() implies #[trigger] more[i] == done[i] by {}
    if some_line_malformed(done) {
        let i = choose|i: int| 0 <= i < done.len() && parse_line(#[trigger] done[i]) is None;
        assert(parse_line(more[i]) is None);
    }
    if some_line_repeats(done) {
        let i = choose|i: int|
            0 <= i < done.len() && parse_line(#[trigger] done[i]) is Some && has_repeat(
                (parse_line(done[i])->0).0,
            );
        assert(parse_line(more[i]) is Some && has_repeat((parse_line(more[i])->0).0));
    }
    if some_line_malformed(more) {
        let i = choose|i: int| 0 <= i < more.len() && parse_line(#[trigger] more[i]) is None;
        if i < done.len() {
            assert(parse_line(done[i]) is None);
        }
    }
    if some_line_repeats(more) {
        let i = choose|i: int|
            0 <= i < more.len() && parse_line(#[trigger] more[i]) is Some && has_repeat(
                (parse_line(more[i])->0).0,
            );
        if i < done.len() {
            assert(parse_line(done[i]) is Some && has_repeat((parse_line(done[i])->0).0));
        }
    }
    assert(votes_of(more) =~= votes_of(done).push(parse_line(line)->0));
}

/// Reads a ballot text: one vote for each line, a blank line giving an
/// empty vote of weight 1.
///
/// Fails with `VoteError::Parse` where a line breaks the grammar, and
/// otherwise with `VoteError::DuplicateCandidate` where a line names a
/// candidate twice.
pub fn parse_votes(raw: &str) -> (res: Result<WeightedRankedVote, VoteError>)
    ensures
        match res {
            Ok(v) => parse_text(raw@) == Ok::<Ballots, VoteError>(v.deep_view()),
            Err(e) => parse_text(raw@) == Err::<Ballots, VoteError>(e),
        },
{
    let chars = chars_of(raw);
    let text = chars.as_slice();
    let n = text.len();
    let mut votes: WeightedRankedVote = Vec::new();
    let mut repeated = false;
    let mut pos: usize = 0;
    let ghost mut done: Seq<Seq<char>> = Seq::empty();
    assert(text@.skip(0) == text@);
    assert(done + split_lines(text@) == split_lines(text@));
    assert(votes.deep_view() == votes_of(done));
    while pos < n
        invariant
            pos <= n == text@.len(),
            text@ == raw@,
            split_lines(text@) == done + split_lines(text@.skip(pos as int)),
            !some_line_malformed(done),
            repeated == some_line_repeats(done),
            votes.deep_view() == votes_of(done),
        decreases n - pos,
    {
        let ghost rest = text@.skip(pos as int);
        let k = find_either(text, pos, '\n', '\n');
        let line = slice_subrange(text, pos, k);
        proof {
            lemma_one_more_line(done, line@);
            lemma_first_of(rest, '\n', '\n');
            if k < n {
                assert(line@ == rest.take(k - pos));
                assert(rest.skip(k - pos + 1) == text@.skip(k + 1));
                assert(done + split_lines(rest) == done.push(line@) + split_lines(
                    text@.skip(k + 1),
                ));
            } else {
                assert(line@ == rest);
                assert(split_lines(text@.skip(n as int)) == Seq::<Seq<char>>::empty());
                assert(done + split_lines(rest) == done.push(line@) + split_lines(
                    text@.skip(n as int),
                ));
            }
        }
        match read_line(line) {
            None => {
                proof {
                    let lines = split_lines(text@);
                    assert(lines[done.len() as int] == line@);
                }
                return Err(VoteError::Parse);
            },
            Some(v) => {
                if names_repeat(&v.0) {
                    repeated = true;
                }
                let ghost before = votes.deep_view();
                votes.push(v);
                assert(votes.deep_view() == before.push(v.deep_view()));
            },
        }
        proof {
            done = done.push(line@);
        }
        pos = if k < n {
            k + 1
        } else {
            n
        };
    }
    assert(split_lines(text@) == done);
    if repeated {
        Err(VoteError::DuplicateCandidate)
    } else {
        Ok(votes)
    }
}

} // verus!

use voter::{
    as_unranked_votes, candidates_from_votes, consolidate_unranked_votes, lottery_with_rolls,
    parse_votes, pick_winner, plurality, schulze, weighted_random, Ranking, VoteError,
    WeightedRankedVote, WeightedUnrankedVote,
};

fn ranking(entries: &[(&str, usize)]) -> Ranking {
    entries.iter().map(|(name, rank)| (name.to_string(), *rank)).collect()
}

fn choices(entries: &[(&str, u32)]) -> WeightedUnrankedVote {
    entries.iter().map(|(name, weight)| (name.to_string(), *weight)).collect()
}

fn names(list: &[&str]) -> Vec<String> {
    list.iter().map(|name| name.to_string()).collect()
}

fn ranked(entries: &[(&[(&str, u32)], u32)]) -> WeightedRankedVote {
    entries
        .iter()
        .map(|(tiers, weight)| {
            (
                tiers.iter().map(|(name, tier)| (name.to_string(), *tier)).collect(),
                *weight,
            )
        })
        .collect()
}

#[test]
fn first_choices_keep_the_weight_of_their_votes() {
    let votes = parse_votes("A > B * 3\n\nB = C > A\nC").unwrap();
    assert_eq!(as_unranked_votes(&votes), Err(VoteError::AmbiguousFirstChoice));
    let votes = parse_votes("A > B * 3\n\nB > C = A\nC").unwrap();
    assert_eq!(
        as_unranked_votes(&votes),
        Ok(choices(&[("A", 3), ("B", 1), ("C", 1)]))
    );
}

#[test]
fn votes_without_a_first_tier_are_passed_over() {
    let votes = ranked(&[(&[("A", 1), ("B", 2)], 4), (&[], 2), (&[("B", 3), ("C", 0)], 5)]);
    assert_eq!(as_unranked_votes(&votes), Ok(choices(&[("C", 5)])));
}

#[test]
fn two_candidates_on_tier_zero_are_ambiguous_wherever_they_stand() {
    let votes = ranked(&[(&[("A", 0), ("B", 1), ("C", 0)], 1)]);
    assert_eq!(as_unranked_votes(&votes), Err(VoteError::AmbiguousFirstChoice));
}

#[test]
fn consolidation_sums_by_candidate_in_lexical_order() {
    let pool = consolidate_unranked_votes(&choices(&[
        ("pear", 2),
        ("apple", 1),
        ("pear", 40),
        ("fig", u32::MAX),
        ("fig", u32::MAX),
        ("Pear", 0),
    ]));
    assert_eq!(
        pool,
        vec![
            ("Pear".to_string(), 0u128),
            ("apple".to_string(), 1),
            ("fig".to_string(), 2 * (u32::MAX as u128)),
            ("pear".to_string(), 42),
        ]
    );
}

#[test]
fn candidates_are_all_names_on_all_tiers() {
    let votes = parse_votes("b > a\n\nc = a > d\nb").unwrap();
    assert_eq!(candidates_from_votes(&votes), names(&["a", "b", "c", "d"]));
    assert_eq!(candidates_from_votes(&Vec::new()), names(&[]));
}

#[test]
fn lexical_order_goes_by_character() {
    let votes = parse_votes("b\nB\nab\na\n\u{e9}\nz\nabc\n10\n9").unwrap();
    assert_eq!(
        candidates_from_votes(&votes),
        names(&["10", "9", "B", "a", "ab", "abc", "b", "z", "\u{e9}"])
    );
    let mut sorted = candidates_from_votes(&votes);
    sorted.sort();
    assert_eq!(candidates_from_votes(&votes), sorted);
}

#[test]
fn plurality_leaves_out_candidates_without_support() {
    let got = plurality(
        &choices(&[("B", 1), ("A", 2), ("D", 0), ("E", 7)]),
        &names(&["A", "B", "C", "D"]),
    );
    assert_eq!(got, ranking(&[("A", 0), ("B", 1)]));
}

#[test]
fn plurality_rank_is_the_number_of_candidates_ahead() {
    let got = plurality(
        &choices(&[("A", 5), ("B", 3), ("C", 3), ("D", 3), ("E", 1), ("F", 1), ("A", 1)]),
        &names(&["F", "E", "D", "C", "B", "A", "A"]),
    );
    assert_eq!(
        got,
        ranking(&[("A", 0), ("B", 1), ("C", 1), ("D", 1), ("E", 4), ("F", 4)])
    );
}

#[test]
fn plurality_sums_beyond_the_range_of_a_weight() {
    let got = plurality(
        &choices(&[("A", u32::MAX), ("B", u32::MAX), ("B", 1), ("A", 2)]),
        &names(&["A", "B"]),
    );
    assert_eq!(got, ranking(&[("A", 0), ("B", 1)]));
}

#[test]
fn schulze_with_one_candidate_does_not_look_at_the_votes() {
    let votes = ranked(&[(&[("X", 0), ("X", 1)], 1), (&[("Y", 0)], 1)]);
    assert_eq!(schulze(&votes, names(&["A"])), Ok(ranking(&[("A", 0)])));
    assert_eq!(schulze(&votes, names(&["A", "A"])), Ok(ranking(&[("A", 0)])));
}

#[test]
fn schulze_refuses_invalid_votes() {
    let twice = ranked(&[(&[("A", 0), ("B", 1)], 1), (&[("A", 0), ("A", 1)], 1)]);
    assert_eq!(schulze(&twice, names(&["A", "B"])), Err(VoteError::InvalidVote));
    let stranger = ranked(&[(&[("A", 0), ("C", 1)], 1)]);
    assert_eq!(schulze(&stranger, names(&["A", "B"])), Err(VoteError::InvalidVote));
    assert_eq!(schulze(&stranger, names(&[])), Err(VoteError::InvalidVote));
}

#[test]
fn schulze_without_candidates_is_empty() {
    assert_eq!(schulze(&ranked(&[(&[], 3)]), names(&[])), Ok(ranking(&[])));
}

#[test]
fn schulze_counts_candidates_without_votes() {
    let votes = ranked(&[(&[("B", 0)], 2)]);
    assert_eq!(
        schulze(&votes, names(&["C", "B", "A"])),
        Ok(ranking(&[("B", 0), ("A", 1), ("C", 1)]))
    );
}

#[test]
fn schulze_follows_the_strongest_path() {
    // A beats B 6 to 3, B beats C 7 to 2, C beats A 5 to 4: the cycle breaks
    // at its weakest link, C over A.
    let votes = parse_votes("A > B > C * 4\nB > C > A * 3\nC > A > B * 2").unwrap();
    let candidates = candidates_from_votes(&votes);
    assert_eq!(
        schulze(&votes, candidates),
        Ok(ranking(&[("A", 0), ("B", 1), ("C", 2)]))
    );
}

#[test]
fn schulze_sums_beyond_the_range_of_a_weight() {
    let votes = ranked(&[
        (&[("A", 0), ("B", 1)], u32::MAX),
        (&[("A", 0), ("B", 1)], u32::MAX),
        (&[("B", 0), ("A", 1)], u32::MAX),
        (&[("B", 0), ("A", 1)], 5),
    ]);
    assert_eq!(
        schulze(&votes, names(&["A", "B"])),
        Ok(ranking(&[("A", 0), ("B", 1)]))
    );
}

#[test]
fn a_roll_falls_on_the_candidate_whose_numbers_hold_it() {
    let pool = vec![
        ("A".to_string(), 3u128),
        ("B".to_string(), 0),
        ("C".to_string(), 1),
        ("D".to_string(), 2),
    ];
    let picked: Vec<usize> = (1..=6).map(|roll| pick_winner(&pool, roll)).collect();
    assert_eq!(picked, vec![0, 0, 0, 2, 3, 3]);
}

#[test]
fn given_rolls_pin_the_lottery() {
    let votes = choices(&[("B", 1), ("A", 9)]);
    // pool: A holds 1 to 9, B holds 10
    assert_eq!(
        lottery_with_rolls(&votes, &vec![9, 1]),
        Some(ranking(&[("A", 0), ("B", 1)]))
    );
    assert_eq!(
        lottery_with_rolls(&votes, &vec![10, 9]),
        Some(ranking(&[("B", 0), ("A", 1)]))
    );
    let votes = choices(&[("C", 2), ("A", 1), ("B", 3), ("C", 1)]);
    // pool: A 1, B 2 to 4, C 5 to 7; then A 1, C 2 to 4; then A 1
    assert_eq!(
        lottery_with_rolls(&votes, &vec![3, 2, 1]),
        Some(ranking(&[("B", 0), ("C", 1), ("A", 2)]))
    );
}

#[test]
fn rolls_must_fit_the_draws() {
    let votes = choices(&[("B", 1), ("A", 9)]);
    assert_eq!(lottery_with_rolls(&votes, &vec![]), None);
    assert_eq!(lottery_with_rolls(&votes, &vec![5]), None);
    assert_eq!(lottery_with_rolls(&votes, &vec![5, 1, 1]), None);
    assert_eq!(lottery_with_rolls(&votes, &vec![0, 1]), None);
    assert_eq!(lottery_with_rolls(&votes, &vec![11, 1]), None);
    assert_eq!(lottery_with_rolls(&votes, &vec![5, 2]), None);
    assert_eq!(lottery_with_rolls(&choices(&[]), &vec![]), Some(ranking(&[])));
    assert_eq!(lottery_with_rolls(&choices(&[]), &vec![1]), None);
}

#[test]
fn lottery_leaves_out_candidates_without_weight() {
    let votes = choices(&[("A", 0), ("B", 2), ("C", 0)]);
    assert_eq!(
        lottery_with_rolls(&votes, &vec![2]),
        Some(ranking(&[("B", 0)]))
    );
    assert_eq!(weighted_random(&votes), ranking(&[("B", 0)]));
}

#[test]
fn nine_of_ten_rolls_draw_the_candidate_with_nine_of_ten_votes() {
    let votes = choices(&[("Heavy", 9), ("Light", 1)]);
    let mut heavy_first = 0;
    for roll in 1..=10u128 {
        let second = 1;
        let got = lottery_with_rolls(&votes, &vec![roll, second]).unwrap();
        if got[0].0 == "Heavy" {
            heavy_first += 1;
        }
    }
    assert_eq!(heavy_first, 9);
}

#[test]
fn weighted_random_favours_the_heavier_candidate() {
    let votes = choices(&[("Light", 1), ("Heavy", 9)]);
    let mut heavy_first = 0;
    for _ in 0..400 {
        let got = weighted_random(&votes);
        assert_eq!(got.len(), 2);
        assert_eq!((got[0].1, got[1].1), (0, 1));
        if got[0].0 == "Heavy" {
            assert_eq!(got[1].0, "Light");
            heavy_first += 1;
        } else {
            assert_eq!((got[0].0.as_str(), got[1].0.as_str()), ("Light", "Heavy"));
        }
    }
    assert!(heavy_first > 300 && heavy_first < 400, "{}", heavy_first);
}

#[test]
fn weight_counts_like_equal_ballots_in_the_lottery() {
    let weighted = as_unranked_votes(&parse_votes("X * 5\nY * 2").unwrap()).unwrap();
    let repeated = as_unranked_votes(&parse_votes("X\nY\nX\nX\nY\nX\nX").unwrap()).unwrap();
    for rolls in [vec![1u128, 1], vec![5, 2], vec![6, 5], vec![7, 1]] {
        let one = lottery_with_rolls(&weighted, &rolls);
        assert!(one.is_some());
        assert_eq!(one, lottery_with_rolls(&repeated, &rolls));
    }
}

#[test]
fn plurality_agrees_with_tallystick_where_no_totals_tie() {
    let votes = choices(&[("A", 4), ("B", 9), ("C", 1), ("A", 2), ("D", 3)]);
    let candidates = names(&["A", "B", "C", "D"]);
    let mut outside = tallystick::plurality::DefaultPluralityTally::new(candidates.len());
    for (name, weight) in votes.iter() {
        outside.add_weighted(name.clone(), *weight as u64);
    }
    let expected: Ranking = outside
        .winners()
        .iter()
        .map(|w| (w.candidate.to_string(), w.rank))
        .collect();
    assert_eq!(plurality(&votes, &candidates), expected);
}

#[test]
fn the_ballot_grammar_agrees_with_tallystick_on_well_formed_lines() {
    let text = "Strawberry > Apple > Banana\nStrawberry > Banana = Apple * 5\nApple\n";
    let outside: Vec<(tallystick::util::ParsedVote, u32)> =
        tallystick::util::read_votes(std::io::Cursor::new(text)).unwrap();
    let expected: WeightedRankedVote = outside
        .into_iter()
        .map(|(vote, weight)| (vote.into_ranked(), weight))
        .collect();
    assert_eq!(parse_votes(text), Ok(expected));
}

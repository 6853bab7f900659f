use voter::{parse_votes, vote, Method, Ranking, VoteError};

fn ranking(entries: &[(&str, usize)]) -> Ranking {
    entries.iter().map(|(name, rank)| (name.to_string(), *rank)).collect()
}

#[test]
fn plurality_counts_first_choices() {
    let got = vote("Apple\nApple\nBanana", "Plurality");
    assert_eq!(got, Ok(ranking(&[("Apple", 0), ("Banana", 1)])));
}

#[test]
fn plurality_uses_only_the_first_choice_of_ranked_votes() {
    let got = vote("A > B > C\nB > A\nB", "Plurality");
    assert_eq!(got, Ok(ranking(&[("B", 0), ("A", 1)])));
}

#[test]
fn plurality_ties_share_a_rank_and_the_next_rank_skips() {
    let got = vote("B * 2\nA * 2\nC", "Plurality");
    assert_eq!(got, Ok(ranking(&[("A", 0), ("B", 0), ("C", 2)])));
}

#[test]
fn plurality_ties_stand_in_lexical_order() {
    let got = vote("pear\nfig\napple\nFig", "Plurality");
    assert_eq!(
        got,
        Ok(ranking(&[("Fig", 0), ("apple", 0), ("fig", 0), ("pear", 0)]))
    );
}

#[test]
fn schulze_cycle_ties_everybody() {
    let got = vote("A > B > C\nB > C > A\nC > A > B", "Schulze Winning");
    assert_eq!(got, Ok(ranking(&[("A", 0), ("B", 0), ("C", 0)])));
}

#[test]
fn schulze_equal_pairwise_counts_tie() {
    let got = vote("A > B\nB > A\nA = B", "Schulze Winning");
    assert_eq!(got, Ok(ranking(&[("A", 0), ("B", 0)])));
}

#[test]
fn schulze_ranks_a_clear_order() {
    let got = vote("A > B > C * 3\nB > A > C", "Schulze Winning");
    assert_eq!(got, Ok(ranking(&[("A", 0), ("B", 1), ("C", 2)])));
}

#[test]
fn schulze_textbook_election() {
    let text = "A > C > B > E > D * 5\n\
                A > D > E > C > B * 5\n\
                B > E > D > A > C * 8\n\
                C > A > B > E > D * 3\n\
                C > A > E > B > D * 7\n\
                C > B > A > D > E * 2\n\
                D > C > E > B > A * 7\n\
                E > B > A > D > C * 8";
    let got = vote(text, "Schulze Winning");
    assert_eq!(
        got,
        Ok(ranking(&[("E", 0), ("A", 1), ("C", 2), ("B", 3), ("D", 4)]))
    );
}

#[test]
fn schulze_puts_unlisted_candidates_last() {
    let got = vote("A\nB > C", "Schulze Winning");
    // A beats nobody outright: one vote each way against B and against C.
    assert_eq!(got, Ok(ranking(&[("A", 0), ("B", 0), ("C", 1)])));
}

#[test]
fn schulze_rank_counts_the_candidates_that_beat() {
    // A and B are tied with each other and both beat C.
    let got = vote("A = B > C", "Schulze Winning");
    assert_eq!(got, Ok(ranking(&[("A", 0), ("B", 0), ("C", 2)])));
}

#[test]
fn single_candidate_wins_under_every_method() {
    for method in Method::all() {
        let got = vote("Solo\nSolo * 3\n\nSolo", &method.to_string());
        assert_eq!(got, Ok(ranking(&[("Solo", 0)])), "{:?}", method);
    }
}

#[test]
fn duplicate_candidate_fails_under_every_method() {
    for method in Method::all() {
        let got = vote("A > A", &method.to_string());
        assert_eq!(got, Err(VoteError::DuplicateCandidate), "{:?}", method);
    }
}

#[test]
fn tied_first_choice_fails_where_one_choice_is_needed() {
    assert_eq!(vote("A = B", "Plurality"), Err(VoteError::AmbiguousFirstChoice));
    assert_eq!(
        vote("A = B", "Weighted Random"),
        Err(VoteError::AmbiguousFirstChoice)
    );
    assert_eq!(
        vote("A = B", "Schulze Winning"),
        Ok(ranking(&[("A", 0), ("B", 0)]))
    );
}

#[test]
fn unknown_method_is_an_error() {
    assert_eq!(vote("A", "Borda"), Err(VoteError::UnknownMethod));
    assert_eq!(vote("A", "plurality"), Err(VoteError::UnknownMethod));
    assert_eq!(vote("A", ""), Err(VoteError::UnknownMethod));
}

#[test]
fn parse_error_comes_before_unknown_method() {
    assert_eq!(vote("A >", "Borda"), Err(VoteError::Parse));
    assert_eq!(vote("A > A", "Borda"), Err(VoteError::DuplicateCandidate));
}

#[test]
fn malformed_line_outweighs_a_repeated_candidate() {
    assert_eq!(vote("A > A\nB >", "Plurality"), Err(VoteError::Parse));
    assert_eq!(vote("B >\nA > A", "Plurality"), Err(VoteError::Parse));
}

#[test]
fn empty_text_gives_an_empty_ranking() {
    for method in Method::all() {
        assert_eq!(vote("", &method.to_string()), Ok(vec![]), "{:?}", method);
        assert_eq!(vote("\n\n", &method.to_string()), Ok(vec![]), "{:?}", method);
    }
}

#[test]
fn weight_is_the_number_of_equal_ballots() {
    for method in ["Plurality", "Schulze Winning"] {
        let weighted = vote("X * 5\nY > X * 2\nZ", method);
        let repeated = vote("X\nX\nX\nX\nX\nY > X\nY > X\nZ", method);
        assert!(weighted.is_ok());
        assert_eq!(weighted, repeated, "{}", method);
    }
}

#[test]
fn line_order_does_not_matter() {
    for method in ["Plurality", "Schulze Winning"] {
        let one = vote("A > B\nC > A * 2\nB\nA = C > B", method);
        let other = vote("A = C > B\nB\nC > A * 2\nA > B", method);
        if method == "Plurality" {
            assert_eq!(one, Err(VoteError::AmbiguousFirstChoice));
        } else {
            assert!(one.is_ok());
        }
        assert_eq!(one, other, "{}", method);
    }
    assert_eq!(vote("A\nB * 2\nC", "Plurality"), vote("C\nA\nB * 2", "Plurality"));
}

#[test]
fn repeated_calls_give_the_same_result() {
    let text = "A > B = C * 2\nC > B\nB > A * 3";
    for method in ["Plurality", "Schulze Winning"] {
        assert_eq!(vote(text, method), vote(text, method));
    }
}

#[test]
fn weighted_random_ranks_every_supported_candidate_once() {
    for _ in 0..50 {
        let got = vote("A * 3\nB\nC > A * 2", "Weighted Random").unwrap();
        let mut names: Vec<String> = got.iter().map(|e| e.0.clone()).collect();
        names.sort();
        assert_eq!(names, vec!["A", "B", "C"]);
        let ranks: Vec<usize> = got.iter().map(|e| e.1).collect();
        assert_eq!(ranks, vec![0, 1, 2]);
    }
}

#[test]
fn parsed_votes_feed_every_tally() {
    let votes = parse_votes("A > B\nB").unwrap();
    assert_eq!(
        voter::tally(&votes, Method::Plurality),
        Ok(ranking(&[("A", 0), ("B", 0)]))
    );
    assert_eq!(
        voter::tally(&votes, Method::SchulzeWinning),
        Ok(ranking(&[("A", 0), ("B", 0)]))
    );
    let drawn = voter::tally(&votes, Method::WeightedRandom).unwrap();
    assert_eq!(drawn.len(), 2);
}

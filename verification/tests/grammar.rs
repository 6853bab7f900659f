use voter::{parse_votes, Method, VoteError, WeightedRankedVote};

fn votes(entries: &[(&[(&str, u32)], u32)]) -> WeightedRankedVote {
    entries
        .iter()
        .map(|(tiers, weight)| {
            (
                tiers.iter().map(|(name, tier)| (name.to_string(), *tier)).collect(),
                *weight,
            )
        })
        .collect()
}

#[test]
fn plain_names_are_votes_of_weight_one() {
    assert_eq!(
        parse_votes("Strawberry\nApple\nBanana\nApple"),
        Ok(votes(&[
            (&[("Strawberry", 0)], 1),
            (&[("Apple", 0)], 1),
            (&[("Banana", 0)], 1),
            (&[("Apple", 0)], 1),
        ]))
    );
}

#[test]
fn greater_than_lowers_the_tier_and_equals_keeps_it() {
    assert_eq!(
        parse_votes("Strawberry > Banana = Apple * 5"),
        Ok(votes(&[(&[("Strawberry", 0), ("Banana", 1), ("Apple", 1)], 5)]))
    );
    assert_eq!(
        parse_votes("A = B > C > D = E"),
        Ok(votes(&[(&[("A", 0), ("B", 0), ("C", 1), ("D", 2), ("E", 2)], 1)]))
    );
}

#[test]
fn names_are_trimmed_and_keep_inner_spaces() {
    assert_eq!(
        parse_votes("  Judge Judy \t>\u{a0}Abe  Vigoda\u{3000}*  12  "),
        Ok(votes(&[(&[("Judge Judy", 0), ("Abe  Vigoda", 1)], 12)]))
    );
}

#[test]
fn names_are_case_sensitive() {
    assert_eq!(
        parse_votes("apple > Apple"),
        Ok(votes(&[(&[("apple", 0), ("Apple", 1)], 1)]))
    );
}

#[test]
fn names_may_hold_any_other_character() {
    assert_eq!(
        parse_votes("Zoë-1, Jr. (a+b) > 梨"),
        Ok(votes(&[(&[("Zoë-1, Jr. (a+b)", 0), ("梨", 1)], 1)]))
    );
}

#[test]
fn blank_lines_are_empty_votes() {
    assert_eq!(
        parse_votes("A\n\n   \nB"),
        Ok(votes(&[(&[("A", 0)], 1), (&[], 1), (&[], 1), (&[("B", 0)], 1)]))
    );
}

#[test]
fn a_final_line_feed_opens_no_line() {
    assert_eq!(parse_votes("A\n"), Ok(votes(&[(&[("A", 0)], 1)])));
    assert_eq!(parse_votes(""), Ok(votes(&[])));
    assert_eq!(parse_votes("\n"), Ok(votes(&[(&[], 1)])));
}

#[test]
fn carriage_returns_end_lines_too() {
    assert_eq!(
        parse_votes("A > B * 2\r\nB\r\n"),
        Ok(votes(&[(&[("A", 0), ("B", 1)], 2), (&[("B", 0)], 1)]))
    );
}

#[test]
fn weights_are_decimal_numbers() {
    assert_eq!(parse_votes("A*7"), Ok(votes(&[(&[("A", 0)], 7)])));
    assert_eq!(parse_votes("A * 007"), Ok(votes(&[(&[("A", 0)], 7)])));
    assert_eq!(parse_votes("A * +7"), Ok(votes(&[(&[("A", 0)], 7)])));
    assert_eq!(
        parse_votes("A * 4294967295"),
        Ok(votes(&[(&[("A", 0)], u32::MAX)]))
    );
}

#[test]
fn bad_weights_are_parse_errors() {
    for text in [
        "A * 0",
        "A * 000",
        "A * -1",
        "A * 1.5",
        "A * two",
        "A *",
        "A * ",
        "A * +",
        "A * 4294967296",
        "A * 99999999999999999999999999",
        "A * 1 2",
        "A * 2 * 3",
        "A * 2 > B",
        "A * ٣",
    ] {
        assert_eq!(parse_votes(text), Err(VoteError::Parse), "{:?}", text);
    }
}

#[test]
fn stray_operators_are_parse_errors() {
    for text in [
        ">", "=", "*", "* 5", "A >", "> A", "A > > B", "A = = B", "A >= B", "A =", "= A",
        "A > B >", "A > * 2", "A\n> B",
    ] {
        assert_eq!(parse_votes(text), Err(VoteError::Parse), "{:?}", text);
    }
}

#[test]
fn repeated_candidates_are_refused() {
    for text in ["A > A", "A = A", "A > B > A", "A > B = A * 3", "B\nA >  A "] {
        assert_eq!(parse_votes(text), Err(VoteError::DuplicateCandidate), "{:?}", text);
    }
    assert!(parse_votes("A > a").is_ok());
}

#[test]
fn method_names_are_exact() {
    assert_eq!(Method::from_str("Plurality"), Ok(Method::Plurality));
    assert_eq!(Method::from_str("Schulze Winning"), Ok(Method::SchulzeWinning));
    assert_eq!(Method::from_str("Weighted Random"), Ok(Method::WeightedRandom));
    for name in ["", "plurality", "Plurality ", "SchulzeWinning", "Schulze", "Random"] {
        assert_eq!(Method::from_str(name), Err(VoteError::UnknownMethod), "{:?}", name);
    }
}

#[test]
fn methods_are_found_by_their_own_names() {
    let all = Method::all();
    assert_eq!(
        all,
        vec![Method::Plurality, Method::SchulzeWinning, Method::WeightedRandom]
    );
    for method in all {
        assert_eq!(Method::from_str(&method.to_string()), Ok(method));
    }
    assert_eq!(Method::SchulzeWinning.to_string(), "Schulze Winning");
}

#[test]
fn every_error_has_its_message() {
    assert_eq!(
        VoteError::Parse.message(),
        "Failed to parse votes, check for stray '*', '>', or '=' characters."
    );
    assert_eq!(
        VoteError::DuplicateCandidate.message(),
        "Failed to parse votes, candidate was used twice in a ranking."
    );
    assert_eq!(
        VoteError::AmbiguousFirstChoice.message(),
        "Vote has more than one first choice."
    );
    assert_eq!(
        VoteError::InvalidVote.message(),
        "Invalid vote was used. Check that vote order does not list candidate twice."
    );
    assert_eq!(VoteError::UnknownMethod.message(), "Matching variant not found");
}

#[test]
fn white_space_is_what_unicode_calls_white_space() {
    for code in 0..=0x10ffffu32 {
        let c = match char::from_u32(code) {
            Some(c) => c,
            None => continue,
        };
        if c == '\n' || c == '*' || c == '>' || c == '=' {
            continue;
        }
        let text: String = [c, 'A', c, 'B', c].iter().collect();
        let name: String = if c.is_whitespace() {
            ['A', c, 'B'].iter().collect()
        } else {
            text.clone()
        };
        assert_eq!(parse_votes(&text), Ok(votes(&[(&[(name.as_str(), 0)], 1)])), "{:?}", c);
    }
}

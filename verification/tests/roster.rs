use ljos_consensus::roster::{distinct_sorted, option_counts, placements, position};
use ljos_consensus::{roster, Ballot};

fn ballot(agent: &str, choice: &str) -> Ballot {
    Ballot { agent: agent.to_string(), choice: choice.to_string() }
}

#[test]
fn roster_is_distinct_and_sorted() {
    let ballots = vec![ballot("c", "ship"), ballot("a", "hold"), ballot("b", "ship"), ballot("a", "ship")];
    let (agents, options) = roster(&ballots);
    assert_eq!(agents, ["a", "b", "c"]);
    assert_eq!(options, ["hold", "ship"]);
}

#[test]
fn roster_of_nothing_is_empty() {
    let (agents, options) = roster(&[]);
    assert!(agents.is_empty());
    assert!(options.is_empty());
}

#[test]
fn roster_sorts_by_code_point() {
    let ballots = vec![ballot("b", "é"), ballot("B", "z"), ballot("ab", "e"), ballot("a", "Z")];
    let (agents, options) = roster(&ballots);
    assert_eq!(agents, ["B", "a", "ab", "b"]);
    assert_eq!(options, ["Z", "e", "z", "é"]);
    let mut sorted = options.clone();
    sorted.sort();
    assert_eq!(options, sorted);
}

#[test]
fn roster_ignores_ballot_order_and_repeats() {
    let first = vec![ballot("a", "x"), ballot("b", "y"), ballot("c", "x")];
    let second = vec![ballot("c", "x"), ballot("c", "y"), ballot("a", "x"), ballot("b", "x")];
    assert_eq!(roster(&first).0, roster(&second).0);
    assert_eq!(roster(&first).1, roster(&second).1);
}

#[test]
fn placements_point_each_ballot_at_its_row_and_column() {
    let ballots = vec![ballot("b", "ship"), ballot("a", "hold"), ballot("c", "ship")];
    let (agents, options, cells) = placements(&ballots);
    assert_eq!(agents, ["a", "b", "c"]);
    assert_eq!(options, ["hold", "ship"]);
    assert_eq!(cells, [(1, 1), (0, 0), (2, 1)]);
}

#[test]
fn position_is_the_first_match() {
    let names: Vec<String> = ["x", "y", "x"].iter().map(|s| s.to_string()).collect();
    assert_eq!(position(&names, &"x".to_string()), Some(0));
    assert_eq!(position(&names, &"y".to_string()), Some(1));
    assert_eq!(position(&names, &"z".to_string()), None);
}

#[test]
fn option_counts_count_ballots_per_option() {
    let ballots = vec![ballot("a", "yes"), ballot("b", "yes"), ballot("c", "yes"), ballot("d", "no"), ballot("e", "no")];
    let (_, options) = roster(&ballots);
    assert_eq!(options, ["no", "yes"]);
    assert_eq!(option_counts(&ballots, &options), [2, 3]);
    let other: Vec<String> = vec!["maybe".to_string()];
    assert_eq!(option_counts(&ballots, &other), [0]);
}

#[test]
fn distinct_sorted_names_of_trust_rows() {
    let names: Vec<String> = ["b", "a", "c", "b", "a"].iter().map(|s| s.to_string()).collect();
    assert_eq!(distinct_sorted(&names), ["a", "b", "c"]);
}

#[test]
fn counts_over_the_roster_add_up_to_the_ballots() {
    let ballots = vec![ballot("a", "x"), ballot("a", "y"), ballot("b", "x"), ballot("c", "z"), ballot("d", "x")];
    let (_, options) = roster(&ballots);
    let counts = option_counts(&ballots, &options);
    assert_eq!(counts, [3, 1, 1]);
    assert_eq!(counts.iter().sum::<usize>(), ballots.len());
}

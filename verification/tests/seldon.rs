use ljos_consensus::decimal::{decimal_string, parse_usize, IntFault};
use ljos_consensus::seldon::{
    latest_opinions, opinion_index, opinion_lines, opinion_order, opinion_values, opinions_file_name,
    opinions_text, previous_opinions_name, stable_order_of, LineFault, OpinionsFault,
};
use ljos_consensus::{roster, Ballot};

fn names(xs: &[&str]) -> Vec<String> {
    xs.iter().map(|s| s.to_string()).collect()
}

fn chars(s: &str) -> Vec<char> {
    s.chars().collect()
}

#[test]
fn numerals_read_as_usize_from_str_does() {
    for text in ["0", "7", "+12", "007", "", "+", "-", "-1", "1x", "18446744073709551616", "4294967296"] {
        let ours = parse_usize(&chars(text));
        let std = text.parse::<usize>();
        match (ours, std) {
            (Ok(a), Ok(b)) => assert_eq!(a, b, "{text}"),
            (Err(IntFault::Empty), Err(e)) => assert_eq!(*e.kind(), std::num::IntErrorKind::Empty, "{text}"),
            (Err(IntFault::InvalidDigit), Err(e)) => {
                assert_eq!(*e.kind(), std::num::IntErrorKind::InvalidDigit, "{text}")
            },
            (Err(IntFault::PosOverflow), Err(e)) => {
                assert_eq!(*e.kind(), std::num::IntErrorKind::PosOverflow, "{text}")
            },
            (a, b) => panic!("{text}: {a:?} vs {b:?}"),
        }
    }
}

#[test]
fn decimal_writes_and_reads_back() {
    for n in [0usize, 1, 9, 10, 99, 100, 12345, usize::MAX] {
        let s = decimal_string(n);
        assert_eq!(s, n.to_string());
        assert_eq!(parse_usize(&chars(&s)), Ok(n));
    }
}

#[test]
fn opinion_file_indices() {
    assert_eq!(opinion_index("opinions_7.txt"), Some(7));
    assert_eq!(opinion_index("opinions_0.txt"), Some(0));
    assert_eq!(opinion_index("opinions_+3.txt"), Some(3));
    assert_eq!(opinion_index("opinions_.txt"), None);
    assert_eq!(opinion_index("opinions_x.txt"), None);
    assert_eq!(opinion_index("opinions_7.csv"), None);
    assert_eq!(opinion_index("opinions.txt"), None);
    assert_eq!(opinion_index("network.txt"), None);
}

#[test]
fn previous_opinions_is_the_round_before() {
    assert_eq!(previous_opinions_name(0), None);
    assert_eq!(previous_opinions_name(7).as_deref(), Some("opinions_6.txt"));
    assert_eq!(opinions_file_name(12), "opinions_12.txt");
    assert_eq!(opinion_index(&opinions_file_name(41)), Some(41));
}

#[test]
fn latest_opinions_takes_the_highest_round() {
    let files = names(&["config.toml", "opinions_6.txt", "opinions_7.txt", "opinions_10.txt", "opinions.txt"]);
    assert_eq!(latest_opinions(&files), Some((10, 3)));
    let files = names(&["opinions_7.txt", "opinions_6.txt"]);
    assert_eq!(latest_opinions(&files), Some((7, 0)));
    // Two names for one round: the later listed wins.
    let files = names(&["opinions_07.txt", "opinions_7.txt", "opinions_2.txt"]);
    assert_eq!(latest_opinions(&files), Some((7, 1)));
}

#[test]
fn missing_opinions_is_none() {
    assert_eq!(latest_opinions(&names(&["config.toml", "network.txt"])), None);
    assert_eq!(latest_opinions(&[]), None);
}

#[test]
fn opinions_file_holds_the_option_index_of_each_ballot() {
    let ballots = vec![
        Ballot { agent: "a".into(), choice: "ship".into() },
        Ballot { agent: "b".into(), choice: "hold".into() },
    ];
    let (agents, options) = roster(&ballots);
    assert_eq!(options, ["hold", "ship"]);
    assert_eq!(opinion_values(&ballots, &agents, &options), [1, 0]);
    let text = opinions_text(&ballots, &agents, &options);
    assert_eq!(text, "# idx_agent, opinion\n# agent 0 a\n# agent 1 b\n# option 0 hold\n# option 1 ship\n0, 1\n1, 0\n");
    // hold=0, ship=1; a voted ship, b voted hold
    assert!(text.contains("0, 1"));
    assert!(text.contains("1, 0"));
}

#[test]
fn the_last_ballot_of_a_voter_sets_its_opinion() {
    let ballots = vec![
        Ballot { agent: "a".into(), choice: "x".into() },
        Ballot { agent: "a".into(), choice: "z".into() },
        Ballot { agent: "b".into(), choice: "y".into() },
    ];
    let agents = names(&["a", "b", "c"]);
    let options = names(&["x", "y", "z"]);
    assert_eq!(opinion_values(&ballots, &agents, &options), [2, 1, 0]);
}

#[test]
fn opinion_rows_read_index_and_opinion_text() {
    let rows = opinion_lines("# idx_agent, opinion\n    0, 0.5\n    1, 0.5004, extra\n\n");
    assert_eq!(rows.len(), 2);
    assert_eq!(rows[0].line, 1);
    assert_eq!(rows[0].read, Ok((0, chars("0.5"))));
    assert_eq!(rows[1].line, 2);
    assert_eq!(rows[1].read, Ok((1, chars("0.5004"))));
    assert_eq!(opinion_order(&rows, &[true, true]), Ok(vec![0, 1]));
}

#[test]
fn opinion_rows_sort_by_agent_index() {
    let rows = opinion_lines("2, 0.2\n0, 0.0\r\n1, 0.1\n");
    let order = opinion_order(&rows, &[true, true, true]).unwrap();
    assert_eq!(order, [1, 2, 0]);
}

#[test]
fn opinion_file_errors() {
    let rows = opinion_lines("# c\n0 0.5\n");
    assert_eq!(rows[0].read, Err(LineFault::NoComma));
    assert_eq!(opinion_order(&rows, &[true]), Err(OpinionsFault::Line(1, LineFault::NoComma)));
    let rows = opinion_lines("x, 0.5\n");
    assert_eq!(opinion_order(&rows, &[true]), Err(OpinionsFault::Line(0, LineFault::Index(IntFault::InvalidDigit))));
    let rows = opinion_lines(" , 0.5\n");
    assert_eq!(opinion_order(&rows, &[true]), Err(OpinionsFault::Line(0, LineFault::Index(IntFault::Empty))));
    // An opinion that is not a number, before a bad index, is what is reported.
    let rows = opinion_lines("0, abc\nx, 1\n");
    assert_eq!(opinion_order(&rows, &[false, true]), Err(OpinionsFault::Opinion(0)));
    assert_eq!(opinion_order(&opinion_lines("# only comments\n\n"), &[]), Err(OpinionsFault::NoRows));
}

#[test]
fn stable_order_keeps_ties_in_place() {
    assert_eq!(stable_order_of(&[2, 0, 2, 1]), [1, 3, 0, 2]);
    assert!(stable_order_of(&[]).is_empty());
}

#[test]
fn the_opinions_file_reads_back() {
    let ballots = vec![
        Ballot { agent: "b".into(), choice: "ship".into() },
        Ballot { agent: "a".into(), choice: "hold".into() },
        Ballot { agent: "c".into(), choice: "wait".into() },
        Ballot { agent: "d".into(), choice: "ship".into() },
    ];
    let (agents, options) = roster(&ballots);
    let values = opinion_values(&ballots, &agents, &options);
    assert_eq!(values, [0, 1, 2, 1]);
    let text = opinions_text(&ballots, &agents, &options);
    let rows = opinion_lines(&text);
    assert_eq!(rows.len(), agents.len());
    for (i, row) in rows.iter().enumerate() {
        assert_eq!(row.line, 1 + agents.len() + options.len() + i);
        assert_eq!(row.read, Ok((i, chars(&values[i].to_string()))));
    }
    let order = opinion_order(&rows, &vec![true; rows.len()]).unwrap();
    assert_eq!(order, [0, 1, 2, 3]);
}

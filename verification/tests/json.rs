use ljos_consensus::json::{
    ballots_from_document, issue_ids, predictions_from_document, trust_from_document, AnchorsError,
    Expectation,
};
use ljos_consensus::popular::{answer_owed, predictor_count, reliability_items};
use ljos_consensus::{
    anchors_document, anchors_from_json, ballots_from_json, predictions_from_json, trust_from_json,
    Ballot, JsonValue,
};

fn s(x: &str) -> JsonValue {
    JsonValue::Str(x.to_string())
}

fn num(x: &str) -> JsonValue {
    JsonValue::Number(x.to_string())
}

fn obj(entries: Vec<(&str, JsonValue)>) -> JsonValue {
    JsonValue::Object(entries.into_iter().map(|(k, v)| (k.to_string(), v)).collect())
}

fn arr(items: Vec<JsonValue>) -> JsonValue {
    JsonValue::Array(items)
}

/// The flag of each entry of an anchor document: whether its number lies in `[0, 1]`.
fn unit_flags(doc: &JsonValue) -> Vec<bool> {
    match doc {
        JsonValue::Object(entries) => entries
            .iter()
            .map(|(_, v)| match v {
                JsonValue::Number(n) => (0.0..=1.0).contains(&n.parse::<f64>().unwrap()),
                _ => false,
            })
            .collect(),
        _ => Vec::new(),
    }
}

#[test]
fn ballots_from_vote_json_shapes() {
    let a = ballots_from_json(r#"[{"agent":"a","choice":"ship"},{"agent":"b","choice":"hold"}]"#).unwrap();
    assert_eq!(a.len(), 2);
    let b = ballots_from_json(r#"{"ballots":[{"agent":"a","choice":"ship"}]}"#).unwrap();
    assert_eq!(b[0].agent, "a");
    let c = ballots_from_json(r#"{"agents":[{"agent":"a","voted":"ship"}]}"#).unwrap();
    assert_eq!(c[0].choice, "ship");
}

#[test]
fn ballots_keep_their_order_and_names() {
    let got = ballots_from_json(r#"[{"agent":"b","choice":"hold"},{"agent":"a","choice":"ship"}]"#).unwrap();
    assert_eq!((got[0].agent.as_str(), got[0].choice.as_str()), ("b", "hold"));
    assert_eq!((got[1].agent.as_str(), got[1].choice.as_str()), ("a", "ship"));
}

#[test]
fn ballots_under_votes_and_a_single_row() {
    assert_eq!(ballots_from_json(r#"{"votes":[{"agent":"v","choice":"x"}]}"#).unwrap()[0].agent, "v");
    let one = ballots_from_json(r#"{"agent":"solo","choice":"x"}"#).unwrap();
    assert_eq!(one.len(), 1);
    assert_eq!(one[0].agent, "solo");
    // "ballots" that is not an array falls through to "votes".
    let got = ballots_from_json(r#"{"ballots":"no","votes":[{"agent":"w","choice":"y"}]}"#).unwrap();
    assert_eq!(got[0].agent, "w");
}

#[test]
fn vote_json_errors() {
    let expected = "vote json: expected an array of {agent, choice}";
    assert_eq!(ballots_from_json(r#"{"other":"x"}"#).unwrap_err(), expected);
    assert_eq!(ballots_from_json(r#""plain""#).unwrap_err(), expected);
    assert_eq!(ballots_from_json(r#"[{"choice":"x"}]"#).unwrap_err(), "vote json: missing agent");
    assert_eq!(ballots_from_json(r#"[{"agent":3,"choice":"x"}]"#).unwrap_err(), "vote json: missing agent");
    assert_eq!(ballots_from_json(r#"[{"agent":"a"}]"#).unwrap_err(), "vote json: missing choice");
    // A "choice" that is not a string does not fall back to "voted".
    let err = ballots_from_json(r#"[{"agent":"a","choice":null,"voted":"x"}]"#).unwrap_err();
    assert_eq!(err, "vote json: missing choice");
    // The first bad row decides the error.
    let err = ballots_from_json(r#"[{"agent":"a","choice":"x"},{"agent":"b"},{"choice":"x"}]"#).unwrap_err();
    assert_eq!(err, "vote json: missing choice");
    assert!(ballots_from_json("[]").unwrap().is_empty());
}

#[test]
fn unreadable_text_names_the_document() {
    let err = ballots_from_json("[{").unwrap_err();
    assert!(err.starts_with("vote json: "), "{err}");
    assert!(err.len() > "vote json: ".len(), "{err}");
    assert!(trust_from_json("nope").unwrap_err().starts_with("trust json: "));
    assert!(predictions_from_json("").unwrap_err().starts_with("predictions json: "));
    assert!(anchors_document("{\"a\":").unwrap_err().starts_with("anchors json: "));
}

#[test]
fn documents_read_as_their_text_does() {
    let doc = arr(vec![
        obj(vec![("agent", s("a")), ("choice", s("ship"))]),
        obj(vec![("agent", s("b")), ("voted", s("hold"))]),
    ]);
    let from_doc = ballots_from_document(&doc).unwrap();
    let from_text = ballots_from_json(r#"[{"agent":"a","choice":"ship"},{"voted":"hold","agent":"b"}]"#).unwrap();
    assert_eq!(from_doc.len(), 2);
    for (x, y) in from_doc.iter().zip(&from_text) {
        assert_eq!((&x.agent, &x.choice), (&y.agent, &y.choice));
    }
    let rows = trust_from_document(&arr(vec![arr(vec![s("a"), s("b"), num("0.5")])])).unwrap();
    assert_eq!(rows, trust_from_json(r#"[["a","b",0.5]]"#).unwrap());
    let rows = predictions_from_document(&arr(vec![obj(vec![("agent", s("a")), ("expect", s("yes"))])])).unwrap();
    assert_eq!(rows.len(), 1);
}

#[test]
fn trust_from_object_or_tuple() {
    let a = trust_from_json(r#"[{"from":"a","to":"b","weight":1.0}]"#).unwrap();
    assert_eq!((a[0].0.as_str(), a[0].1.as_str()), ("a", "b"));
    assert_eq!(a[0].2.parse::<f64>().unwrap(), 1.0);
    let b = trust_from_json(r#"[["a","b",0.5]]"#).unwrap();
    assert_eq!((b[0].0.as_str(), b[0].1.as_str()), ("a", "b"));
    assert_eq!(b[0].2.parse::<f64>().unwrap(), 0.5);
}

#[test]
fn trust_json_errors() {
    assert_eq!(trust_from_json("{}").unwrap_err(), "trust json: expected an array");
    assert_eq!(trust_from_json(r#"[["a","b"]]"#).unwrap_err(), "trust json: tuple must be [from, to, weight]");
    assert_eq!(trust_from_json(r#"[[null,"b",1]]"#).unwrap_err(), "trust json: from must be a string");
    assert_eq!(trust_from_json(r#"[["a",true,1]]"#).unwrap_err(), "trust json: to must be a string");
    assert_eq!(trust_from_json(r#"[["a","b","1"]]"#).unwrap_err(), "trust json: weight must be a number");
    assert_eq!(trust_from_json(r#"[{"to":"b"}]"#).unwrap_err(), "trust json: missing from");
    assert_eq!(trust_from_json(r#"[{"from":"a"}]"#).unwrap_err(), "trust json: missing to");
    assert_eq!(trust_from_json(r#"[{"from":"a","to":"b"}]"#).unwrap_err(), "trust json: missing weight");
}

#[test]
fn anchors_read_in_unit_only() {
    let doc = anchors_document(r#"{"a": 0.2}"#).unwrap();
    let rows = anchors_from_json(&doc, &unit_flags(&doc)).unwrap();
    assert_eq!(rows[0].0, "a");
    assert!(rows[0].1.parse::<f64>().unwrap() - 0.2 < 1e-12);
    let doc = anchors_document(r#"{"a": 1.5}"#).unwrap();
    match anchors_from_json(&doc, &unit_flags(&doc)) {
        Err(AnchorsError::OutOfRange(agent, n)) => {
            assert_eq!(agent, "a");
            assert_eq!(n.parse::<f64>().unwrap(), 1.5);
        },
        other => panic!("{other:?}"),
    }
    let doc = anchors_document("[]").unwrap();
    assert!(matches!(anchors_from_json(&doc, &unit_flags(&doc)), Err(AnchorsError::NotAnObject)));
    let doc = anchors_document(r#"{"a": 0.5, "b": "x"}"#).unwrap();
    match anchors_from_json(&doc, &unit_flags(&doc)) {
        Err(AnchorsError::NotANumber(agent)) => assert_eq!(agent, "b"),
        other => panic!("{other:?}"),
    }
    // The first bad entry, in the document's key order, decides.
    let doc = anchors_document(r#"{"b": "x", "a": 2}"#).unwrap();
    match anchors_from_json(&doc, &unit_flags(&doc)) {
        Err(AnchorsError::OutOfRange(agent, _)) => assert_eq!(agent, "a"),
        other => panic!("{other:?}"),
    }
}

#[test]
fn predictions_read_shares_or_a_whole_option() {
    let rows = predictions_from_json(r#"[{"agent":"a","expect":{"yes":0.9,"no":0.1}},{"agent":"b","expect":"yes"}]"#).unwrap();
    assert_eq!(rows.len(), 2);
    assert_eq!(rows[0].0, "a");
    match &rows[0].1 {
        Expectation::Shares(shares) => {
            let got: Vec<(&str, f64)> = shares.iter().map(|(k, n)| (k.as_str(), n.parse().unwrap())).collect();
            assert_eq!(got, vec![("no", 0.1), ("yes", 0.9)]);
        },
        other => panic!("{other:?}"),
    }
    match &rows[1].1 {
        Expectation::Whole(o) => assert_eq!(o, "yes"),
        other => panic!("{other:?}"),
    }
    // Entries that are not numbers are left out of the shares.
    let rows = predictions_from_json(r#"[{"agent":"c","expect":{"no":"x","yes":1}}]"#).unwrap();
    match &rows[0].1 {
        Expectation::Shares(shares) => assert_eq!(shares, &vec![("yes".to_string(), "1".to_string())]),
        other => panic!("{other:?}"),
    }
}

#[test]
fn prediction_json_errors() {
    assert_eq!(predictions_from_json("{}").unwrap_err(), "predictions: expected an array");
    assert_eq!(predictions_from_json(r#"[{"expect":"yes"}]"#).unwrap_err(), "predictions: a row without agent");
    assert_eq!(predictions_from_json(r#"[{"agent":"a","expect":3}]"#).unwrap_err(), "predictions: a row without expect");
    assert_eq!(predictions_from_json(r#"[{"agent":"a"}]"#).unwrap_err(), "predictions: a row without expect");
}

#[test]
fn an_answer_needs_two_predictors_and_an_option() {
    let voters: Vec<String> = ["a", "b", "c", "d", "e"].iter().map(|x| x.to_string()).collect();
    let p = |agent: &str, named: bool| (agent.to_string(), named);
    // a, b, d and e gave forecasts; c gave none.
    assert_eq!(predictor_count(&voters, &[p("a", true), p("b", true), p("d", true), p("e", true)]), 4);
    // A second forecast by the same voter, one from a non-voter, and an empty one do not count.
    assert_eq!(predictor_count(&voters, &[p("a", true), p("a", true), p("z", true), p("b", false)]), 1);
    assert_eq!(predictor_count(&voters, &[]), 0);
    assert!(answer_owed(4, 2));
    assert!(answer_owed(2, 1));
    assert!(!answer_owed(1, 2), "one predictor says nothing");
    assert!(!answer_owed(3, 0));
}

#[test]
fn reliability_items_hold_two_or_more_ballots() {
    let b = |agent: &str, choice: &str| Ballot { agent: agent.to_string(), choice: choice.to_string() };
    let issues = vec![
        vec![b("a", "x"), b("b", "y")],
        vec![b("c", "x")],
        vec![],
        vec![b("a", "y"), b("b", "y"), b("c", "x")],
    ];
    let kept = reliability_items(issues);
    assert_eq!(kept.len(), 2);
    assert_eq!(kept[0].len(), 2);
    assert_eq!(kept[1][2].agent, "c");
}

#[test]
fn issue_ids_come_from_the_tracker_list() {
    let ids = issue_ids(r#"[{"id":"v-1","title":"x"},{"title":"no id"},{"id":7},{"id":"v-3"}]"#).unwrap();
    assert_eq!(ids, vec!["v-1".to_string(), "v-3".to_string()]);
    assert!(issue_ids("[]").unwrap().is_empty());
    assert_eq!(issue_ids(r#"{"id":"v-1"}"#).unwrap_err(), "vissue list --json: not a JSON array");
    let err = issue_ids("[{").unwrap_err();
    assert!(err.starts_with("vissue list --json: not a JSON array: "), "{err}");
}

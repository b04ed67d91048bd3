use ljos_consensus::cli::{agent_list, ballot_source, settle_plan, BallotSource, SettlePlan};

#[test]
fn ballots_given_win_over_an_issue() {
    assert_eq!(ballot_source(true, true), BallotSource::Json);
    assert_eq!(ballot_source(false, true), BallotSource::Json);
    assert_eq!(ballot_source(true, false), BallotSource::Issue);
    assert_eq!(ballot_source(false, false), BallotSource::Missing);
}

#[test]
fn settle_plan_picks_the_engine() {
    assert_eq!(settle_plan(true, true, true), SettlePlan::Bounded);
    assert_eq!(settle_plan(false, true, true), SettlePlan::SeldonRefusesAnchors);
    assert_eq!(settle_plan(false, true, false), SettlePlan::Seldon);
    assert_eq!(settle_plan(false, false, true), SettlePlan::Iterate);
}

#[test]
fn agent_list_trims_and_drops_empty_names() {
    let got: Vec<String> = agent_list(" a, ,b ,\tc d ,").into_iter().map(|v| v.into_iter().collect()).collect();
    assert_eq!(got, ["a", "b", "c d"]);
    assert!(agent_list("").is_empty());
}

//! The plain-value decisions around the surprisingly popular rule and the reliability
//! estimate: who counts as a predictor, when the rule owes an answer, and which issues take
//! part in the estimate.

use vstd::prelude::*;
use crate::roster::Ballot;
use crate::text::str_eq;

verus! {

/// How many of the flags are set.
pub open spec fn count_set(flags: Seq<bool>) -> nat
    decreases flags.len(),
{
    if flags.len() == 0 {
        0
    } else {
        count_set(flags.drop_last()) + if flags.last() { 1nat } else { 0nat }
    }
}

/// Whether a voter gave a forecast: some prediction of theirs puts a share on at least one
/// option. `predictions[j]` is a prediction's author and whether it names an option.
pub open spec fn has_forecast(predictions: Seq<(String, bool)>, voter: Seq<char>) -> bool {
    exists|j: int| 0 <= j < predictions.len() && #[trigger] predictions[j].1 && predictions[j].0@ == voter
}

/// For each voter, whether they gave a forecast.
pub open spec fn forecast_flags(voters: Seq<String>, predictions: Seq<(String, bool)>) -> Seq<bool> {
    Seq::new(voters.len(), |i: int| has_forecast(predictions, voters[i]@))
}

fn gave_forecast(predictions: &[(String, bool)], voter: &str) -> (b: bool)
    ensures
        b == has_forecast(predictions@, voter@),
{
    let mut j: usize = 0;
    while j < predictions.len()
        invariant
            j <= predictions.len(),
            forall|k: int| 0 <= k < j ==> !(#[trigger] predictions@[k].1 && predictions@[k].0@ == voter@),
        decreases predictions.len() - j,
    {
        if predictions[j].1 && str_eq(predictions[j].0.as_str(), voter) {
            return true;
        }
        j = j + 1;
    }
    false
}

/// The number of predictors: the voters, each counted once as the roster lists them, who
/// also gave a forecast.
pub fn predictor_count(voters: &[String], predictions: &[(String, bool)]) -> (n: usize)
    ensures
        n == count_set(forecast_flags(voters@, predictions@)),
{
    let ghost flags = forecast_flags(voters@, predictions@);
    let mut n: usize = 0;
    let mut i: usize = 0;
    assert(flags.take(0) =~= Seq::<bool>::empty());
    while i < voters.len()
        invariant
            i <= voters.len(),
            flags == forecast_flags(voters@, predictions@),
            n == count_set(flags.take(i as int)),
            n <= i,
        decreases voters.len() - i,
    {
        assert(flags.take(i + 1).drop_last() =~= flags.take(i as int));
        if gave_forecast(predictions, voters[i].as_str()) {
            n = n + 1;
        }
        i = i + 1;
    }
    assert(flags.take(i as int) =~= flags);
    n
}

/// The rule names an answer only with two or more predictors and at least one option;
/// otherwise it gives the shares alone.
pub fn answer_owed(predictors: usize, options: usize) -> (owed: bool)
    ensures
        owed == (predictors >= 2 && options > 0),
{
    predictors >= 2 && options > 0
}

/// An issue takes part in the reliability estimate when it holds two or more ballots.
pub open spec fn contested() -> spec_fn(Vec<Ballot>) -> bool {
    |item: Vec<Ballot>| item@.len() >= 2
}

/// The issues that take part in the reliability estimate, in their order.
pub fn reliability_items(issues: Vec<Vec<Ballot>>) -> (r: Vec<Vec<Ballot>>)
    ensures
        r@ == issues@.filter(contested()),
{
    let ghost all = issues@;
    let mut rest = issues;
    let mut out: Vec<Vec<Ballot>> = Vec::new();
    proof {
        reveal(Seq::filter);
        assert(all.take(0) =~= Seq::<Vec<Ballot>>::empty());
        assert(all.skip(0) =~= all);
    }
    while rest.len() > 0
        invariant
            rest@.len() <= all.len(),
            rest@ == all.skip(all.len() - rest@.len()),
            out@ == all.take(all.len() - rest@.len()).filter(contested()),
        decreases rest.len(),
    {
        let ghost i = all.len() - rest@.len();
        let item = rest.remove(0);
        proof {
            reveal(Seq::filter);
            assert(all.take(i + 1).drop_last() =~= all.take(i));
            assert(item == all[i]);
            assert(rest@ =~= all.skip(i + 1));
        }
        if item.len() >= 2 {
            out.push(item);
        }
    }
    proof {
        assert(all.take(all.len() as int) =~= all);
    }
    out
}

} // verus!

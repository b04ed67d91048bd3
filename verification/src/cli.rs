//! The decisions the command line makes before it reads or runs anything.

use vstd::prelude::*;
use crate::text::{chars_of, split_chars, split_on, trim, trim_chars};

verus! {

/// Where the ballots of a settle come from.
#[derive(Debug, Clone, Copy, PartialEq, Eq, Structural)]
pub enum BallotSource {
    /// The `--ballots` JSON given on the command line.
    Json,
    /// The tracker's record of the `--issue` given.
    Issue,
    /// Neither was given: the command is refused.
    Missing,
}

/// Ballots given as JSON win over an issue to read them from.
pub fn ballot_source(has_issue: bool, has_ballots: bool) -> (r: BallotSource)
    ensures
        r == if has_ballots {
            BallotSource::Json
        } else if has_issue {
            BallotSource::Issue
        } else {
            BallotSource::Missing
        },
{
    if has_ballots {
        BallotSource::Json
    } else if has_issue {
        BallotSource::Issue
    } else {
        BallotSource::Missing
    }
}

/// Which engine a settle runs.
#[derive(Debug, Clone, Copy, PartialEq, Eq, Structural)]
pub enum SettlePlan {
    /// Bounded confidence, when a bound was given.
    Bounded,
    /// Refused: Seldon's DeGroot has no per-agent anchor.
    SeldonRefusesAnchors,
    /// Seldon's DeGroot, run outside.
    Seldon,
    /// The discrete DeGroot / Friedkin-Johnsen iteration.
    Iterate,
}

/// A confidence bound selects bounded confidence; otherwise Seldon when asked for, unless
/// anchors were given; otherwise the iteration.
pub fn settle_plan(has_epsilon: bool, use_seldon: bool, has_anchors: bool) -> (r: SettlePlan)
    ensures
        r == if has_epsilon {
            SettlePlan::Bounded
        } else if use_seldon && has_anchors {
            SettlePlan::SeldonRefusesAnchors
        } else if use_seldon {
            SettlePlan::Seldon
        } else {
            SettlePlan::Iterate
        },
{
    if has_epsilon {
        SettlePlan::Bounded
    } else if use_seldon && has_anchors {
        SettlePlan::SeldonRefusesAnchors
    } else if use_seldon {
        SettlePlan::Seldon
    } else {
        SettlePlan::Iterate
    }
}

/// The trimmed pieces that are not empty, in order.
pub open spec fn nonempty_trimmed(pieces: Seq<Seq<char>>) -> Seq<Seq<char>>
    decreases pieces.len(),
{
    if pieces.len() == 0 {
        Seq::empty()
    } else {
        let before = nonempty_trimmed(pieces.drop_last());
        let t = trim(pieces.last());
        if t.len() > 0 {
            before.push(t)
        } else {
            before
        }
    }
}

/// The agents of a comma-separated list: each name trimmed, empty names left out.
pub fn agent_list(raw: &str) -> (r: Vec<Vec<char>>)
    ensures
        Seq::new(r@.len(), |i: int| r@[i]@) == nonempty_trimmed(split_on(raw@, ',')),
{
    let chars = chars_of(raw);
    let pieces = split_chars(&chars, ',');
    let ghost all = split_on(raw@, ',');
    let mut out: Vec<Vec<char>> = Vec::new();
    let mut i: usize = 0;
    assert(all.take(0) =~= Seq::<Seq<char>>::empty());
    assert(Seq::new(out@.len(), |k: int| out@[k]@) =~= Seq::<Seq<char>>::empty());
    while i < pieces.len()
        invariant
            i <= pieces@.len(),
            all == split_on(raw@, ','),
            pieces@.len() == all.len(),
            forall|k: int| 0 <= k < pieces@.len() ==> #[trigger] pieces@[k]@ == all[k],
            Seq::new(out@.len(), |k: int| out@[k]@) == nonempty_trimmed(all.take(i as int)),
        decreases pieces@.len() - i,
    {
        let ghost before = Seq::new(out@.len(), |k: int| out@[k]@);
        assert(all.take(i as int + 1).drop_last() =~= all.take(i as int));
        assert(all.take(i as int + 1).last() == pieces@[i as int]@);
        let t = trim_chars(&pieces[i]);
        if t.len() > 0 {
            let ghost tv = t@;
            out.push(t);
            assert(Seq::new(out@.len(), |k: int| out@[k]@) =~= before.push(tv));
        }
        i = i + 1;
    }
    assert(all.take(i as int) =~= all);
    out
}

/// A piece that holds a name: not blank once trimmed.
pub open spec fn names_something() -> spec_fn(Seq<char>) -> bool {
    |t: Seq<char>| t.len() > 0
}

/// Each piece trimmed.
pub open spec fn trimmed_each(pieces: Seq<Seq<char>>) -> Seq<Seq<char>> {
    Seq::new(pieces.len(), |i: int| trim(pieces[i]))
}

/// The agent list keeps every piece of the text between commas that is not blank, trimmed,
/// in order, and nothing else: it is the pieces of `str::split(',')`, each trimmed, with the
/// blank ones left out.
pub proof fn law_agent_list_keeps_every_named_piece(raw: Seq<char>)
    ensures
        nonempty_trimmed(split_on(raw, ',')) == trimmed_each(split_on(raw, ',')).filter(names_something()),
{
    lemma_nonempty_trimmed_filters(split_on(raw, ','));
}

proof fn lemma_nonempty_trimmed_filters(pieces: Seq<Seq<char>>)
    ensures
        nonempty_trimmed(pieces) == trimmed_each(pieces).filter(names_something()),
    decreases pieces.len(),
{
    reveal(Seq::filter);
    if pieces.len() > 0 {
        lemma_nonempty_trimmed_filters(pieces.drop_last());
        assert(trimmed_each(pieces).drop_last() =~= trimmed_each(pieces.drop_last()));
    } else {
        assert(trimmed_each(pieces) =~= Seq::<Seq<char>>::empty());
    }
}

/// The text after the last comma is a name whenever it is not blank: the list for
/// `a,b` is the list for `a` with `b`, trimmed, added at its end.
pub proof fn law_agent_list_ends_with_the_last_name(a: Seq<char>, b: Seq<char>)
    requires
        !b.contains(','),
        trim(b).len() > 0,
    ensures
        nonempty_trimmed(split_on(a + seq![','] + b, ',')) == nonempty_trimmed(split_on(a, ',')).push(trim(b)),
{
    let ac = a + seq![','];
    crate::text::lemma_split_on_nonempty(a, ',');
    assert(ac.drop_last() =~= a);
    assert(split_on(ac, ',') == split_on(a, ',').push(Seq::<char>::empty()));
    crate::text::lemma_split_append_plain(ac, b, ',');
    let q = split_on(a, ',').push(b);
    assert(Seq::<char>::empty() + b =~= b);
    assert(split_on(ac + b, ',') =~= q);
    assert(q.drop_last() =~= split_on(a, ','));
}

} // verus!

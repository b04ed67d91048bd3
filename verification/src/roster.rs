//! Ballots and the roster of distinct, sorted names they mention.

use vstd::prelude::*;
use crate::text::{lex_lt, str_less, lemma_lex_irreflexive, lemma_lex_transitive, lemma_lex_total,
    lemma_lex_asymmetric};

verus! {

/// One voter's ballot: who voted, and for which option.
#[derive(Debug, Clone)]
pub struct Ballot {
    pub agent: String,
    pub choice: String,
}

/// The names of a list of strings.
pub open spec fn names_of(v: Seq<String>) -> Seq<Seq<char>> {
    Seq::new(v.len(), |i: int| v[i]@)
}

/// The voters named on the ballots, in ballot order.
pub open spec fn agents_of(ballots: Seq<Ballot>) -> Seq<Seq<char>> {
    Seq::new(ballots.len(), |i: int| ballots[i].agent@)
}

/// The options chosen on the ballots, in ballot order.
pub open spec fn choices_of(ballots: Seq<Ballot>) -> Seq<Seq<char>> {
    Seq::new(ballots.len(), |i: int| ballots[i].choice@)
}

/// Each name comes strictly before the next: sorted, with nothing twice.
pub open spec fn strictly_sorted(s: Seq<Seq<char>>) -> bool {
    forall|i: int, j: int| 0 <= i < j < s.len() ==> lex_lt(#[trigger] s[i], #[trigger] s[j])
}

/// `out` holds each name of `names` once, sorted.
pub open spec fn sorted_distinct(out: Seq<Seq<char>>, names: Seq<Seq<char>>) -> bool {
    &&& strictly_sorted(out)
    &&& forall|x: Seq<char>| #[trigger] out.contains(x) <==> names.contains(x)
}

/// Two sorted lists without repeats that hold the same names are the same list.
pub proof fn lemma_sorted_distinct_unique(a: Seq<Seq<char>>, b: Seq<Seq<char>>)
    requires
        strictly_sorted(a),
        strictly_sorted(b),
        forall|x: Seq<char>| #[trigger] a.contains(x) <==> b.contains(x),
    ensures
        a == b,
    decreases a.len(),
{
    if a.len() == 0 {
        if b.len() > 0 {
            assert(b.contains(b[0]));
            assert(a.contains(b[0]));
        }
        assert(a =~= b);
    } else {
        assert(a.contains(a[0]));
        assert(b.len() > 0);
        assert(b.contains(a[0]));
        assert(b.contains(b[0]));
        assert(a.contains(b[0]));
        let j = choose|j: int| 0 <= j < b.len() && b[j] == a[0];
        let i = choose|i: int| 0 <= i < a.len() && a[i] == b[0];
        if j > 0 && i > 0 {
            assert(lex_lt(b[0], b[j]));
            assert(lex_lt(a[0], a[i]));
            lemma_lex_asymmetric(a[0], b[0]);
        }
        if j > 0 && i == 0 {
            assert(lex_lt(b[0], b[j]));
            lemma_lex_irreflexive(a[0]);
        }
        if j == 0 && i > 0 {
            assert(lex_lt(a[0], a[i]));
            lemma_lex_irreflexive(b[0]);
        }
        assert(a[0] == b[0]);
        let ta = a.drop_first();
        let tb = b.drop_first();
        assert forall|x: Seq<char>| #[trigger] ta.contains(x) <==> tb.contains(x) by {
            if ta.contains(x) {
                let k = choose|k: int| 0 <= k < ta.len() && ta[k] == x;
                assert(lex_lt(a[0], a[k + 1]));
                lemma_lex_irreflexive(a[0]);
                assert(a.contains(x));
                assert(b.contains(x));
                let m = choose|m: int| 0 <= m < b.len() && b[m] == x;
                assert(m != 0);
                assert(tb[m - 1] == x);
            }
            if tb.contains(x) {
                let k = choose|k: int| 0 <= k < tb.len() && tb[k] == x;
                assert(lex_lt(b[0], b[k + 1]));
                lemma_lex_irreflexive(b[0]);
                assert(b.contains(x));
                assert(a.contains(x));
                let m = choose|m: int| 0 <= m < a.len() && a[m] == x;
                assert(m != 0);
                assert(ta[m - 1] == x);
            }
        }
        lemma_sorted_distinct_unique(ta, tb);
        assert(a =~= seq![a[0]] + ta);
        assert(b =~= seq![b[0]] + tb);
    }
}

/// What a sequence holds after a push: what it held, and the new name.
proof fn lemma_push_contains(s: Seq<Seq<char>>, v: Seq<char>)
    ensures
        forall|x: Seq<char>| #[trigger] s.push(v).contains(x) <==> (s.contains(x) || x == v),
{
    assert forall|x: Seq<char>| #[trigger] s.push(v).contains(x) <==> (s.contains(x) || x == v) by {
        if s.push(v).contains(x) {
            let k = choose|k: int| 0 <= k < s.len() + 1 && s.push(v)[k] == x;
            if k < s.len() {
                assert(s[k] == x);
            }
        }
        if s.contains(x) {
            let k = choose|k: int| 0 <= k < s.len() && s[k] == x;
            assert(s.push(v)[k] == x);
        }
        if x == v {
            assert(s.push(v)[s.len() as int] == x);
        }
    }
}

/// Add `name` to a sorted list of distinct names, where it belongs, unless it is there.
fn insert_name(out: &mut Vec<String>, name: &String)
    requires
        strictly_sorted(names_of(old(out)@)),
    ensures
        strictly_sorted(names_of(final(out)@)),
        forall|x: Seq<char>| #[trigger] names_of(final(out)@).contains(x)
            <==> (names_of(old(out)@).contains(x) || x == name@),
{
    let ghost before = names_of(out@);
    let mut i: usize = 0;
    while i < out.len() && str_less(out[i].as_str(), name.as_str())
        invariant
            i <= out.len(),
            out@ == old(out)@,
            forall|k: int| 0 <= k < i ==> lex_lt(#[trigger] names_of(out@)[k], name@),
        decreases out.len() - i,
    {
        i = i + 1;
    }
    if i < out.len() && out[i] == *name {
        assert(names_of(out@)[i as int] == name@);
        return;
    }
    let ghost at = i as int;
    proof {
        if at < before.len() {
            lemma_lex_total(before[at], name@);
        }
    }
    out.insert(i, name.clone());
    let ghost after = names_of(out@);
    assert(after =~= before.insert(at, name@));
    assert forall|p: int, q: int| 0 <= p < q < after.len() implies lex_lt(
        #[trigger] after[p],
        #[trigger] after[q],
    ) by {
        if q < at {
        } else if q == at {
        } else if p < at {
            assert(lex_lt(before[p], name@));
            assert(lex_lt(name@, before[q - 1])) by {
                if q - 1 > at {
                    assert(lex_lt(before[at], before[q - 1]));
                    lemma_lex_transitive(name@, before[at], before[q - 1]);
                }
            }
            lemma_lex_transitive(before[p], name@, before[q - 1]);
        } else if p == at {
            if q - 1 > at {
                assert(lex_lt(before[at], before[q - 1]));
                lemma_lex_transitive(name@, before[at], before[q - 1]);
            }
        } else {
            assert(lex_lt(before[p - 1], before[q - 1]));
        }
    }
    assert forall|x: Seq<char>| #[trigger] after.contains(x) <==> (before.contains(x) || x
        == name@) by {
        if after.contains(x) {
            let k = choose|k: int| 0 <= k < after.len() && after[k] == x;
            if k < at {
                assert(before[k] == x);
            } else if k > at {
                assert(before[k - 1] == x);
            }
        }
        if before.contains(x) {
            let k = choose|k: int| 0 <= k < before.len() && before[k] == x;
            if k < at {
                assert(after[k] == x);
            } else {
                assert(after[k + 1] == x);
            }
        }
        if x == name@ {
            assert(after[at] == x);
        }
    }
}

/// Distinct agents and choices, each sorted.
pub fn roster(ballots: &[Ballot]) -> (r: (Vec<String>, Vec<String>))
    ensures
        sorted_distinct(names_of(r.0@), agents_of(ballots@)),
        sorted_distinct(names_of(r.1@), choices_of(ballots@)),
{
    let mut agents: Vec<String> = Vec::new();
    let mut options: Vec<String> = Vec::new();
    let mut b: usize = 0;
    while b < ballots.len()
        invariant
            b <= ballots.len(),
            strictly_sorted(names_of(agents@)),
            strictly_sorted(names_of(options@)),
            forall|x: Seq<char>| #[trigger] names_of(agents@).contains(x)
                <==> agents_of(ballots@).take(b as int).contains(x),
            forall|x: Seq<char>| #[trigger] names_of(options@).contains(x)
                <==> choices_of(ballots@).take(b as int).contains(x),
        decreases ballots.len() - b,
    {
        insert_name(&mut agents, &ballots[b].agent);
        insert_name(&mut options, &ballots[b].choice);
        let ghost ta = agents_of(ballots@).take(b as int);
        let ghost tc = choices_of(ballots@).take(b as int);
        assert(agents_of(ballots@).take(b + 1) =~= ta.push(ballots@[b as int].agent@));
        assert(choices_of(ballots@).take(b + 1) =~= tc.push(ballots@[b as int].choice@));
        proof {
            lemma_push_contains(ta, ballots@[b as int].agent@);
            lemma_push_contains(tc, ballots@[b as int].choice@);
        }
        b = b + 1;
    }
    assert(agents_of(ballots@).take(b as int) =~= agents_of(ballots@));
    assert(choices_of(ballots@).take(b as int) =~= choices_of(ballots@));
    (agents, options)
}

/// The names, each once, sorted.
pub fn distinct_sorted(names: &[String]) -> (r: Vec<String>)
    ensures
        sorted_distinct(names_of(r@), names_of(names@)),
{
    let mut out: Vec<String> = Vec::new();
    let mut i: usize = 0;
    while i < names.len()
        invariant
            i <= names@.len(),
            strictly_sorted(names_of(out@)),
            forall|x: Seq<char>| #[trigger] names_of(out@).contains(x)
                <==> names_of(names@).take(i as int).contains(x),
        decreases names@.len() - i,
    {
        insert_name(&mut out, &names[i]);
        let ghost t = names_of(names@).take(i as int);
        assert(names_of(names@).take(i + 1) =~= t.push(names@[i as int]@));
        proof {
            lemma_push_contains(t, names@[i as int]@);
        }
        i = i + 1;
    }
    assert(names_of(names@).take(i as int) =~= names_of(names@));
    out
}

/// Rosters of two ballot lists that name the same voters are the same list, whatever the
/// order of the ballots and however often a voter repeats: any two lists that each hold
/// the names once, sorted, and hold the same names, are equal.
pub proof fn law_roster_order_free(
    first: Seq<Ballot>,
    second: Seq<Ballot>,
    agents_first: Seq<Seq<char>>,
    agents_second: Seq<Seq<char>>,
)
    requires
        sorted_distinct(agents_first, agents_of(first)),
        sorted_distinct(agents_second, agents_of(second)),
        forall|x: Seq<char>| #[trigger] agents_of(first).contains(x) <==> agents_of(second).contains(x),
    ensures
        agents_first == agents_second,
{
    assert forall|x: Seq<char>| #[trigger] agents_first.contains(x) <==> agents_second.contains(x) by {
        if agents_first.contains(x) {
            assert(agents_of(first).contains(x));
            assert(agents_of(second).contains(x));
        }
        if agents_second.contains(x) {
            assert(agents_of(second).contains(x));
            assert(agents_of(first).contains(x));
        }
    }
    lemma_sorted_distinct_unique(agents_first, agents_second);
}

/// The first index at which `names` holds `x`, if it holds it.
pub open spec fn index_in(names: Seq<Seq<char>>, x: Seq<char>) -> Option<int> {
    if names.contains(x) {
        Some(choose|i: int| 0 <= i < names.len() && names[i] == x && forall|k: int| 0 <= k < i ==> names[k] != x)
    } else {
        None
    }
}

/// Where `x` first stands in `names`, by the witness it takes to say so.
pub(crate) proof fn lemma_index_in(names: Seq<Seq<char>>, x: Seq<char>, i: int)
    requires
        0 <= i < names.len(),
        names[i] == x,
        forall|k: int| 0 <= k < i ==> names[k] != x,
    ensures
        index_in(names, x) == Some(i),
{
    assert(names.contains(x));
    let j = choose|j: int| 0 <= j < names.len() && names[j] == x && forall|k: int| 0 <= k < j ==> names[k] != x;
    if j < i {
        assert(names[j] != x);
    }
    if i < j {
        assert(names[i] != x);
    }
}

/// The first place `name` stands in `names`.
pub fn position(names: &[String], name: &String) -> (r: Option<usize>)
    ensures
        match r {
            Some(i) => index_in(names_of(names@), name@) == Some(i as int),
            None => index_in(names_of(names@), name@) is None,
        },
        r matches Some(i) ==> i < names.len() && names@[i as int]@ == name@,
{
    let mut i: usize = 0;
    while i < names.len()
        invariant
            i <= names.len(),
            forall|k: int| 0 <= k < i ==> names_of(names@)[k] != name@,
        decreases names.len() - i,
    {
        if names[i] == *name {
            proof {
                lemma_index_in(names_of(names@), name@, i as int);
            }
            return Some(i);
        }
        i = i + 1;
    }
    assert(!names_of(names@).contains(name@));
    None
}

/// The roster of the ballots, and for each ballot the row of its voter and the column of
/// its option in that roster.
pub fn placements(ballots: &[Ballot]) -> (r: (Vec<String>, Vec<String>, Vec<(usize, usize)>))
    ensures
        sorted_distinct(names_of(r.0@), agents_of(ballots@)),
        sorted_distinct(names_of(r.1@), choices_of(ballots@)),
        r.2@.len() == ballots@.len(),
        forall|b: int| 0 <= b < ballots@.len() ==> {
            let (i, k) = #[trigger] r.2@[b];
            &&& i < r.0@.len()
            &&& k < r.1@.len()
            &&& r.0@[i as int]@ == ballots@[b].agent@
            &&& r.1@[k as int]@ == ballots@[b].choice@
        },
{
    let (agents, options) = roster(ballots);
    let mut cells: Vec<(usize, usize)> = Vec::new();
    let mut b: usize = 0;
    while b < ballots.len()
        invariant
            b <= ballots.len(),
            sorted_distinct(names_of(agents@), agents_of(ballots@)),
            sorted_distinct(names_of(options@), choices_of(ballots@)),
            cells@.len() == b,
            forall|c: int| 0 <= c < b ==> {
                let (i, k) = #[trigger] cells@[c];
                &&& i < agents@.len()
                &&& k < options@.len()
                &&& agents@[i as int]@ == ballots@[c].agent@
                &&& options@[k as int]@ == ballots@[c].choice@
            },
        decreases ballots.len() - b,
    {
        assert(agents_of(ballots@)[b as int] == ballots@[b as int].agent@);
        assert(agents_of(ballots@).contains(ballots@[b as int].agent@));
        assert(names_of(agents@).contains(ballots@[b as int].agent@));
        assert(choices_of(ballots@)[b as int] == ballots@[b as int].choice@);
        assert(choices_of(ballots@).contains(ballots@[b as int].choice@));
        assert(names_of(options@).contains(ballots@[b as int].choice@));
        let i = position(agents.as_slice(), &ballots[b].agent);
        let k = position(options.as_slice(), &ballots[b].choice);
        if let (Some(i), Some(k)) = (i, k) {
            cells.push((i, k));
        }
        b = b + 1;
    }
    (agents, options, cells)
}

/// How many of the choices are `x`.
pub open spec fn count_in(s: Seq<Seq<char>>, x: Seq<char>) -> nat
    decreases s.len(),
{
    if s.len() == 0 {
        0
    } else {
        count_in(s.drop_last(), x) + if s.last() == x { 1nat } else { 0nat }
    }
}

/// For each option, how many ballots chose it.
pub fn option_counts(ballots: &[Ballot], options: &[String]) -> (counts: Vec<usize>)
    ensures
        counts@.len() == options@.len(),
        forall|k: int| 0 <= k < options@.len() ==>
            #[trigger] counts@[k] == count_in(choices_of(ballots@), options@[k]@),
{
    let mut counts: Vec<usize> = Vec::new();
    let mut k: usize = 0;
    while k < options.len()
        invariant
            k <= options.len(),
            counts@.len() == k,
            forall|j: int| 0 <= j < k ==>
                #[trigger] counts@[j] == count_in(choices_of(ballots@), options@[j]@),
        decreases options.len() - k,
    {
        let mut n: usize = 0;
        let mut b: usize = 0;
        while b < ballots.len()
            invariant
                b <= ballots.len(),
                k < options.len(),
                n == count_in(choices_of(ballots@).take(b as int), options@[k as int]@),
                n <= b,
            decreases ballots.len() - b,
        {
            assert(choices_of(ballots@).take(b + 1).drop_last() =~= choices_of(ballots@).take(
                b as int,
            ));
            if ballots[b].choice == options[k] {
                n = n + 1;
            }
            b = b + 1;
        }
        assert(choices_of(ballots@).take(b as int) =~= choices_of(ballots@));
        counts.push(n);
        k = k + 1;
    }
    counts
}


/// The counts of `choices` over a list of options, added up.
pub open spec fn total_count(choices: Seq<Seq<char>>, options: Seq<Seq<char>>) -> nat
    decreases options.len(),
{
    if options.len() == 0 {
        0
    } else {
        total_count(choices, options.drop_last()) + count_in(choices, options.last())
    }
}

proof fn lemma_total_count_empty(options: Seq<Seq<char>>)
    ensures
        total_count(Seq::empty(), options) == 0,
    decreases options.len(),
{
    if options.len() > 0 {
        lemma_total_count_empty(options.drop_last());
    }
}

proof fn lemma_total_count_push(choices: Seq<Seq<char>>, x: Seq<char>, options: Seq<Seq<char>>)
    ensures
        total_count(choices.push(x), options) == total_count(choices, options) + count_in(options, x),
    decreases options.len(),
{
    if options.len() > 0 {
        lemma_total_count_push(choices, x, options.drop_last());
        assert(choices.push(x).drop_last() =~= choices);
    }
}

/// A name that stands once in a list is counted once there.
proof fn lemma_count_once(options: Seq<Seq<char>>, x: Seq<char>)
    requires
        forall|i: int, j: int| 0 <= i < j < options.len() ==> options[i] != options[j],
    ensures
        count_in(options, x) == if options.contains(x) { 1nat } else { 0nat },
    decreases options.len(),
{
    if options.len() > 0 {
        let m = options.drop_last();
        lemma_count_once(m, x);
        if options.last() == x {
            assert(!m.contains(x)) by {
                if m.contains(x) {
                    let k = choose|k: int| 0 <= k < m.len() && m[k] == x;
                    assert(options[k] == options[options.len() - 1]);
                }
            }
            assert(options.contains(x)) by {
                assert(options[options.len() - 1] == x);
            }
        } else {
            assert(m.contains(x) == options.contains(x)) by {
                if options.contains(x) {
                    let k = choose|k: int| 0 <= k < options.len() && options[k] == x;
                    assert(k < m.len());
                    assert(m[k] == x);
                }
                if m.contains(x) {
                    let k = choose|k: int| 0 <= k < m.len() && m[k] == x;
                    assert(options[k] == x);
                }
            }
        }
    }
}

/// Every ballot is counted once: over options listed once each that include every choice,
/// the counts add up to the number of ballots.
pub proof fn law_counts_cover_ballots(choices: Seq<Seq<char>>, options: Seq<Seq<char>>)
    requires
        forall|i: int, j: int| 0 <= i < j < options.len() ==> options[i] != options[j],
        forall|x: Seq<char>| #[trigger] choices.contains(x) ==> options.contains(x),
    ensures
        total_count(choices, options) == choices.len(),
    decreases choices.len(),
{
    if choices.len() == 0 {
        lemma_total_count_empty(options);
        assert(choices =~= Seq::<Seq<char>>::empty());
    } else {
        let c = choices.drop_last();
        let x = choices.last();
        assert forall|y: Seq<char>| #[trigger] c.contains(y) implies options.contains(y) by {
            let k = choose|k: int| 0 <= k < c.len() && c[k] == y;
            assert(choices[k] == y);
            assert(choices.contains(y));
        }
        law_counts_cover_ballots(c, options);
        assert(c.push(x) =~= choices);
        lemma_total_count_push(c, x, options);
        assert(choices.contains(x)) by {
            assert(choices[choices.len() - 1] == x);
        }
        lemma_count_once(options, x);
    }
}

/// The roster's options count every ballot once.
pub proof fn law_roster_counts_every_ballot(ballots: Seq<Ballot>, options: Seq<Seq<char>>)
    requires
        sorted_distinct(options, choices_of(ballots)),
    ensures
        total_count(choices_of(ballots), options) == ballots.len(),
{
    assert forall|i: int, j: int| 0 <= i < j < options.len() implies options[i] != options[j] by {
        assert(lex_lt(options[i], options[j]));
        lemma_lex_irreflexive(options[i]);
    }
    assert forall|x: Seq<char>| #[trigger] choices_of(ballots).contains(x) implies options.contains(x) by {
    }
    law_counts_cover_ballots(choices_of(ballots), options);
}

} // verus!

//! The plain-value side of the Seldon exchange: the opinions file written from the ballots,
//! the names Seldon gives its numbered opinion files, and which of them is the latest.

use vstd::prelude::*;
use crate::decimal::{decimal, decimal_string, numeral_value, parse_usize, law_decimal_reads_back, IntFault};
use crate::roster::{index_in, names_of, position, Ballot};
use crate::text::{chars_of, find, find_char, split_chars, split_on, sub_chars, trim, trim_chars, is_space,
    lemma_split_line, lemma_split_plain, lemma_trim_keeps_first, lemma_trim_plain, lemma_trim_space_then,
    lemma_find_char_at, lemma_split_on_nonempty};

verus! {

/// The index `n` of a file named `opinions_<n>.txt`, the numeral read as a `usize`.
pub open spec fn opinion_index_of(name: Seq<char>) -> Option<nat> {
    let p = "opinions_"@;
    let q = ".txt"@;
    if name.len() >= p.len() + q.len() && name.take(p.len() as int) == p && name.skip(
        name.len() - q.len(),
    ) == q {
        match numeral_value(name.subrange(p.len() as int, name.len() - q.len())) {
            Ok(v) => Some(v),
            Err(_) => None,
        }
    } else {
        None
    }
}

/// The name of the opinions file Seldon writes after round `n`.
pub open spec fn opinions_name(n: nat) -> Seq<char> {
    "opinions_"@ + decimal(n) + ".txt"@
}

/// Whether `s` begins with the characters `p`.
fn starts_with(s: &Vec<char>, p: &Vec<char>) -> (r: bool)
    ensures
        r == (s@.len() >= p@.len() && s@.take(p@.len() as int) == p@),
{
    if s.len() < p.len() {
        return false;
    }
    let mut i: usize = 0;
    while i < p.len()
        invariant
            i <= p.len() <= s.len(),
            forall|k: int| 0 <= k < i ==> s@[k] == p@[k],
        decreases p.len() - i,
    {
        if s[i] != p[i] {
            assert(s@.take(p@.len() as int)[i as int] != p@[i as int]);
            return false;
        }
        i = i + 1;
    }
    assert(s@.take(p@.len() as int) =~= p@);
    true
}

/// Whether `s` ends with the characters `q`.
fn ends_with(s: &Vec<char>, q: &Vec<char>) -> (r: bool)
    ensures
        r == (s@.len() >= q@.len() && s@.skip(s@.len() - q@.len()) == q@),
{
    if s.len() < q.len() {
        return false;
    }
    let off = s.len() - q.len();
    let mut i: usize = 0;
    while i < q.len()
        invariant
            i <= q.len(),
            off + q.len() == s.len(),
            forall|k: int| 0 <= k < i ==> s@[off + k] == q@[k],
        decreases q.len() - i,
    {
        if s[off + i] != q[i] {
            assert(s@.skip(off as int)[i as int] != q@[i as int]);
            return false;
        }
        i = i + 1;
    }
    assert(s@.skip(off as int) =~= q@);
    true
}

/// The round number of a file named `opinions_<n>.txt`.
pub fn opinion_index(name: &str) -> (r: Option<usize>)
    ensures
        match r {
            Some(n) => opinion_index_of(name@) == Some(n as nat),
            None => opinion_index_of(name@) is None,
        },
{
    let s = chars_of(name);
    let p = chars_of("opinions_");
    let q = chars_of(".txt");
    if s.len() < p.len() || s.len() - p.len() < q.len() || !starts_with(&s, &p) || !ends_with(&s, &q) {
        return None;
    }
    let middle = sub_chars(&s, p.len(), s.len() - q.len());
    match parse_usize(&middle) {
        Ok(v) => Some(v),
        Err(_) => None,
    }
}

/// The name of the opinions file Seldon writes after round `n`.
pub fn opinions_file_name(n: usize) -> (s: String)
    ensures
        s@ == opinions_name(n as nat),
{
    let mut s = String::from_str("opinions_");
    let d = decimal_string(n);
    s.append(d.as_str());
    s.append(".txt");
    s
}

/// The file of the round before `rounds`, where there is one.
pub fn previous_opinions_name(rounds: usize) -> (r: Option<String>)
    ensures
        rounds == 0 <==> r is None,
        r matches Some(s) ==> s@ == opinions_name((rounds - 1) as nat),
{
    if rounds == 0 {
        None
    } else {
        Some(opinions_file_name(rounds - 1))
    }
}

/// A file named for round `n` is read back as round `n`.
pub proof fn law_opinions_name_reads_back(n: nat)
    requires
        n <= usize::MAX,
    ensures
        opinion_index_of(opinions_name(n)) == Some(n),
{
    reveal_strlit("opinions_");
    reveal_strlit(".txt");
    law_decimal_reads_back(n);
    let p = "opinions_"@;
    let q = ".txt"@;
    let d = decimal(n);
    let name = opinions_name(n);
    assert(name.take(p.len() as int) =~= p);
    assert(name.skip(name.len() - q.len()) =~= q);
    assert(name.subrange(p.len() as int, name.len() - q.len()) =~= d);
}

/// Of the files named `opinions_<n>.txt`, the one with the highest round, as its round and
/// its place in `names`; among files of that round, the last listed.
pub fn latest_opinions(names: &[String]) -> (r: Option<(usize, usize)>)
    ensures
        match r {
            None => forall|j: int| 0 <= j < names@.len() ==> #[trigger] opinion_index_of(names@[j]@) is None,
            Some((n, i)) => {
                &&& i < names@.len()
                &&& opinion_index_of(names@[i as int]@) == Some(n as nat)
                &&& forall|j: int| 0 <= j < names@.len() ==> (#[trigger] opinion_index_of(names@[j]@) matches Some(m) ==> m <= n)
                &&& forall|j: int| i < j < names@.len() ==> #[trigger] opinion_index_of(names@[j]@) != Some(n as nat)
            },
        },
{
    let mut best: Option<(usize, usize)> = None;
    let mut j: usize = 0;
    while j < names.len()
        invariant
            j <= names@.len(),
            match best {
                None => forall|l: int| 0 <= l < j ==> #[trigger] opinion_index_of(names@[l]@) is None,
                Some((n, i)) => {
                    &&& i < j
                    &&& opinion_index_of(names@[i as int]@) == Some(n as nat)
                    &&& forall|l: int| 0 <= l < j ==> (#[trigger] opinion_index_of(names@[l]@) matches Some(m) ==> m <= n)
                    &&& forall|l: int| i < l < j ==> #[trigger] opinion_index_of(names@[l]@) != Some(n as nat)
                },
            },
        decreases names@.len() - j,
    {
        if let Some(n) = opinion_index(names[j].as_str()) {
            let take = match best {
                None => true,
                Some((bn, _)) => n >= bn,
            };
            if take {
                best = Some((n, j));
            }
        }
        j = j + 1;
    }
    best
}

// ---------------------------------------------------------------- the opinions file

/// The option index the last ballot of the voter at `i` gives, counting only ballots whose
/// voter is first listed at `i` and whose option is listed.
pub open spec fn last_vote(ballots: Seq<Ballot>, agents: Seq<Seq<char>>, options: Seq<Seq<char>>, i: int) -> Option<int>
    decreases ballots.len(),
{
    if ballots.len() == 0 {
        None
    } else {
        let b = ballots.last();
        if index_in(agents, b.agent@) == Some(i) && index_in(options, b.choice@) is Some {
            index_in(options, b.choice@)
        } else {
            last_vote(ballots.drop_last(), agents, options, i)
        }
    }
}

/// The opinion each voter starts from: the index of the option of its last ballot, or zero.
pub open spec fn start_opinion(ballots: Seq<Ballot>, agents: Seq<Seq<char>>, options: Seq<Seq<char>>, i: int) -> int {
    match last_vote(ballots, agents, options, i) {
        Some(k) => k,
        None => 0,
    }
}

/// A voter's last ballot sets its starting opinion, whatever its earlier ballots gave: after
/// any ballots, one more by voter `i` for option `k` (each where its name first stands in
/// the list) leaves `i` starting at `k`.
pub proof fn law_last_ballot_sets_the_opinion(
    ballots: Seq<Ballot>,
    last: Ballot,
    agents: Seq<Seq<char>>,
    options: Seq<Seq<char>>,
    i: int,
    k: int,
)
    requires
        0 <= i < agents.len(),
        agents[i] == last.agent@,
        forall|p: int| 0 <= p < i ==> agents[p] != last.agent@,
        0 <= k < options.len(),
        options[k] == last.choice@,
        forall|p: int| 0 <= p < k ==> options[p] != last.choice@,
    ensures
        start_opinion(ballots.push(last), agents, options, i) == k,
{
    crate::roster::lemma_index_in(agents, last.agent@, i);
    crate::roster::lemma_index_in(options, last.choice@, k);
    assert(ballots.push(last).drop_last() =~= ballots);
    assert(ballots.push(last).last() == last);
}

/// Each voter's starting opinion: the index of the option it voted for.
pub fn opinion_values(ballots: &[Ballot], agents: &[String], options: &[String]) -> (values: Vec<usize>)
    ensures
        values@.len() == agents@.len(),
        forall|i: int| 0 <= i < agents@.len() ==> #[trigger] values@[i] == start_opinion(
            ballots@,
            names_of(agents@),
            names_of(options@),
            i,
        ),
{
    let ghost an = names_of(agents@);
    let ghost on = names_of(options@);
    let mut values: Vec<usize> = vec![0; agents.len()];
    let mut b: usize = 0;
    while b < ballots.len()
        invariant
            b <= ballots@.len(),
            an == names_of(agents@),
            on == names_of(options@),
            values@.len() == agents@.len(),
            forall|i: int| 0 <= i < agents@.len() ==> #[trigger] values@[i] == start_opinion(
                ballots@.take(b as int),
                an,
                on,
                i,
            ),
        decreases ballots@.len() - b,
    {
        let ghost prefix = ballots@.take(b as int + 1);
        assert(prefix.drop_last() =~= ballots@.take(b as int));
        assert(prefix.last() == ballots@[b as int]);
        let ghost old_values = values@;
        let i = position(agents, &ballots[b].agent);
        let k = position(options, &ballots[b].choice);
        let ghost ia = index_in(an, ballots@[b as int].agent@);
        let ghost ko = index_in(on, ballots@[b as int].choice@);
        match i {
            Some(i) => match k {
                Some(k) => {
                    assert(ia == Some(i as int) && ko == Some(k as int));
                    values.set(i, k);
                    assert(values@ == old_values.update(i as int, k));
                },
                None => {
                    assert(ko is None);
                },
            },
            None => {
                assert(ia is None);
            },
        }
        assert forall|l: int| 0 <= l < agents@.len() implies #[trigger] values@[l] == start_opinion(
            prefix,
            an,
            on,
            l,
        ) by {
            if ia == Some(l) && ko is Some {
                assert(values@[l] == ko->0);
            } else {
                assert(values@[l] == old_values[l]);
                assert(last_vote(prefix, an, on, l) == last_vote(ballots@.take(b as int), an, on, l));
            }
        }
        b = b + 1;
    }
    assert(ballots@.take(b as int) =~= ballots@);
    values
}

/// `label`, a space, then each name with its index: one comment line per name.
pub open spec fn numbered_lines(label: Seq<char>, names: Seq<Seq<char>>) -> Seq<char>
    decreases names.len(),
{
    if names.len() == 0 {
        Seq::empty()
    } else {
        numbered_lines(label, names.drop_last()) + label + decimal((names.len() - 1) as nat) + " "@
            + names.last() + "\n"@
    }
}

/// One `index, value` line per value.
pub open spec fn value_lines(values: Seq<usize>) -> Seq<char>
    decreases values.len(),
{
    if values.len() == 0 {
        Seq::empty()
    } else {
        value_lines(values.drop_last()) + decimal((values.len() - 1) as nat) + ", "@ + decimal(
            values.last() as nat,
        ) + "\n"@
    }
}

/// The opinions file: a header, the voters and options named in comments, then each voter's
/// starting opinion.
pub open spec fn opinions_file(agents: Seq<Seq<char>>, options: Seq<Seq<char>>, values: Seq<usize>) -> Seq<char> {
    "# idx_agent, opinion\n"@ + numbered_lines("# agent "@, agents) + numbered_lines(
        "# option "@,
        options,
    ) + value_lines(values)
}

/// Append a numbered comment line per name.
fn push_numbered(out: &mut String, label: &str, names: &[String])
    ensures
        final(out)@ == old(out)@ + numbered_lines(label@, names_of(names@)),
{
    let ghost start = out@;
    let mut i: usize = 0;
    assert(names_of(names@).take(0) =~= Seq::<Seq<char>>::empty());
    assert(start + numbered_lines(label@, Seq::empty()) =~= start);
    while i < names.len()
        invariant
            i <= names@.len(),
            out@ == start + numbered_lines(label@, names_of(names@).take(i as int)),
        decreases names@.len() - i,
    {
        let ghost before = names_of(names@).take(i as int);
        let ghost after = names_of(names@).take(i as int + 1);
        assert(after.drop_last() =~= before);
        assert(after.last() == names@[i as int]@);
        out.append(label);
        let d = decimal_string(i);
        out.append(d.as_str());
        out.append(" ");
        out.append(names[i].as_str());
        out.append("\n");
        assert(out@ =~= start + numbered_lines(label@, after));
        i = i + 1;
    }
    assert(names_of(names@).take(i as int) =~= names_of(names@));
}

/// The text of `opinions.txt`: each voter's starting opinion is the index of the option of
/// its ballot, for Seldon to read as one scalar per agent.
pub fn opinions_text(ballots: &[Ballot], agents: &[String], options: &[String]) -> (s: String)
    ensures
        s@ == opinions_file(
            names_of(agents@),
            names_of(options@),
            Seq::new(agents@.len(), |i: int| start_opinion(ballots@, names_of(agents@), names_of(options@), i) as usize),
        ),
{
    let values = opinion_values(ballots, agents, options);
    let mut s = String::from_str("# idx_agent, opinion\n");
    push_numbered(&mut s, "# agent ", agents);
    push_numbered(&mut s, "# option ", options);
    let ghost head = s@;
    let mut i: usize = 0;
    assert(values@.take(0) =~= Seq::<usize>::empty());
    assert(head + value_lines(Seq::empty()) =~= head);
    while i < values.len()
        invariant
            i <= values@.len(),
            s@ == head + value_lines(values@.take(i as int)),
        decreases values@.len() - i,
    {
        let ghost after = values@.take(i as int + 1);
        assert(after.drop_last() =~= values@.take(i as int));
        let di = decimal_string(i);
        let dv = decimal_string(values[i]);
        s.append(di.as_str());
        s.append(", ");
        s.append(dv.as_str());
        s.append("\n");
        assert(s@ =~= head + value_lines(after));
        i = i + 1;
    }
    assert(values@.take(i as int) =~= values@);
    assert(values@ =~= Seq::new(agents@.len(), |j: int| start_opinion(ballots@, names_of(agents@), names_of(options@), j) as usize));
    s
}


// ---------------------------------------------------------------- reading an opinions file

/// What could not be read from a row of an opinions file.
#[derive(Debug, Clone, Copy, PartialEq, Eq, Structural)]
pub enum LineFault {
    /// The row has no comma between the agent index and the opinion.
    NoComma,
    /// The agent index is not a `usize` numeral.
    Index(IntFault),
}

/// One row of an opinions file: its line (counted from zero), and the agent index and the
/// opinion's text read from it, or what could not be read.
#[derive(Debug)]
pub struct OpinionLine {
    pub line: usize,
    pub read: Result<(usize, Vec<char>), LineFault>,
}

/// An `OpinionLine` with the opinion as a character sequence.
pub open spec fn opinion_line_view(r: OpinionLine) -> (int, Result<(nat, Seq<char>), LineFault>) {
    (
        r.line as int,
        match r.read {
            Ok((i, t)) => Ok((i as nat, t@)),
            Err(f) => Err(f),
        },
    )
}

/// A trimmed line holds a row unless it is empty or a `#` comment.
pub open spec fn is_row(t: Seq<char>) -> bool {
    t.len() > 0 && t[0] != '#'
}

/// A trimmed row read as `index, opinion[, ...]`: the index is the trimmed text before the
/// first comma, read as a `usize`; the opinion is the trimmed text up to the next comma.
pub open spec fn read_row(t: Seq<char>) -> Result<(nat, Seq<char>), LineFault> {
    match find_char(t, ',') {
        None => Err(LineFault::NoComma),
        Some(c) => match numeral_value(trim(t.take(c))) {
            Err(e) => Err(LineFault::Index(e)),
            Ok(v) => Ok((v, trim(split_on(t.skip(c + 1), ',')[0]))),
        },
    }
}

/// The rows among the first lines, each with its line number.
pub open spec fn rows_in(lines: Seq<Seq<char>>) -> Seq<(int, Result<(nat, Seq<char>), LineFault>)>
    decreases lines.len(),
{
    if lines.len() == 0 {
        Seq::empty()
    } else {
        let before = rows_in(lines.drop_last());
        let t = trim(lines.last());
        if is_row(t) {
            before.push(((lines.len() - 1) as int, read_row(t)))
        } else {
            before
        }
    }
}

/// The rows of an opinions file: its lines trimmed, empty lines and `#` comments left out.
pub open spec fn opinion_rows(text: Seq<char>) -> Seq<(int, Result<(nat, Seq<char>), LineFault>)> {
    rows_in(split_on(text, '\n'))
}

fn read_row_chars(t: &Vec<char>) -> (r: Result<(usize, Vec<char>), LineFault>)
    ensures
        match r {
            Ok((i, v)) => read_row(t@) == Ok::<_, LineFault>((i as nat, v@)),
            Err(f) => read_row(t@) == Err::<(nat, Seq<char>), _>(f),
        },
{
    let c = match find(t, ',') {
        Some(c) => c,
        None => {
            return Err(LineFault::NoComma);
        },
    };
    let n = t.len();
    assert(c < n);
    let head = sub_chars(t, 0, c);
    assert(head@ =~= t@.take(c as int));
    let idx_text = trim_chars(&head);
    let idx = match parse_usize(&idx_text) {
        Ok(v) => v,
        Err(e) => {
            return Err(LineFault::Index(e));
        },
    };
    let rest = sub_chars(t, c + 1, n);
    assert(rest@ =~= t@.skip(c + 1));
    let pieces = split_chars(&rest, ',');
    proof {
        assert(pieces@.len() > 0) by {
            crate::text::lemma_split_on_nonempty(rest@, ',');
        }
    }
    let value = trim_chars(&pieces[0]);
    Ok((idx, value))
}

/// The rows of an opinions file, in order, each read as far as it can be without its opinion:
/// the opinion's text is left for the caller to read as a number.
pub fn opinion_lines(text: &str) -> (r: Vec<OpinionLine>)
    ensures
        Seq::new(r@.len(), |i: int| opinion_line_view(r@[i])) == opinion_rows(text@),
{
    let chars = chars_of(text);
    let lines = split_chars(&chars, '\n');
    let ghost all = split_on(text@, '\n');
    let mut out: Vec<OpinionLine> = Vec::new();
    let mut l: usize = 0;
    assert(all.take(0) =~= Seq::<Seq<char>>::empty());
    while l < lines.len()
        invariant
            l <= lines@.len(),
            lines@.len() == all.len(),
            all == split_on(text@, '\n'),
            forall|i: int| 0 <= i < lines@.len() ==> #[trigger] lines@[i]@ == all[i],
            Seq::new(out@.len(), |i: int| opinion_line_view(out@[i])) == rows_in(all.take(l as int)),
        decreases lines@.len() - l,
    {
        let ghost before = Seq::new(out@.len(), |i: int| opinion_line_view(out@[i]));
        assert(all.take(l as int + 1).drop_last() =~= all.take(l as int));
        assert(all.take(l as int + 1).last() == lines@[l as int]@);
        let t = trim_chars(&lines[l]);
        if t.len() > 0 && t[0] != '#' {
            let read = read_row_chars(&t);
            let row = OpinionLine { line: l, read };
            let ghost rv = opinion_line_view(row);
            out.push(row);
            assert(Seq::new(out@.len(), |i: int| opinion_line_view(out@[i])) =~= before.push(rv));
        }
        l = l + 1;
    }
    assert(all.take(l as int) =~= all);
    out
}


/// Why an opinions file gave no opinions.
#[derive(Debug, Clone, Copy, PartialEq, Eq, Structural)]
pub enum OpinionsFault {
    /// The row on this line (counted from zero) could not be read.
    Line(usize, LineFault),
    /// The opinion on this line (counted from zero) is not a number.
    Opinion(usize),
    /// The file has no rows.
    NoRows,
}

/// The first row, in file order, that cannot be read or whose opinion is not a number;
/// `ok[i]` tells whether the opinion of row `i` reads as a number.
pub open spec fn first_fault(rows: Seq<OpinionLine>, ok: Seq<bool>) -> Option<OpinionsFault>
    decreases rows.len(),
{
    if rows.len() == 0 {
        None
    } else {
        match rows[0].read {
            Err(f) => Some(OpinionsFault::Line(rows[0].line, f)),
            Ok(_) => if !ok[0] {
                Some(OpinionsFault::Opinion(rows[0].line))
            } else {
                first_fault(rows.drop_first(), ok.drop_first())
            },
        }
    }
}

/// The agent index a row gives.
pub open spec fn row_index(r: OpinionLine) -> nat {
    match r.read {
        Ok((i, _)) => i as nat,
        Err(_) => 0,
    }
}

/// Position `a` goes before position `b`: a smaller key, or the same key and an earlier place.
pub open spec fn goes_before(keys: Seq<nat>, a: int, b: int) -> bool {
    keys[a] < keys[b] || (keys[a] == keys[b] && a < b)
}

/// `order` lists each position of `keys` once, by key, positions of equal keys in their
/// first order: the order a stable sort by key gives.
pub open spec fn stable_order(order: Seq<usize>, keys: Seq<nat>) -> bool {
    &&& order.len() == keys.len()
    &&& forall|p: int| 0 <= p < order.len() ==> #[trigger] order[p] < keys.len()
    &&& forall|j: int| 0 <= j < keys.len() ==> #[trigger] order.contains(j as usize)
    &&& forall|p: int, q: int| 0 <= p < q < order.len() ==> goes_before(keys, #[trigger] order[p] as int, #[trigger] order[q] as int)
}

/// The positions of `keys` in stable order by key.
pub fn stable_order_of(keys: &[usize]) -> (order: Vec<usize>)
    ensures
        stable_order(order@, Seq::new(keys@.len(), |i: int| keys@[i] as nat)),
{
    let ghost ks = Seq::new(keys@.len(), |i: int| keys@[i] as nat);
    let mut order: Vec<usize> = Vec::new();
    let mut j: usize = 0;
    while j < keys.len()
        invariant
            j <= keys@.len(),
            ks == Seq::new(keys@.len(), |i: int| keys@[i] as nat),
            order@.len() == j,
            forall|p: int| 0 <= p < order@.len() ==> #[trigger] order@[p] < j,
            forall|i: int| 0 <= i < j ==> #[trigger] order@.contains(i as usize),
            forall|p: int, q: int| 0 <= p < q < order@.len() ==> goes_before(ks, #[trigger] order@[p] as int, #[trigger] order@[q] as int),
        decreases keys@.len() - j,
    {
        let mut p: usize = 0;
        while p < order.len() && keys[order[p]] <= keys[j]
            invariant
                p <= order@.len(),
                j < keys@.len(),
                forall|t: int| 0 <= t < order@.len() ==> #[trigger] order@[t] < j,
                forall|t: int| 0 <= t < p ==> keys@[#[trigger] order@[t] as int] <= keys@[j as int],
            decreases order@.len() - p,
        {
            p = p + 1;
        }
        let ghost before = order@;
        order.insert(p, j);
        assert(order@ =~= before.insert(p as int, j));
        assert forall|a: int, b: int| 0 <= a < b < order@.len() implies goes_before(ks, #[trigger] order@[a] as int, #[trigger] order@[b] as int) by {
            if b < p {
                assert(goes_before(ks, before[a] as int, before[b] as int));
            } else if b == p {
                assert(keys@[before[a] as int] <= keys@[j as int]);
            } else if a < p {
                assert(keys@[before[a] as int] <= keys@[j as int]);
                assert(keys@[before[p as int] as int] > keys@[j as int]);
                if a < p as int && b - 1 > p {
                    assert(goes_before(ks, before[p as int] as int, before[b - 1] as int));
                }
            } else if a == p {
                assert(keys@[before[p as int] as int] > keys@[j as int]);
                if b - 1 > p {
                    assert(goes_before(ks, before[p as int] as int, before[b - 1] as int));
                }
            } else {
                assert(goes_before(ks, before[a - 1] as int, before[b - 1] as int));
            }
        }
        assert forall|i: int| 0 <= i < j + 1 implies #[trigger] order@.contains(i as usize) by {
            if i < j {
                assert(before.contains(i as usize));
                let t = choose|t: int| 0 <= t < before.len() && before[t] == i as usize;
                if t < p {
                    assert(order@[t] == i as usize);
                } else {
                    assert(order@[t + 1] == i as usize);
                }
            } else {
                assert(order@[p as int] == j);
            }
        }
        j = j + 1;
    }
    order
}

/// Settle what an opinions file gave: the first row that cannot be read, or whose opinion
/// is not a number (`ok[i]` says whether row `i`'s opinion reads as one), refuses the file, as
/// does a file with no rows; otherwise the rows' places in order of agent index, rows of
/// one index in file order.
pub fn opinion_order(rows: &[OpinionLine], ok: &[bool]) -> (r: Result<Vec<usize>, OpinionsFault>)
    requires
        ok@.len() == rows@.len(),
    ensures
        first_fault(rows@, ok@) matches Some(f) ==> r == Err::<Vec<usize>, _>(f),
        first_fault(rows@, ok@) is None && rows@.len() == 0 ==> r == Err::<Vec<usize>, _>(OpinionsFault::NoRows),
        first_fault(rows@, ok@) is None && rows@.len() > 0 ==> (r matches Ok(order) && stable_order(
            order@,
            Seq::new(rows@.len(), |i: int| row_index(rows@[i])),
        )),
{
    let mut keys: Vec<usize> = Vec::new();
    let mut i: usize = 0;
    assert(rows@.skip(0) =~= rows@);
    assert(ok@.skip(0) =~= ok@);
    while i < rows.len()
        invariant
            i <= rows@.len(),
            ok@.len() == rows@.len(),
            first_fault(rows@, ok@) == first_fault(rows@.skip(i as int), ok@.skip(i as int)),
            keys@.len() == i,
            forall|t: int| 0 <= t < i ==> #[trigger] keys@[t] as nat == row_index(rows@[t]),
        decreases rows@.len() - i,
    {
        assert(rows@.skip(i as int).drop_first() =~= rows@.skip(i as int + 1));
        assert(ok@.skip(i as int).drop_first() =~= ok@.skip(i as int + 1));
        assert(rows@.skip(i as int)[0] == rows@[i as int]);
        assert(ok@.skip(i as int)[0] == ok@[i as int]);
        match &rows[i].read {
            Err(f) => {
                return Err(OpinionsFault::Line(rows[i].line, *f));
            },
            Ok((index, _)) => {
                if !ok[i] {
                    return Err(OpinionsFault::Opinion(rows[i].line));
                }
                keys.push(*index);
            },
        }
        i = i + 1;
    }
    assert(rows@.skip(i as int) =~= Seq::<OpinionLine>::empty());
    if rows.len() == 0 {
        return Err(OpinionsFault::NoRows);
    }
    let order = stable_order_of(&keys);
    assert(Seq::new(keys@.len(), |t: int| keys@[t] as nat) =~= Seq::new(rows@.len(), |t: int| row_index(rows@[t])));
    Ok(order)
}


// ---------------------------------------------------------------- what is written reads back

/// The comment line naming entry `i`.
pub open spec fn comment_line(label: Seq<char>, i: nat, name: Seq<char>) -> Seq<char> {
    label + decimal(i) + " "@ + name
}

/// The line giving agent `i` the opinion `v`.
pub open spec fn value_line(i: nat, v: nat) -> Seq<char> {
    decimal(i) + ", "@ + decimal(v)
}

/// No name holds a line break.
pub open spec fn single_line_names(names: Seq<Seq<char>>) -> bool {
    forall|i: int| 0 <= i < names.len() ==> !(#[trigger] names[i]).contains('\n')
}

proof fn lemma_concat_free(a: Seq<char>, b: Seq<char>, c: char)
    requires
        !a.contains(c),
        !b.contains(c),
    ensures
        !(a + b).contains(c),
{
    if (a + b).contains(c) {
        let k = choose|k: int| 0 <= k < (a + b).len() && (a + b)[k] == c;
        if k < a.len() {
            assert(a[k] == c);
        } else {
            assert(b[k - a.len()] == c);
        }
    }
}

/// A numeral holds digits only: no line break, comma, space or `#`.
proof fn lemma_decimal_plain(n: nat)
    requires
        n <= usize::MAX,
    ensures
        decimal(n).len() > 0,
        !decimal(n).contains('\n'),
        !decimal(n).contains(','),
        !is_space(decimal(n)[0]),
        !is_space(decimal(n).last()),
        decimal(n)[0] != '#',
{
    law_decimal_reads_back(n);
    let d = decimal(n);
    assert(crate::decimal::is_digit(d[0]));
    assert(crate::decimal::is_digit(d[d.len() - 1]));
    if d.contains('\n') {
        let k = choose|k: int| 0 <= k < d.len() && d[k] == '\n';
        assert(crate::decimal::is_digit(d[k]));
    }
    if d.contains(',') {
        let k = choose|k: int| 0 <= k < d.len() && d[k] == ',';
        assert(crate::decimal::is_digit(d[k]));
    }
}

/// After text that ends a line, the numbered comment lines add one piece each.
proof fn lemma_numbered_split(s: Seq<char>, label: Seq<char>, names: Seq<Seq<char>>)
    requires
        split_on(s, '\n').last() == Seq::<char>::empty(),
        !label.contains('\n'),
        single_line_names(names),
        names.len() <= usize::MAX,
    ensures
        split_on(s + numbered_lines(label, names), '\n') == split_on(s, '\n').drop_last() + Seq::new(
            names.len(),
            |i: int| comment_line(label, i as nat, names[i]),
        ) + seq![Seq::<char>::empty()],
    decreases names.len(),
{
    lemma_split_on_nonempty(s, '\n');
    let p = split_on(s, '\n');
    if names.len() == 0 {
        assert(numbered_lines(label, names) == Seq::<char>::empty());
        assert(s + numbered_lines(label, names) =~= s);
        assert(p.drop_last() + Seq::new(0, |i: int| comment_line(label, i as nat, names[i]))
            + seq![Seq::<char>::empty()] =~= p);
    } else {
        reveal_strlit("\n");
        reveal_strlit(" ");
        let m = names.drop_last();
        let n1 = (names.len() - 1) as nat;
        assert(single_line_names(m)) by {
            assert forall|i: int| 0 <= i < m.len() implies !(#[trigger] m[i]).contains('\n') by {
                assert(m[i] == names[i]);
            }
        }
        lemma_numbered_split(s, label, m);
        let before = s + numbered_lines(label, m);
        let cm = Seq::new(m.len(), |i: int| comment_line(label, i as nat, m[i]));
        assert(split_on(before, '\n') == p.drop_last() + cm + seq![Seq::<char>::empty()]);
        assert(split_on(before, '\n').last() == Seq::<char>::empty());
        let line = comment_line(label, n1, names.last());
        lemma_decimal_plain(n1);
        assert(!(" "@).contains('\n')) by {
            if (" "@).contains('\n') {
                let k = choose|k: int| 0 <= k < (" "@).len() && (" "@)[k] == '\n';
            }
        }
        assert(!names.last().contains('\n')) by {
            assert(names.last() == names[names.len() - 1]);
        }
        lemma_concat_free(label, decimal(n1), '\n');
        lemma_concat_free(label + decimal(n1), " "@, '\n');
        lemma_concat_free(label + decimal(n1) + " "@, names.last(), '\n');
        lemma_split_line(before, line, '\n');
        assert(s + numbered_lines(label, names) =~= before + line + seq!['\n']);
        let cn = Seq::new(names.len(), |i: int| comment_line(label, i as nat, names[i]));
        assert((p.drop_last() + cm + seq![Seq::<char>::empty()]).drop_last().push(line).push(
            Seq::<char>::empty(),
        ) =~= p.drop_last() + cn + seq![Seq::<char>::empty()]);
    }
}

/// After text that ends a line, the value lines add one piece each.
proof fn lemma_values_split(s: Seq<char>, values: Seq<usize>)
    requires
        split_on(s, '\n').last() == Seq::<char>::empty(),
        values.len() <= usize::MAX,
    ensures
        split_on(s + value_lines(values), '\n') == split_on(s, '\n').drop_last() + Seq::new(
            values.len(),
            |i: int| value_line(i as nat, values[i] as nat),
        ) + seq![Seq::<char>::empty()],
    decreases values.len(),
{
    lemma_split_on_nonempty(s, '\n');
    let p = split_on(s, '\n');
    if values.len() == 0 {
        assert(value_lines(values) == Seq::<char>::empty());
        assert(s + value_lines(values) =~= s);
        assert(p.drop_last() + Seq::new(0, |i: int| value_line(i as nat, values[i] as nat))
            + seq![Seq::<char>::empty()] =~= p);
    } else {
        reveal_strlit("\n");
        reveal_strlit(", ");
        let m = values.drop_last();
        let n1 = (values.len() - 1) as nat;
        lemma_values_split(s, m);
        let before = s + value_lines(m);
        let vm = Seq::new(m.len(), |i: int| value_line(i as nat, m[i] as nat));
        assert(split_on(before, '\n') == p.drop_last() + vm + seq![Seq::<char>::empty()]);
        assert(split_on(before, '\n').last() == Seq::<char>::empty());
        let line = value_line(n1, values.last() as nat);
        lemma_decimal_plain(n1);
        lemma_decimal_plain(values.last() as nat);
        assert(!(", "@).contains('\n')) by {
            if (", "@).contains('\n') {
                let k = choose|k: int| 0 <= k < (", "@).len() && (", "@)[k] == '\n';
            }
        }
        lemma_concat_free(decimal(n1), ", "@, '\n');
        lemma_concat_free(decimal(n1) + ", "@, decimal(values.last() as nat), '\n');
        lemma_split_line(before, line, '\n');
        assert(s + value_lines(values) =~= before + line + seq!['\n']);
        let vn = Seq::new(values.len(), |i: int| value_line(i as nat, values[i] as nat));
        assert((p.drop_last() + vm + seq![Seq::<char>::empty()]).drop_last().push(line).push(
            Seq::<char>::empty(),
        ) =~= p.drop_last() + vn + seq![Seq::<char>::empty()]);
    }
}

/// Rows of a list of lines, their line numbers moved on by `by`.
pub open spec fn shift_rows(rows: Seq<(int, Result<(nat, Seq<char>), LineFault>)>, by: int) -> Seq<(int, Result<(nat, Seq<char>), LineFault>)> {
    Seq::new(rows.len(), |k: int| (rows[k].0 + by, rows[k].1))
}

/// The rows of two blocks of lines are the rows of the first, then those of the second.
#[verifier::spinoff_prover]
#[verifier::rlimit(30)]
proof fn lemma_rows_in_append(a: Seq<Seq<char>>, b: Seq<Seq<char>>)
    ensures
        rows_in(a + b) == rows_in(a) + shift_rows(rows_in(b), a.len() as int),
    decreases b.len(),
{
    if b.len() == 0 {
        assert(a + b =~= a);
        assert(rows_in(a) + shift_rows(rows_in(b), a.len() as int) =~= rows_in(a));
    } else {
        lemma_rows_in_append(a, b.drop_last());
        assert((a + b).drop_last() =~= a + b.drop_last());
        assert((a + b).last() == b.last());
        let rb = rows_in(b.drop_last());
        let t = trim(b.last());
        if is_row(t) {
            assert(shift_rows(rows_in(b), a.len() as int) =~= shift_rows(rb, a.len() as int).push(
                ((b.len() - 1 + a.len()) as int, read_row(t)),
            ));
        } else {
            assert(shift_rows(rows_in(b), a.len() as int) =~= shift_rows(rb, a.len() as int));
        }
    }
}

/// Comment lines give no rows.
proof fn lemma_rows_in_comments(lines: Seq<Seq<char>>)
    requires
        forall|i: int| 0 <= i < lines.len() ==> (#[trigger] lines[i]).len() > 0 && lines[i][0] == '#',
    ensures
        rows_in(lines) == Seq::<(int, Result<(nat, Seq<char>), LineFault>)>::empty(),
    decreases lines.len(),
{
    if lines.len() > 0 {
        let m = lines.drop_last();
        assert forall|i: int| 0 <= i < m.len() implies (#[trigger] m[i]).len() > 0 && m[i][0] == '#' by {
            assert(m[i] == lines[i]);
        }
        lemma_rows_in_comments(m);
        let x = lines[lines.len() - 1];
        assert(x.len() > 0 && x[0] == '#');
        lemma_trim_keeps_first(x);
    }
}

/// A value line reads as its agent index and its opinion.
proof fn lemma_read_value_line(i: nat, v: nat)
    requires
        i <= usize::MAX,
        v <= usize::MAX,
    ensures
        trim(value_line(i, v)) == value_line(i, v),
        is_row(value_line(i, v)),
        read_row(value_line(i, v)) == Ok::<(nat, Seq<char>), LineFault>((i, decimal(v))),
{
    reveal_strlit(", ");
    let di = decimal(i);
    let dv = decimal(v);
    lemma_decimal_plain(i);
    lemma_decimal_plain(v);
    let x = value_line(i, v);
    assert(x =~= di + seq![',', ' '] + dv);
    assert(x[0] == di[0]);
    assert(x.last() == dv.last());
    lemma_trim_plain(x);
    assert forall|k: int| 0 <= k < di.len() implies x[k] != ',' by {
        assert(x[k] == di[k]);
        if di[k] == ',' {
            assert(di.contains(','));
        }
    }
    assert(x[di.len() as int] == ',');
    lemma_find_char_at(x, ',', di.len() as int);
    assert(x.take(di.len() as int) =~= di);
    lemma_trim_plain(di);
    law_decimal_reads_back(i);
    let rest = x.skip(di.len() as int + 1);
    assert(rest =~= seq![' '] + dv);
    assert(!rest.contains(',')) by {
        if rest.contains(',') {
            let k = choose|k: int| 0 <= k < rest.len() && rest[k] == ',';
            assert(k > 0);
            assert(dv[k - 1] == ',');
            assert(dv.contains(','));
        }
    }
    lemma_split_plain(rest, ',');
    lemma_trim_space_then(dv);
}

/// Value lines give one row each: the agent index and its opinion.
#[verifier::spinoff_prover]
proof fn lemma_rows_in_values(values: Seq<usize>)
    requires
        values.len() <= usize::MAX,
    ensures
        rows_in(Seq::new(values.len(), |i: int| value_line(i as nat, values[i] as nat))) == Seq::new(
            values.len(),
            |i: int| (i, Ok::<(nat, Seq<char>), LineFault>((i as nat, decimal(values[i] as nat)))),
        ),
    decreases values.len(),
{
    let lines = Seq::new(values.len(), |i: int| value_line(i as nat, values[i] as nat));
    if values.len() > 0 {
        let m = values.drop_last();
        lemma_rows_in_values(m);
        assert(lines.drop_last() =~= Seq::new(m.len(), |i: int| value_line(i as nat, m[i] as nat)));
        let n1 = (values.len() - 1) as nat;
        lemma_read_value_line(n1, values.last() as nat);
        assert(lines.last() == value_line(n1, values.last() as nat));
        assert(Seq::new(values.len(), |i: int| (i, Ok::<(nat, Seq<char>), LineFault>((i as nat, decimal(values[i] as nat)))))
            =~= Seq::new(m.len(), |i: int| (i, Ok::<(nat, Seq<char>), LineFault>((i as nat, decimal(m[i] as nat))))).push(
            (n1 as int, Ok::<(nat, Seq<char>), LineFault>((n1, decimal(values.last() as nat)))),
        ));
    } else {
        assert(lines =~= Seq::<Seq<char>>::empty());
    }
}

/// The lines of the opinions file: the header, a comment line per voter and per option,
/// a value line per voter, then the empty piece after the last line break.
pub open spec fn opinions_file_lines(agents: Seq<Seq<char>>, options: Seq<Seq<char>>, values: Seq<usize>) -> Seq<Seq<char>> {
    seq!["# idx_agent, opinion"@] + Seq::new(agents.len(), |i: int| comment_line("# agent "@, i as nat, agents[i]))
        + Seq::new(options.len(), |i: int| comment_line("# option "@, i as nat, options[i]))
        + Seq::new(values.len(), |i: int| value_line(i as nat, values[i] as nat)) + seq![Seq::<char>::empty()]
}

proof fn lemma_literal_one_line(lit: Seq<char>)
    requires
        forall|k: int| 0 <= k < lit.len() ==> lit[k] != '\n',
    ensures
        !lit.contains('\n'),
{
}

proof fn lemma_opinions_file_lines(agents: Seq<Seq<char>>, options: Seq<Seq<char>>, values: Seq<usize>)
    requires
        single_line_names(agents),
        single_line_names(options),
        agents.len() <= usize::MAX,
        options.len() <= usize::MAX,
        values.len() <= usize::MAX,
    ensures
        split_on(opinions_file(agents, options, values), '\n') == opinions_file_lines(agents, options, values),
{
    reveal_strlit("# idx_agent, opinion\n");
    reveal_strlit("# idx_agent, opinion");
    reveal_strlit("# agent ");
    reveal_strlit("# option ");
    let e = Seq::<char>::empty();
    let hdr = "# idx_agent, opinion"@;
    let h = "# idx_agent, opinion\n"@;
    let la = "# agent "@;
    let lo = "# option "@;
    assert(h =~= e + hdr + seq!['\n']);
    lemma_literal_one_line(hdr);
    lemma_literal_one_line(la);
    lemma_literal_one_line(lo);
    assert(split_on(e, '\n') == seq![e]);
    lemma_split_line(e, hdr, '\n');
    assert(split_on(h, '\n') =~= seq![hdr, e]);
    let ca = Seq::new(agents.len(), |i: int| comment_line(la, i as nat, agents[i]));
    let co = Seq::new(options.len(), |i: int| comment_line(lo, i as nat, options[i]));
    let vl = Seq::new(values.len(), |i: int| value_line(i as nat, values[i] as nat));
    lemma_numbered_split(h, la, agents);
    let t1 = h + numbered_lines(la, agents);
    assert(seq![hdr, e].drop_last() =~= seq![hdr]);
    assert(split_on(t1, '\n') =~= seq![hdr] + ca + seq![e]);
    lemma_numbered_split(t1, lo, options);
    let t2 = t1 + numbered_lines(lo, options);
    assert((seq![hdr] + ca + seq![e]).drop_last() =~= seq![hdr] + ca);
    assert(split_on(t2, '\n') =~= seq![hdr] + ca + co + seq![e]);
    lemma_values_split(t2, values);
    let t3 = t2 + value_lines(values);
    assert((seq![hdr] + ca + co + seq![e]).drop_last() =~= seq![hdr] + ca + co);
    assert(split_on(t3, '\n') =~= seq![hdr] + ca + co + vl + seq![e]);
    assert(opinions_file(agents, options, values) =~= t3);
}

proof fn lemma_comment_block(agents: Seq<Seq<char>>, options: Seq<Seq<char>>, z: Seq<Seq<char>>)
    requires
        z == seq!["# idx_agent, opinion"@] + Seq::new(agents.len(), |k: int| comment_line("# agent "@, k as nat, agents[k]))
            + Seq::new(options.len(), |k: int| comment_line("# option "@, k as nat, options[k])),
    ensures
        forall|i: int| 0 <= i < z.len() ==> (#[trigger] z[i]).len() > 0 && z[i][0] == '#',
{
    reveal_strlit("# idx_agent, opinion");
    reveal_strlit("# agent ");
    reveal_strlit("# option ");
    let la = "# agent "@;
    let lo = "# option "@;
    let ca = Seq::new(agents.len(), |k: int| comment_line(la, k as nat, agents[k]));
    let co = Seq::new(options.len(), |k: int| comment_line(lo, k as nat, options[k]));
    assert(z == seq!["# idx_agent, opinion"@] + ca + co);
    assert forall|i: int| 0 <= i < z.len() implies (#[trigger] z[i]).len() > 0 && z[i][0] == '#' by {
        if i == 0 {
            assert(z[i] == "# idx_agent, opinion"@);
        } else if i < 1 + ca.len() {
            assert(z[i] == ca[i - 1]);
            assert(ca[i - 1][0] == la[0]);
        } else {
            assert(z[i] == co[i - 1 - ca.len()]);
            assert(co[i - 1 - ca.len()][0] == lo[0]);
        }
    }
}

/// The header and comment lines that open the opinions file.
pub open spec fn header_lines(agents: Seq<Seq<char>>, options: Seq<Seq<char>>) -> Seq<Seq<char>> {
    seq!["# idx_agent, opinion"@] + Seq::new(agents.len(), |k: int| comment_line("# agent "@, k as nat, agents[k]))
        + Seq::new(options.len(), |k: int| comment_line("# option "@, k as nat, options[k]))
}

/// The value lines of the opinions file, one per voter.
pub open spec fn value_line_list(values: Seq<usize>) -> Seq<Seq<char>> {
    Seq::new(values.len(), |i: int| value_line(i as nat, values[i] as nat))
}

/// The rows a list of value lines reads as, each shifted past `offset` lines before it.
pub open spec fn value_rows_after(values: Seq<usize>, offset: int) -> Seq<(int, Result<(nat, Seq<char>), LineFault>)> {
    Seq::new(values.len(), |i: int| (offset + i, Ok::<(nat, Seq<char>), LineFault>((i as nat, decimal(values[i] as nat)))))
}

/// The opening lines hold no row.
proof fn lemma_header_has_no_rows(agents: Seq<Seq<char>>, options: Seq<Seq<char>>)
    ensures
        rows_in(header_lines(agents, options)) == Seq::<(int, Result<(nat, Seq<char>), LineFault>)>::empty(),
        header_lines(agents, options).len() == 1 + agents.len() + options.len(),
{
    let z = header_lines(agents, options);
    lemma_comment_block(agents, options, z);
    lemma_rows_in_comments(z);
}

/// The empty line after the file's last line break holds no row.
proof fn lemma_last_line_has_no_rows()
    ensures
        rows_in(seq![Seq::<char>::empty()]) == Seq::<(int, Result<(nat, Seq<char>), LineFault>)>::empty(),
{
    let e = Seq::<char>::empty();
    assert(seq![e].drop_last() =~= Seq::<Seq<char>>::empty());
    assert(rows_in(Seq::<Seq<char>>::empty()) =~= Seq::<(int, Result<(nat, Seq<char>), LineFault>)>::empty());
    assert(trim(e) =~= e);
}

/// Lines with no rows before and after the value lines leave only the value rows, shifted
/// past the lines before them.
#[verifier::spinoff_prover]
proof fn lemma_rows_between(z: Seq<Seq<char>>, values: Seq<usize>, tail: Seq<Seq<char>>)
    requires
        values.len() <= usize::MAX,
        rows_in(z) == Seq::<(int, Result<(nat, Seq<char>), LineFault>)>::empty(),
        rows_in(tail) == Seq::<(int, Result<(nat, Seq<char>), LineFault>)>::empty(),
    ensures
        rows_in(z + value_line_list(values) + tail) == value_rows_after(values, z.len() as int),
{
    let vl = value_line_list(values);
    lemma_rows_in_values(values);
    lemma_rows_in_append(z, vl);
    lemma_rows_in_append(z + vl, tail);
    assert(rows_in(z + vl + tail) =~= value_rows_after(values, z.len() as int));
}

/// The opinions file reads back: its rows are the voters in order, each with its index and
/// the numeral of its opinion, on the lines after the header and the named voters and
/// options; this holds whenever no voter's or option's name breaks a line.
#[verifier::spinoff_prover]
pub proof fn law_opinions_file_reads_back(agents: Seq<Seq<char>>, options: Seq<Seq<char>>, values: Seq<usize>)
    requires
        single_line_names(agents),
        single_line_names(options),
        agents.len() <= usize::MAX,
        options.len() <= usize::MAX,
        values.len() <= usize::MAX,
    ensures
        opinion_rows(opinions_file(agents, options, values)) == Seq::new(
            values.len(),
            |i: int| ((1 + agents.len() + options.len() + i) as int, Ok::<(nat, Seq<char>), LineFault>((i as nat, decimal(values[i] as nat)))),
        ),
{
    lemma_opinions_file_lines(agents, options, values);
    let z = header_lines(agents, options);
    let tail = seq![Seq::<char>::empty()];
    assert(opinions_file_lines(agents, options, values) == z + value_line_list(values) + tail);
    lemma_header_has_no_rows(agents, options);
    lemma_last_line_has_no_rows();
    lemma_rows_between(z, values, tail);
    assert(value_rows_after(values, z.len() as int) =~= Seq::new(
        values.len(),
        |i: int| ((1 + agents.len() + options.len() + i) as int, Ok::<(nat, Seq<char>), LineFault>((i as nat, decimal(values[i] as nat)))),
    ));
}


/// Rows whose agent indices are their own places, as in a file written by `opinions_text`,
/// keep their order: the stable order of keys `0, 1, ..., n - 1` is that list itself.
pub proof fn law_ordered_rows_stay_in_place(order: Seq<usize>, n: nat)
    requires
        stable_order(order, Seq::new(n, |i: int| i as nat)),
    ensures
        forall|p: int| 0 <= p < n ==> #[trigger] order[p] == p,
{
    let keys = Seq::new(n, |i: int| i as nat);
    assert forall|p: int, q: int| 0 <= p < q < order.len() implies order[p] < order[q] by {
        assert(goes_before(keys, order[p] as int, order[q] as int));
    }
    assert forall|k: int| 0 <= k < n implies order[k] >= k by {
        lemma_increasing_at_least(order, k);
    }
    lemma_increasing_to(order, n, n as int);
}

proof fn lemma_increasing_at_least(order: Seq<usize>, k: int)
    requires
        0 <= k < order.len(),
        forall|a: int, b: int| 0 <= a < b < order.len() ==> order[a] < order[b],
    ensures
        order[k] >= k,
    decreases k,
{
    if k > 0 {
        lemma_increasing_at_least(order, k - 1);
        assert(order[k - 1] < order[k]);
    }
}

proof fn lemma_increasing_at_most(order: Seq<usize>, n: nat, k: int)
    requires
        order.len() == n,
        0 <= k < n,
        forall|a: int| 0 <= a < n ==> #[trigger] order[a] < n,
        forall|a: int, b: int| 0 <= a < b < order.len() ==> order[a] < order[b],
    ensures
        order[k] <= k,
    decreases n - k,
{
    if k < n - 1 {
        lemma_increasing_at_most(order, n, k + 1);
        assert(order[k] < order[k + 1]);
    } else {
        assert(order[k] < n);
    }
}

proof fn lemma_increasing_to(order: Seq<usize>, n: nat, p: int)
    requires
        order.len() == n,
        0 <= p <= n,
        forall|a: int| 0 <= a < n ==> #[trigger] order[a] < n,
        forall|a: int, b: int| 0 <= a < b < order.len() ==> order[a] < order[b],
    ensures
        forall|k: int| 0 <= k < p ==> order[k] <= k,
{
    assert forall|k: int| 0 <= k < p implies order[k] <= k by {
        lemma_increasing_at_most(order, n, k);
    }
}

} // verus!

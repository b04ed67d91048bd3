//! A JSON document as plain values, read from text by serde_json, and the vote, trust,
//! anchor and prediction shapes read from one.
//!
//! Numbers are held as the numeral serde_json prints for them: their floating-point values
//! stay with the caller, who also decides what holds of them (such as a range).

use vstd::prelude::*;
use crate::roster::{index_in, names_of, Ballot};
use crate::text::str_eq;

verus! {

/// A JSON value. An object's entries keep the document's order.
#[derive(Debug)]
pub enum JsonValue {
    Null,
    Bool(bool),
    /// A number, as its numeral.
    Number(String),
    Str(String),
    Array(Vec<JsonValue>),
    Object(Vec<(String, JsonValue)>),
}

// ---------------------------------------------------------------- JSON text

/// serde_json's document type, carried opaquely inside the parse wrapper.
#[verifier::external_type_specification]
#[verifier::external_body]
pub struct ExValue(serde_json::Value);

/// The document serde_json reads from a text (`serde_json::from_str` into
/// `serde_json::Value`), taken over variant for variant: each number as the numeral that
/// serde_json's `Display` prints for it, each object's entries in serde_json's map order
/// (sorted by key, so no key repeats); or, when the text holds no JSON document, the text
/// of serde_json's error. Nothing more of it is stated: the grammar is serde_json's.
pub uninterp spec fn json_document(raw: Seq<char>) -> Result<JsonValue, Seq<char>>;

/// Trusted: `serde_json::from_str::<serde_json::Value>` on the text, the value converted by
/// `document_of`, an error given as its `Display` text. Its contract, that the result is
/// `json_document` of the text, is believed, not proved.
#[verifier::external_body]
fn parse_json(raw: &str) -> (r: Result<JsonValue, String>)
    ensures
        match r {
            Ok(v) => json_document(raw@) == Ok::<JsonValue, Seq<char>>(v),
            Err(e) => json_document(raw@) == Err::<JsonValue, Seq<char>>(e@),
        },
{
    match serde_json::from_str::<serde_json::Value>(raw) {
        Ok(v) => Ok(document_of(v)),
        Err(e) => Err(e.to_string()),
    }
}

/// Trusted: a `serde_json::Value` as a `JsonValue`, one arm per variant, fields moved over;
/// a number becomes the text of its `Display`. Only `parse_json` calls it, and states no
/// more than `json_document` does.
#[verifier::external_body]
fn document_of(v: serde_json::Value) -> JsonValue {
    match v {
        serde_json::Value::Null => JsonValue::Null,
        serde_json::Value::Bool(b) => JsonValue::Bool(b),
        serde_json::Value::Number(n) => JsonValue::Number(n.to_string()),
        serde_json::Value::String(t) => JsonValue::Str(t),
        serde_json::Value::Array(a) => JsonValue::Array(a.into_iter().map(document_of).collect()),
        serde_json::Value::Object(m) => JsonValue::Object(m.into_iter().map(|(k, x)| (k, document_of(x))).collect()),
    }
}

/// The keys of an object's entries, in order.
pub open spec fn keys_of(entries: Seq<(String, JsonValue)>) -> Seq<Seq<char>> {
    Seq::new(entries.len(), |i: int| entries[i].0@)
}

/// The value under `key` in an object (its first entry with that key); nothing for any
/// other kind of value. A document read from text never repeats a key: serde_json keeps the
/// last value given under a key, so only a document built by hand can tell first from last.
#[verifier::opaque]
pub open spec fn json_get(v: JsonValue, key: Seq<char>) -> Option<JsonValue> {
    match v {
        JsonValue::Object(entries) => match index_in(keys_of(entries@), key) {
            Some(i) => Some(entries@[i].1),
            None => None,
        },
        _ => None,
    }
}

/// The text of a string value.
pub open spec fn text_of(v: Option<JsonValue>) -> Option<Seq<char>> {
    match v {
        Some(JsonValue::Str(s)) => Some(s@),
        _ => None,
    }
}

/// The items of an array value.
pub open spec fn items_of(v: Option<JsonValue>) -> Option<Seq<JsonValue>> {
    match v {
        Some(JsonValue::Array(a)) => Some(a@),
        _ => None,
    }
}

/// The numeral of a number value.
pub open spec fn number_of(v: Option<JsonValue>) -> Option<Seq<char>> {
    match v {
        Some(JsonValue::Number(n)) => Some(n@),
        _ => None,
    }
}

/// The value under `key`, if `v` is an object that has it.
pub fn get<'a>(v: &'a JsonValue, key: &str) -> (r: Option<&'a JsonValue>)
    ensures
        match r {
            Some(x) => json_get(*v, key@) == Some(*x),
            None => json_get(*v, key@) is None,
        },
{
    reveal(json_get);
    match v {
        JsonValue::Object(entries) => {
            let ghost keys = keys_of(entries@);
            let mut i: usize = 0;
            while i < entries.len()
                invariant
                    i <= entries.len(),
                    keys == keys_of(entries@),
                    *v == JsonValue::Object(*entries),
                    forall|k: int| 0 <= k < i ==> keys[k] != key@,
                decreases entries.len() - i,
            {
                if str_eq(entries[i].0.as_str(), key) {
                    proof {
                        reveal(json_get);
                        assert(keys[i as int] == key@);
                        crate::roster::lemma_index_in(keys, key@, i as int);
                        assert(json_get(*v, key@) == Some(entries@[i as int].1));
                    }
                    return Some(&entries[i].1);
                }
                i = i + 1;
            }
            assert(!keys.contains(key@));
            None
        },
        _ => None,
    }
}

/// The text of `v`, if it is a string.
fn as_text(v: &JsonValue) -> (r: Option<&String>)
    ensures
        match r {
            Some(s) => text_of(Some(*v)) == Some(s@),
            None => text_of(Some(*v)) is None,
        },
{
    match v {
        JsonValue::Str(s) => Some(s),
        _ => None,
    }
}

/// The text under `key`, if `v` is an object whose entry there is a string.
fn text_at<'a>(v: &'a JsonValue, key: &str) -> (r: Option<&'a String>)
    ensures
        match r {
            Some(s) => text_of(json_get(*v, key@)) == Some(s@),
            None => text_of(json_get(*v, key@)) is None,
        },
{
    match get(v, key) {
        Some(x) => as_text(x),
        None => None,
    }
}

/// The items under `key`, if `v` is an object whose entry there is an array.
fn items_at<'a>(v: &'a JsonValue, key: &str) -> (r: Option<&'a Vec<JsonValue>>)
    ensures
        match r {
            Some(a) => items_of(json_get(*v, key@)) == Some(a@),
            None => items_of(json_get(*v, key@)) is None,
        },
{
    match get(v, key) {
        Some(JsonValue::Array(a)) => Some(a),
        _ => None,
    }
}

/// Read each row in turn: the values read, or the error of the first row that fails.
pub open spec fn read_all<R, T, E>(rows: Seq<R>, read: spec_fn(R) -> Result<T, E>) -> Result<Seq<T>, E>
    decreases rows.len(),
{
    if rows.len() == 0 {
        Ok(Seq::empty())
    } else {
        match read_all(rows.drop_last(), read) {
            Ok(done) => match read(rows.last()) {
                Ok(x) => Ok(done.push(x)),
                Err(e) => Err(e),
            },
            Err(e) => Err(e),
        }
    }
}

/// One more row read: how `read_all` of a longer prefix follows from the shorter one.
proof fn lemma_read_all_step<R, T, E>(rows: Seq<R>, i: int, read: spec_fn(R) -> Result<T, E>)
    requires
        0 <= i < rows.len(),
    ensures
        read_all(rows.take(i + 1), read) == match read_all(rows.take(i), read) {
            Ok(done) => match read(rows[i]) {
                Ok(x) => Ok(done.push(x)),
                Err(e) => Err(e),
            },
            Err(e) => Err(e),
        },
{
    assert(rows.take(i + 1).drop_last() =~= rows.take(i));
}

/// Once a prefix fails, the whole list fails with the same error.
proof fn lemma_read_all_err_extends<R, T, E>(rows: Seq<R>, j: int, read: spec_fn(R) -> Result<T, E>)
    requires
        0 <= j <= rows.len(),
        read_all(rows.take(j), read) is Err,
    ensures
        read_all(rows, read) == read_all(rows.take(j), read),
    decreases rows.len() - j,
{
    if j == rows.len() {
        assert(rows.take(j) =~= rows);
    } else {
        lemma_read_all_step(rows, j, read);
        lemma_read_all_err_extends(rows, j + 1, read);
    }
}

// ---------------------------------------------------------------- ballots

/// A ballot as the pair of its voter's and its option's names.
pub open spec fn ballot_view(b: Ballot) -> (Seq<char>, Seq<char>) {
    (b.agent@, b.choice@)
}

/// The ballots as name pairs, in order.
pub open spec fn ballots_view(bs: Seq<Ballot>) -> Seq<(Seq<char>, Seq<char>)> {
    Seq::new(bs.len(), |i: int| ballot_view(bs[i]))
}

/// The rows of a vote dump: the document itself when it is an array; else the array under
/// `ballots`, `votes` or `agents`, the first of those that is one; else the document as a
/// single row when it has an `agent`.
pub open spec fn vote_rows(doc: JsonValue) -> Option<Seq<JsonValue>> {
    match doc {
        JsonValue::Array(items) => Some(items@),
        _ => {
            if items_of(json_get(doc, "ballots"@)) is Some {
                items_of(json_get(doc, "ballots"@))
            } else if items_of(json_get(doc, "votes"@)) is Some {
                items_of(json_get(doc, "votes"@))
            } else if items_of(json_get(doc, "agents"@)) is Some {
                items_of(json_get(doc, "agents"@))
            } else if json_get(doc, "agent"@) is Some {
                Some(seq![doc])
            } else {
                None
            }
        },
    }
}

/// The option a row voted for: its `choice` when it has one (which must then be a string),
/// else its `voted`.
pub open spec fn vote_choice(row: JsonValue) -> Option<Seq<char>> {
    match json_get(row, "choice"@) {
        Some(c) => text_of(Some(c)),
        None => text_of(json_get(row, "voted"@)),
    }
}

/// One row of a vote dump read as a ballot.
#[verifier::opaque]
pub open spec fn read_vote(row: JsonValue) -> Result<(Seq<char>, Seq<char>), Seq<char>> {
    match text_of(json_get(row, "agent"@)) {
        None => Err("vote json: missing agent"@),
        Some(agent) => match vote_choice(row) {
            None => Err("vote json: missing choice"@),
            Some(choice) => Ok((agent, choice)),
        },
    }
}

/// `read_vote`, as a value to read rows with.
pub open spec fn vote_reader() -> spec_fn(JsonValue) -> Result<(Seq<char>, Seq<char>), Seq<char>> {
    |row: JsonValue| read_vote(row)
}

/// The ballots a vote dump holds, or why it holds none.
pub open spec fn votes_in(doc: JsonValue) -> Result<Seq<(Seq<char>, Seq<char>)>, Seq<char>> {
    match vote_rows(doc) {
        None => Err("vote json: expected an array of {agent, choice}"@),
        Some(rows) => read_all(rows, vote_reader()),
    }
}

fn vote_from_row(row: &JsonValue) -> (r: Result<Ballot, String>)
    ensures
        match r {
            Ok(b) => read_vote(*row) == Ok::<_, Seq<char>>(ballot_view(b)),
            Err(e) => read_vote(*row) == Err::<(Seq<char>, Seq<char>), _>(e@),
        },
{
    reveal(read_vote);
    let agent = match text_at(row, "agent") {
        Some(a) => a,
        None => {
            return Err(String::from_str("vote json: missing agent"));
        },
    };
    let choice = match get(row, "choice") {
        Some(c) => as_text(c),
        None => text_at(row, "voted"),
    };
    match choice {
        Some(c) => Ok(Ballot { agent: agent.clone(), choice: c.clone() }),
        None => Err(String::from_str("vote json: missing choice")),
    }
}

fn votes_from_rows(rows: &Vec<JsonValue>) -> (r: Result<Vec<Ballot>, String>)
    ensures
        match r {
            Ok(bs) => read_all(rows@, vote_reader()) == Ok::<_, Seq<char>>(ballots_view(bs@)),
            Err(e) => read_all(rows@, vote_reader()) == Err::<Seq<(Seq<char>, Seq<char>)>, _>(e@),
        },
{
    let ghost read = vote_reader();
    let mut out: Vec<Ballot> = Vec::new();
    assert(read_all(Seq::<JsonValue>::empty(), read) == Ok::<_, Seq<char>>(Seq::<(Seq<char>, Seq<char>)>::empty()));
    let mut i: usize = 0;
    assert(rows@.take(0) =~= Seq::<JsonValue>::empty());
    assert(ballots_view(out@) =~= Seq::empty());
    while i < rows.len()
        invariant
            i <= rows.len(),
            read == vote_reader(),
            read_all(rows@.take(i as int), read) == Ok::<_, Seq<char>>(ballots_view(out@)),
        decreases rows.len() - i,
    {
        proof {
            lemma_read_all_step(rows@, i as int, read);
            assert(read(rows@[i as int]) == read_vote(rows@[i as int]));
        }
        match vote_from_row(&rows[i]) {
            Ok(b) => {
                let ghost before = out@;
                out.push(b);
                assert(ballots_view(out@) =~= ballots_view(before).push(ballot_view(b)));
            },
            Err(e) => {
                proof {
                    lemma_read_all_err_extends(rows@, i as int + 1, read);
                }
                return Err(e);
            },
        }
        i = i + 1;
    }
    assert(rows@.take(i as int) =~= rows@);
    Ok(out)
}

/// Read a vote document: an array of `{agent, choice}`, or an object with `ballots` /
/// `votes`, or a tracker row with `agents[].voted`, or a single `{agent, choice}`.
pub fn ballots_from_document(doc: &JsonValue) -> (r: Result<Vec<Ballot>, String>)
    ensures
        match r {
            Ok(bs) => votes_in(*doc) == Ok::<_, Seq<char>>(ballots_view(bs@)),
            Err(e) => votes_in(*doc) == Err::<Seq<(Seq<char>, Seq<char>)>, _>(e@),
        },
{
    if let JsonValue::Array(items) = doc {
        return votes_from_rows(items);
    }
    if let Some(a) = items_at(doc, "ballots") {
        return votes_from_rows(a);
    }
    if let Some(a) = items_at(doc, "votes") {
        return votes_from_rows(a);
    }
    if let Some(a) = items_at(doc, "agents") {
        return votes_from_rows(a);
    }
    if get(doc, "agent").is_some() {
        let ghost read = vote_reader();
        assert(seq![*doc].drop_last() =~= Seq::<JsonValue>::empty());
        assert(read_all(Seq::<JsonValue>::empty(), read) == Ok::<_, Seq<char>>(Seq::<(Seq<char>, Seq<char>)>::empty()));
        assert(read(*doc) == read_vote(*doc));
        assert(read_all(seq![*doc], read) == match read_vote(*doc) {
            Ok(x) => Ok(Seq::<(Seq<char>, Seq<char>)>::empty().push(x)),
            Err(e) => Err(e),
        });
        return match vote_from_row(doc) {
            Ok(b) => {
                let mut out: Vec<Ballot> = Vec::new();
                out.push(b);
                assert(ballots_view(out@) =~= Seq::<(Seq<char>, Seq<char>)>::empty().push(ballot_view(b)));
                Ok(out)
            },
            Err(e) => Err(e),
        };
    }
    Err(String::from_str("vote json: expected an array of {agent, choice}"))
}


// ---------------------------------------------------------------- trust rows

/// Trust rows as their two names and the numeral of their weight.
pub open spec fn trust_view(rows: Seq<(String, String, String)>) -> Seq<(Seq<char>, Seq<char>, Seq<char>)> {
    Seq::new(rows.len(), |i: int| (rows[i].0@, rows[i].1@, rows[i].2@))
}

/// A trust row written as a tuple `[from, to, weight]`.
pub open spec fn read_trust_tuple(row: Seq<JsonValue>) -> Result<(Seq<char>, Seq<char>, Seq<char>), Seq<char>> {
    if row.len() != 3 {
        Err("trust json: tuple must be [from, to, weight]"@)
    } else {
        match text_of(Some(row[0])) {
            None => Err("trust json: from must be a string"@),
            Some(from) => match text_of(Some(row[1])) {
                None => Err("trust json: to must be a string"@),
                Some(to) => match number_of(Some(row[2])) {
                    None => Err("trust json: weight must be a number"@),
                    Some(w) => Ok((from, to, w)),
                },
            },
        }
    }
}

/// A trust row written as an object `{from, to, weight}`.
pub open spec fn read_trust_object(item: JsonValue) -> Result<(Seq<char>, Seq<char>, Seq<char>), Seq<char>> {
    match text_of(json_get(item, "from"@)) {
        None => Err("trust json: missing from"@),
        Some(from) => match text_of(json_get(item, "to"@)) {
            None => Err("trust json: missing to"@),
            Some(to) => match number_of(json_get(item, "weight"@)) {
                None => Err("trust json: missing weight"@),
                Some(w) => Ok((from, to, w)),
            },
        },
    }
}

/// One trust row, written `[from, to, weight]` or `{from, to, weight}`.
pub open spec fn read_trust_row(item: JsonValue) -> Result<(Seq<char>, Seq<char>, Seq<char>), Seq<char>> {
    match item {
        JsonValue::Array(row) => read_trust_tuple(row@),
        _ => read_trust_object(item),
    }
}

/// `read_trust_row`, as a value to read rows with.
pub open spec fn trust_reader() -> spec_fn(JsonValue) -> Result<(Seq<char>, Seq<char>, Seq<char>), Seq<char>> {
    |item: JsonValue| read_trust_row(item)
}

/// The trust rows a document holds, or why it holds none.
pub open spec fn trust_in(doc: JsonValue) -> Result<Seq<(Seq<char>, Seq<char>, Seq<char>)>, Seq<char>> {
    match doc {
        JsonValue::Array(items) => read_all(items@, trust_reader()),
        _ => Err("trust json: expected an array"@),
    }
}

fn number_in(v: &JsonValue) -> (r: Option<&String>)
    ensures
        match r {
            Some(n) => number_of(Some(*v)) == Some(n@),
            None => number_of(Some(*v)) is None,
        },
{
    match v {
        JsonValue::Number(n) => Some(n),
        _ => None,
    }
}

fn trust_from_row(item: &JsonValue) -> (r: Result<(String, String, String), String>)
    ensures
        match r {
            Ok(t) => read_trust_row(*item) == Ok::<_, Seq<char>>((t.0@, t.1@, t.2@)),
            Err(e) => read_trust_row(*item) == Err::<(Seq<char>, Seq<char>, Seq<char>), _>(e@),
        },
{
    if let JsonValue::Array(row) = item {
        if row.len() != 3 {
            return Err(String::from_str("trust json: tuple must be [from, to, weight]"));
        }
        let from = match as_text(&row[0]) {
            Some(f) => f,
            None => {
                return Err(String::from_str("trust json: from must be a string"));
            },
        };
        let to = match as_text(&row[1]) {
            Some(t) => t,
            None => {
                return Err(String::from_str("trust json: to must be a string"));
            },
        };
        return match number_in(&row[2]) {
            Some(w) => Ok((from.clone(), to.clone(), w.clone())),
            None => Err(String::from_str("trust json: weight must be a number")),
        };
    }
    let from = match text_at(item, "from") {
        Some(f) => f,
        None => {
            return Err(String::from_str("trust json: missing from"));
        },
    };
    let to = match text_at(item, "to") {
        Some(t) => t,
        None => {
            return Err(String::from_str("trust json: missing to"));
        },
    };
    let weight = match get(item, "weight") {
        Some(w) => number_in(w),
        None => None,
    };
    match weight {
        Some(w) => Ok((from.clone(), to.clone(), w.clone())),
        None => Err(String::from_str("trust json: missing weight")),
    }
}

/// Read trust from a document, as `[{from,to,weight}]` or `[[from,to,weight], ...]`; each
/// weight is given by its numeral.
pub fn trust_from_document(doc: &JsonValue) -> (r: Result<Vec<(String, String, String)>, String>)
    ensures
        match r {
            Ok(rows) => trust_in(*doc) == Ok::<_, Seq<char>>(trust_view(rows@)),
            Err(e) => trust_in(*doc) == Err::<Seq<(Seq<char>, Seq<char>, Seq<char>)>, _>(e@),
        },
{
    let items = match doc {
        JsonValue::Array(items) => items,
        _ => {
            return Err(String::from_str("trust json: expected an array"));
        },
    };
    let ghost read = trust_reader();
    let mut out: Vec<(String, String, String)> = Vec::new();
    assert(read_all(Seq::<JsonValue>::empty(), read) == Ok::<_, Seq<char>>(Seq::<(Seq<char>, Seq<char>, Seq<char>)>::empty()));
    assert(items@.take(0) =~= Seq::<JsonValue>::empty());
    assert(trust_view(out@) =~= Seq::empty());
    let mut i: usize = 0;
    while i < items.len()
        invariant
            i <= items.len(),
            read == trust_reader(),
            *doc == JsonValue::Array(*items),
            read_all(items@.take(i as int), read) == Ok::<_, Seq<char>>(trust_view(out@)),
        decreases items.len() - i,
    {
        proof {
            lemma_read_all_step(items@, i as int, read);
            assert(read(items@[i as int]) == read_trust_row(items@[i as int]));
        }
        match trust_from_row(&items[i]) {
            Ok(t) => {
                let ghost before = out@;
                let ghost tv = (t.0@, t.1@, t.2@);
                out.push(t);
                assert(trust_view(out@) =~= trust_view(before).push(tv));
            },
            Err(e) => {
                proof {
                    lemma_read_all_err_extends(items@, i as int + 1, read);
                }
                return Err(e);
            },
        }
        i = i + 1;
    }
    assert(items@.take(i as int) =~= items@);
    Ok(out)
}


// ---------------------------------------------------------------- anchors

/// Why an anchor document was refused.
#[derive(Debug)]
pub enum AnchorsError {
    /// The document is not an object of agent to susceptibility.
    NotAnObject,
    /// The agent's value is not a number.
    NotANumber(String),
    /// The agent's value, given by its numeral, lies outside `[0, 1]`.
    OutOfRange(String, String),
}

/// An `AnchorsError`, with names as character sequences.
pub enum AnchorsFault {
    NotAnObject,
    NotANumber(Seq<char>),
    OutOfRange(Seq<char>, Seq<char>),
}

/// The fault an error reports.
pub open spec fn fault_of(e: AnchorsError) -> AnchorsFault {
    match e {
        AnchorsError::NotAnObject => AnchorsFault::NotAnObject,
        AnchorsError::NotANumber(a) => AnchorsFault::NotANumber(a@),
        AnchorsError::OutOfRange(a, n) => AnchorsFault::OutOfRange(a@, n@),
    }
}

/// There is a flag for each entry of the document, when it is an object.
pub open spec fn flags_cover(doc: JsonValue, flags: nat) -> bool {
    match doc {
        JsonValue::Object(entries) => entries@.len() <= flags,
        _ => true,
    }
}

/// One anchor entry, with the flag that says whether its value, if a number, lies in
/// `[0, 1]`: the agent and the numeral, when it is a number inside that interval.
pub open spec fn read_anchor(entry: (String, JsonValue), in_unit: bool) -> Result<(Seq<char>, Seq<char>), AnchorsFault> {
    match entry.1 {
        JsonValue::Number(n) => if in_unit {
            Ok((entry.0@, n@))
        } else {
            Err(AnchorsFault::OutOfRange(entry.0@, n@))
        },
        _ => Err(AnchorsFault::NotANumber(entry.0@)),
    }
}

/// The entries of an anchor object, each beside its flag.
pub open spec fn anchor_rows(entries: Seq<(String, JsonValue)>, in_unit: Seq<bool>) -> Seq<((String, JsonValue), bool)> {
    Seq::new(entries.len(), |i: int| (entries[i], in_unit[i]))
}

/// `read_anchor`, as a value to read flagged entries with.
pub open spec fn anchor_reader() -> spec_fn(((String, JsonValue), bool)) -> Result<(Seq<char>, Seq<char>), AnchorsFault> {
    |row: ((String, JsonValue), bool)| read_anchor(row.0, row.1)
}

/// The anchors a document holds, in the document's order, or the first fault; `in_unit[i]`
/// says whether the value of the object's entry `i` lies in `[0, 1]`.
pub open spec fn anchors_in(doc: JsonValue, in_unit: Seq<bool>) -> Result<Seq<(Seq<char>, Seq<char>)>, AnchorsFault> {
    match doc {
        JsonValue::Object(entries) => read_all(anchor_rows(entries@, in_unit), anchor_reader()),
        _ => Err(AnchorsFault::NotAnObject),
    }
}

/// A list of named numerals, with names as character sequences.
pub open spec fn named_numbers_view(rows: Seq<(String, String)>) -> Seq<(Seq<char>, Seq<char>)> {
    Seq::new(rows.len(), |i: int| (rows[i].0@, rows[i].1@))
}

/// Read anchors as `{"agent": susceptibility, ...}`, each in `[0, 1]`; `in_unit[i]` tells
/// whether the value of the object's entry `i` lies in that range, which the caller decides
/// on the numbers' values.
pub fn anchors_from_json(doc: &JsonValue, in_unit: &[bool]) -> (r: Result<Vec<(String, String)>, AnchorsError>)
    requires
        flags_cover(*doc, in_unit@.len()),
    ensures
        match r {
            Ok(rows) => anchors_in(*doc, in_unit@) == Ok::<_, AnchorsFault>(named_numbers_view(rows@)),
            Err(e) => anchors_in(*doc, in_unit@) == Err::<Seq<(Seq<char>, Seq<char>)>, _>(fault_of(e)),
        },
{
    let entries = match doc {
        JsonValue::Object(entries) => entries,
        _ => {
            return Err(AnchorsError::NotAnObject);
        },
    };
    let ghost read = anchor_reader();
    let ghost rows = anchor_rows(entries@, in_unit@);
    let mut out: Vec<(String, String)> = Vec::new();
    assert(read_all(Seq::<((String, JsonValue), bool)>::empty(), read) == Ok::<_, AnchorsFault>(Seq::<(Seq<char>, Seq<char>)>::empty()));
    assert(rows.take(0) =~= Seq::<((String, JsonValue), bool)>::empty());
    assert(named_numbers_view(out@) =~= Seq::empty());
    let mut i: usize = 0;
    while i < entries.len()
        invariant
            i <= entries.len(),
            entries@.len() <= in_unit@.len(),
            *doc == JsonValue::Object(*entries),
            read == anchor_reader(),
            rows == anchor_rows(entries@, in_unit@),
            read_all(rows.take(i as int), read) == Ok::<_, AnchorsFault>(named_numbers_view(out@)),
        decreases entries.len() - i,
    {
        proof {
            lemma_read_all_step(rows, i as int, read);
            assert(read(rows[i as int]) == read_anchor(entries@[i as int], in_unit@[i as int]));
        }
        let step: Result<(String, String), AnchorsError> = match &entries[i].1 {
            JsonValue::Number(n) => {
                if in_unit[i] {
                    Ok((entries[i].0.clone(), n.clone()))
                } else {
                    Err(AnchorsError::OutOfRange(entries[i].0.clone(), n.clone()))
                }
            },
            _ => Err(AnchorsError::NotANumber(entries[i].0.clone())),
        };
        match step {
            Ok(t) => {
                let ghost before = out@;
                let ghost tv = (t.0@, t.1@);
                out.push(t);
                assert(named_numbers_view(out@) =~= named_numbers_view(before).push(tv));
            },
            Err(e) => {
                proof {
                    lemma_read_all_err_extends(rows, i as int + 1, read);
                }
                return Err(e);
            },
        }
        i = i + 1;
    }
    assert(rows.take(i as int) =~= rows);
    Ok(out)
}

/// The document of an anchor text, its parse error named `anchors json`.
pub open spec fn anchors_document_of(raw: Seq<char>) -> Result<JsonValue, Seq<char>> {
    match json_document(raw) {
        Ok(doc) => Ok(doc),
        Err(e) => Err("anchors json: "@ + e),
    }
}

/// Parse an anchor text into the document that `anchors_from_json` reads, once the caller
/// has flagged its numbers.
pub fn anchors_document(raw: &str) -> (r: Result<JsonValue, String>)
    ensures
        match r {
            Ok(doc) => anchors_document_of(raw@) == Ok::<JsonValue, Seq<char>>(doc),
            Err(e) => anchors_document_of(raw@) == Err::<JsonValue, Seq<char>>(e@),
        },
{
    match parse_json(raw) {
        Ok(doc) => Ok(doc),
        Err(e) => Err(String::from_str("anchors json: ").concat(e.as_str())),
    }
}

// ---------------------------------------------------------------- predictions

/// What one voter expects of the others: everything on one option, or a share per option
/// (each share by its numeral).
#[derive(Debug)]
pub enum Expectation {
    Whole(String),
    Shares(Vec<(String, String)>),
}

/// An `Expectation`, with names as character sequences.
pub enum Expected {
    Whole(Seq<char>),
    Shares(Seq<(Seq<char>, Seq<char>)>),
}

/// The expectation an `Expectation` holds.
pub open spec fn expected_of(e: Expectation) -> Expected {
    match e {
        Expectation::Whole(o) => Expected::Whole(o@),
        Expectation::Shares(s) => Expected::Shares(named_numbers_view(s@)),
    }
}

/// The entries of an object whose values are numbers, in order.
pub open spec fn numeric_entries(entries: Seq<(String, JsonValue)>) -> Seq<(Seq<char>, Seq<char>)>
    decreases entries.len(),
{
    if entries.len() == 0 {
        Seq::empty()
    } else {
        let rest = numeric_entries(entries.drop_last());
        match entries.last().1 {
            JsonValue::Number(n) => rest.push((entries.last().0@, n@)),
            _ => rest,
        }
    }
}

/// One prediction row: `{"agent": a, "expect": {"option": share, ...}}` or
/// `{"agent": a, "expect": "option"}`.
#[verifier::opaque]
pub open spec fn read_prediction(row: JsonValue) -> Result<(Seq<char>, Expected), Seq<char>> {
    match text_of(json_get(row, "agent"@)) {
        None => Err("predictions: a row without agent"@),
        Some(agent) => match json_get(row, "expect"@) {
            Some(JsonValue::Str(o)) => Ok((agent, Expected::Whole(o@))),
            Some(JsonValue::Object(m)) => Ok((agent, Expected::Shares(numeric_entries(m@)))),
            _ => Err("predictions: a row without expect"@),
        },
    }
}

/// `read_prediction`, as a value to read rows with.
pub open spec fn prediction_reader() -> spec_fn(JsonValue) -> Result<(Seq<char>, Expected), Seq<char>> {
    |row: JsonValue| read_prediction(row)
}

/// The predictions a document holds, or why it holds none.
pub open spec fn predictions_in(doc: JsonValue) -> Result<Seq<(Seq<char>, Expected)>, Seq<char>> {
    match doc {
        JsonValue::Array(items) => read_all(items@, prediction_reader()),
        _ => Err("predictions: expected an array"@),
    }
}

/// Predictions, with names as character sequences.
pub open spec fn predictions_view(rows: Seq<(String, Expectation)>) -> Seq<(Seq<char>, Expected)> {
    Seq::new(rows.len(), |i: int| (rows[i].0@, expected_of(rows[i].1)))
}

fn numeric_from_entries(entries: &Vec<(String, JsonValue)>) -> (r: Vec<(String, String)>)
    ensures
        named_numbers_view(r@) == numeric_entries(entries@),
{
    let mut out: Vec<(String, String)> = Vec::new();
    let mut i: usize = 0;
    assert(entries@.take(0) =~= Seq::<(String, JsonValue)>::empty());
    assert(named_numbers_view(out@) =~= Seq::empty());
    while i < entries.len()
        invariant
            i <= entries.len(),
            named_numbers_view(out@) == numeric_entries(entries@.take(i as int)),
        decreases entries.len() - i,
    {
        assert(entries@.take(i + 1).drop_last() =~= entries@.take(i as int));
        if let JsonValue::Number(n) = &entries[i].1 {
            let ghost before = out@;
            out.push((entries[i].0.clone(), n.clone()));
            assert(named_numbers_view(out@) =~= named_numbers_view(before).push((entries@[i as int].0@, n@)));
        }
        i = i + 1;
    }
    assert(entries@.take(i as int) =~= entries@);
    out
}

fn prediction_from_row(row: &JsonValue) -> (r: Result<(String, Expectation), String>)
    ensures
        match r {
            Ok(p) => read_prediction(*row) == Ok::<_, Seq<char>>((p.0@, expected_of(p.1))),
            Err(e) => read_prediction(*row) == Err::<(Seq<char>, Expected), _>(e@),
        },
{
    reveal(read_prediction);
    let agent = match text_at(row, "agent") {
        Some(a) => a,
        None => {
            return Err(String::from_str("predictions: a row without agent"));
        },
    };
    match get(row, "expect") {
        Some(JsonValue::Str(o)) => Ok((agent.clone(), Expectation::Whole(o.clone()))),
        Some(JsonValue::Object(m)) => Ok((agent.clone(), Expectation::Shares(numeric_from_entries(m)))),
        _ => Err(String::from_str("predictions: a row without expect")),
    }
}

/// Read predictions from a document, as `[{"agent": a, "expect": {"option": share, ...}}]`
/// or `[{"agent": a, "expect": "option"}]`, the latter a whole share on one option.
pub fn predictions_from_document(doc: &JsonValue) -> (r: Result<Vec<(String, Expectation)>, String>)
    ensures
        match r {
            Ok(rows) => predictions_in(*doc) == Ok::<_, Seq<char>>(predictions_view(rows@)),
            Err(e) => predictions_in(*doc) == Err::<Seq<(Seq<char>, Expected)>, _>(e@),
        },
{
    let items = match doc {
        JsonValue::Array(items) => items,
        _ => {
            return Err(String::from_str("predictions: expected an array"));
        },
    };
    let ghost read = prediction_reader();
    let mut out: Vec<(String, Expectation)> = Vec::new();
    assert(read_all(Seq::<JsonValue>::empty(), read) == Ok::<_, Seq<char>>(Seq::<(Seq<char>, Expected)>::empty()));
    assert(items@.take(0) =~= Seq::<JsonValue>::empty());
    assert(predictions_view(out@) =~= Seq::empty());
    let mut i: usize = 0;
    while i < items.len()
        invariant
            i <= items.len(),
            read == prediction_reader(),
            *doc == JsonValue::Array(*items),
            read_all(items@.take(i as int), read) == Ok::<_, Seq<char>>(predictions_view(out@)),
        decreases items.len() - i,
    {
        proof {
            lemma_read_all_step(items@, i as int, read);
            assert(read(items@[i as int]) == read_prediction(items@[i as int]));
        }
        match prediction_from_row(&items[i]) {
            Ok(p) => {
                let ghost before = out@;
                let ghost pv = (p.0@, expected_of(p.1));
                out.push(p);
                assert(predictions_view(out@) =~= predictions_view(before).push(pv));
            },
            Err(e) => {
                proof {
                    lemma_read_all_err_extends(items@, i as int + 1, read);
                }
                return Err(e);
            },
        }
        i = i + 1;
    }
    assert(items@.take(i as int) =~= items@);
    Ok(out)
}


// ---------------------------------------------------------------- from text

/// The ballots a vote text holds, or why it holds none.
pub open spec fn votes_in_text(raw: Seq<char>) -> Result<Seq<(Seq<char>, Seq<char>)>, Seq<char>> {
    match json_document(raw) {
        Ok(doc) => votes_in(doc),
        Err(e) => Err("vote json: "@ + e),
    }
}

/// Parse a vote dump: an array of `{agent, choice}`, or an object with `ballots` / `votes`,
/// or a vissue consensus row with `agents[].voted`.
pub fn ballots_from_json(raw: &str) -> (r: Result<Vec<Ballot>, String>)
    ensures
        match r {
            Ok(bs) => votes_in_text(raw@) == Ok::<_, Seq<char>>(ballots_view(bs@)),
            Err(e) => votes_in_text(raw@) == Err::<Seq<(Seq<char>, Seq<char>)>, _>(e@),
        },
{
    match parse_json(raw) {
        Ok(doc) => ballots_from_document(&doc),
        Err(e) => Err(String::from_str("vote json: ").concat(e.as_str())),
    }
}

/// The trust rows a text holds, or why it holds none.
pub open spec fn trust_in_text(raw: Seq<char>) -> Result<Seq<(Seq<char>, Seq<char>, Seq<char>)>, Seq<char>> {
    match json_document(raw) {
        Ok(doc) => trust_in(doc),
        Err(e) => Err("trust json: "@ + e),
    }
}

/// Parse trust as `[{from,to,weight}]` or `[[from,to,weight], ...]`, each weight by its
/// numeral.
pub fn trust_from_json(raw: &str) -> (r: Result<Vec<(String, String, String)>, String>)
    ensures
        match r {
            Ok(rows) => trust_in_text(raw@) == Ok::<_, Seq<char>>(trust_view(rows@)),
            Err(e) => trust_in_text(raw@) == Err::<Seq<(Seq<char>, Seq<char>, Seq<char>)>, _>(e@),
        },
{
    match parse_json(raw) {
        Ok(doc) => trust_from_document(&doc),
        Err(e) => Err(String::from_str("trust json: ").concat(e.as_str())),
    }
}

/// The predictions a text holds, or why it holds none.
pub open spec fn predictions_in_text(raw: Seq<char>) -> Result<Seq<(Seq<char>, Expected)>, Seq<char>> {
    match json_document(raw) {
        Ok(doc) => predictions_in(doc),
        Err(e) => Err("predictions json: "@ + e),
    }
}

/// Parse predictions as `[{"agent": a, "expect": {"option": share, ...}}]` or
/// `[{"agent": a, "expect": "option"}]`, the latter a whole share on one option.
pub fn predictions_from_json(raw: &str) -> (r: Result<Vec<(String, Expectation)>, String>)
    ensures
        match r {
            Ok(rows) => predictions_in_text(raw@) == Ok::<_, Seq<char>>(predictions_view(rows@)),
            Err(e) => predictions_in_text(raw@) == Err::<Seq<(Seq<char>, Expected)>, _>(e@),
        },
{
    match parse_json(raw) {
        Ok(doc) => predictions_from_document(&doc),
        Err(e) => Err(String::from_str("predictions json: ").concat(e.as_str())),
    }
}

// ---------------------------------------------------------------- tracker issue lists

/// The string `id` of a row of an issue list, if it has one.
pub open spec fn row_id(row: JsonValue) -> Option<Seq<char>> {
    text_of(json_get(row, "id"@))
}

/// The ids of the rows that have a string `id`, in order; the other rows are passed over.
pub open spec fn ids_of_rows(rows: Seq<JsonValue>) -> Seq<Seq<char>>
    decreases rows.len(),
{
    if rows.len() == 0 {
        Seq::empty()
    } else {
        let rest = ids_of_rows(rows.drop_last());
        match row_id(rows.last()) {
            Some(id) => rest.push(id),
            None => rest,
        }
    }
}

/// The issue ids an issue list holds, or why it holds none.
pub open spec fn ids_in(doc: JsonValue) -> Result<Seq<Seq<char>>, Seq<char>> {
    match doc {
        JsonValue::Array(rows) => Ok(ids_of_rows(rows@)),
        _ => Err("vissue list --json: not a JSON array"@),
    }
}

/// The issue ids a tracker's issue-list text holds, or why it holds none.
pub open spec fn ids_in_text(raw: Seq<char>) -> Result<Seq<Seq<char>>, Seq<char>> {
    match json_document(raw) {
        Ok(doc) => ids_in(doc),
        Err(e) => Err("vissue list --json: not a JSON array: "@ + e),
    }
}

/// The ids of the issues that a tracker's issue list (`vissue list --json`) names: every
/// row's string `id`, in order, rows without one passed over.
pub fn issue_ids(raw: &str) -> (r: Result<Vec<String>, String>)
    ensures
        match r {
            Ok(ids) => ids_in_text(raw@) == Ok::<_, Seq<char>>(names_of(ids@)),
            Err(e) => ids_in_text(raw@) == Err::<Seq<Seq<char>>, _>(e@),
        },
{
    let doc = match parse_json(raw) {
        Ok(doc) => doc,
        Err(e) => {
            return Err(String::from_str("vissue list --json: not a JSON array: ").concat(e.as_str()));
        },
    };
    let rows = match &doc {
        JsonValue::Array(rows) => rows,
        _ => {
            return Err(String::from_str("vissue list --json: not a JSON array"));
        },
    };
    let mut out: Vec<String> = Vec::new();
    let mut i: usize = 0;
    assert(rows@.take(0) =~= Seq::<JsonValue>::empty());
    assert(names_of(out@) =~= Seq::empty());
    while i < rows.len()
        invariant
            i <= rows.len(),
            doc == JsonValue::Array(*rows),
            json_document(raw@) == Ok::<JsonValue, Seq<char>>(doc),
            names_of(out@) == ids_of_rows(rows@.take(i as int)),
        decreases rows.len() - i,
    {
        assert(rows@.take(i + 1).drop_last() =~= rows@.take(i as int));
        if let Some(id) = text_at(&rows[i], "id") {
            let ghost before = out@;
            out.push(id.clone());
            assert(names_of(out@) =~= names_of(before).push(id@));
        }
        i = i + 1;
    }
    assert(rows@.take(i as int) =~= rows@);
    Ok(out)
}

// ---------------------------------------------------------------- laws

/// Rows that each read well read as the list of what each gives.
proof fn lemma_read_all_ok<R, T, E>(rows: Seq<R>, vals: Seq<T>, read: spec_fn(R) -> Result<T, E>)
    requires
        rows.len() == vals.len(),
        forall|i: int| 0 <= i < rows.len() ==> #[trigger] read(rows[i]) == Ok::<T, E>(vals[i]),
    ensures
        read_all(rows, read) == Ok::<Seq<T>, E>(vals),
    decreases rows.len(),
{
    if rows.len() > 0 {
        lemma_read_all_ok(rows.drop_last(), vals.drop_last(), read);
        assert(read(rows[rows.len() - 1]) == Ok::<T, E>(vals[vals.len() - 1]));
        assert(vals.drop_last().push(vals.last()) =~= vals);
    } else {
        assert(vals =~= Seq::<T>::empty());
    }
}

/// An array of `{agent, choice}` objects reads as those ballots, in order.
pub proof fn law_ballot_array_reads_back(
    doc: JsonValue,
    items: Vec<JsonValue>,
    agents: Seq<Seq<char>>,
    choices: Seq<Seq<char>>,
)
    requires
        doc == JsonValue::Array(items),
        items@.len() == agents.len(),
        items@.len() == choices.len(),
        forall|i: int| 0 <= i < items@.len() ==> text_of(json_get(#[trigger] items@[i], "agent"@)) == Some(agents[i]),
        forall|i: int| 0 <= i < items@.len() ==> text_of(json_get(#[trigger] items@[i], "choice"@)) == Some(choices[i]),
    ensures
        votes_in(doc) == Ok::<_, Seq<char>>(Seq::new(items@.len(), |i: int| (agents[i], choices[i]))),
{
    reveal(read_vote);
    let vals = Seq::new(items@.len(), |i: int| (agents[i], choices[i]));
    assert forall|i: int| 0 <= i < items@.len() implies #[trigger] vote_reader()(items@[i]) == Ok::<_, Seq<char>>(vals[i]) by {
        let item = items@[i];
        assert(text_of(json_get(item, "choice"@)) == Some(choices[i]));
        assert(json_get(item, "choice"@) is Some);
        assert(vote_choice(item) == Some(choices[i]));
    }
    lemma_read_all_ok(items@, vals, vote_reader());
}

/// A trust row reads the same written as a tuple `[from, to, weight]` or as an object
/// `{from, to, weight}`.
pub proof fn law_trust_tuple_and_object_agree(
    tuple: JsonValue,
    cells: Vec<JsonValue>,
    object: JsonValue,
    from: Seq<char>,
    to: Seq<char>,
    weight: Seq<char>,
)
    requires
        tuple == JsonValue::Array(cells),
        cells@.len() == 3,
        text_of(Some(cells@[0])) == Some(from),
        text_of(Some(cells@[1])) == Some(to),
        number_of(Some(cells@[2])) == Some(weight),
        object is Object,
        text_of(json_get(object, "from"@)) == Some(from),
        text_of(json_get(object, "to"@)) == Some(to),
        number_of(json_get(object, "weight"@)) == Some(weight),
    ensures
        read_trust_row(tuple) == Ok::<_, Seq<char>>((from, to, weight)),
        read_trust_row(object) == Ok::<_, Seq<char>>((from, to, weight)),
{
    assert(read_trust_tuple(cells@) == Ok::<_, Seq<char>>((from, to, weight)));
    assert(read_trust_object(object) == Ok::<_, Seq<char>>((from, to, weight)));
}

/// A list that reads well has one value per row, each what its row reads as.
proof fn lemma_read_all_each<R, T, E>(rows: Seq<R>, read: spec_fn(R) -> Result<T, E>)
    requires
        read_all(rows, read) is Ok,
    ensures
        read_all(rows, read)->Ok_0.len() == rows.len(),
        forall|k: int| 0 <= k < rows.len() ==> #[trigger] read(rows[k]) == Ok::<T, E>(read_all(rows, read)->Ok_0[k]),
    decreases rows.len(),
{
    if rows.len() > 0 {
        let front = rows.drop_last();
        lemma_read_all_each(front, read);
        assert forall|k: int| 0 <= k < rows.len() implies #[trigger] read(rows[k]) == Ok::<T, E>(read_all(rows, read)->Ok_0[k]) by {
            if k < rows.len() - 1 {
                assert(rows[k] == front[k]);
            }
        }
    }
}

/// An anchor document is accepted only when every entry is a number flagged as lying in the
/// unit interval; the anchors are then those entries, in the document's order.
pub proof fn law_anchors_in_unit(doc: JsonValue, in_unit: Seq<bool>)
    requires
        flags_cover(doc, in_unit.len()),
        anchors_in(doc, in_unit) is Ok,
    ensures
        doc matches JsonValue::Object(entries) && {
            let got = anchors_in(doc, in_unit)->Ok_0;
            &&& got.len() == entries@.len()
            &&& forall|k: int| 0 <= k < entries@.len() ==> {
                &&& #[trigger] in_unit[k]
                &&& number_of(Some(entries@[k].1)) is Some
                &&& got[k] == (entries@[k].0@, number_of(Some(entries@[k].1))->Some_0)
            }
        },
{
    if let JsonValue::Object(entries) = doc {
        let rows = anchor_rows(entries@, in_unit);
        lemma_read_all_each(rows, anchor_reader());
        let got = anchors_in(doc, in_unit)->Ok_0;
        assert forall|k: int| 0 <= k < entries@.len() implies {
            &&& #[trigger] in_unit[k]
            &&& number_of(Some(entries@[k].1)) is Some
            &&& got[k] == (entries@[k].0@, number_of(Some(entries@[k].1))->Some_0)
        } by {
            assert(anchor_reader()(rows[k]) == Ok::<_, AnchorsFault>(got[k]));
            assert(rows[k] == (entries@[k], in_unit[k]));
        }
    }
}

/// An item written as a trust row from `from` to `to` with weight `weight`: the tuple
/// `[from, to, weight]`, or an object whose `from`, `to` and `weight` say so.
pub open spec fn written_trust_row(item: JsonValue, from: Seq<char>, to: Seq<char>, weight: Seq<char>) -> bool {
    match item {
        JsonValue::Array(cells) => {
            &&& cells@.len() == 3
            &&& text_of(Some(cells@[0])) == Some(from)
            &&& text_of(Some(cells@[1])) == Some(to)
            &&& number_of(Some(cells@[2])) == Some(weight)
        },
        _ => {
            &&& text_of(json_get(item, "from"@)) == Some(from)
            &&& text_of(json_get(item, "to"@)) == Some(to)
            &&& number_of(json_get(item, "weight"@)) == Some(weight)
        },
    }
}

/// An array whose every item is written as a trust row reads as all of those rows, one per
/// item and in order, whatever their names: no row is dropped or added, a voter's row to
/// itself included.
pub proof fn law_trust_keeps_every_row(
    items: Vec<JsonValue>,
    froms: Seq<Seq<char>>,
    tos: Seq<Seq<char>>,
    weights: Seq<Seq<char>>,
)
    requires
        froms.len() == items@.len(),
        tos.len() == items@.len(),
        weights.len() == items@.len(),
        forall|k: int| 0 <= k < items@.len() ==> written_trust_row(#[trigger] items@[k], froms[k], tos[k], weights[k]),
    ensures
        trust_in(JsonValue::Array(items)) == Ok::<_, Seq<char>>(
            Seq::new(items@.len(), |k: int| (froms[k], tos[k], weights[k])),
        ),
{
    let vals = Seq::new(items@.len(), |k: int| (froms[k], tos[k], weights[k]));
    assert forall|k: int| 0 <= k < items@.len() implies #[trigger] trust_reader()(items@[k]) == Ok::<_, Seq<char>>(vals[k]) by {
        let item = items@[k];
        assert(written_trust_row(item, froms[k], tos[k], weights[k]));
        match item {
            JsonValue::Array(cells) => {
                assert(read_trust_tuple(cells@) == Ok::<_, Seq<char>>(vals[k]));
            },
            _ => {
                assert(read_trust_object(item) == Ok::<_, Seq<char>>(vals[k]));
            },
        }
    }
    lemma_read_all_ok(items@, vals, trust_reader());
}

/// An anchor object whose every value is a number flagged as lying in `[0, 1]` is accepted,
/// whatever the numerals (whole numbers such as `0` and `1` included), and reads as its
/// entries, in order.
pub proof fn law_anchors_accept_every_unit_number(entries: Vec<(String, JsonValue)>, in_unit: Seq<bool>)
    requires
        entries@.len() <= in_unit.len(),
        forall|k: int| 0 <= k < entries@.len() ==> (#[trigger] entries@[k]).1 is Number && in_unit[k],
    ensures
        anchors_in(JsonValue::Object(entries), in_unit) == Ok::<_, AnchorsFault>(
            Seq::new(entries@.len(), |k: int| (entries@[k].0@, number_of(Some(entries@[k].1))->Some_0)),
        ),
{
    let rows = anchor_rows(entries@, in_unit);
    let vals = Seq::new(entries@.len(), |k: int| (entries@[k].0@, number_of(Some(entries@[k].1))->Some_0));
    assert forall|k: int| 0 <= k < rows.len() implies #[trigger] anchor_reader()(rows[k]) == Ok::<_, AnchorsFault>(vals[k]) by {
        assert(rows[k] == (entries@[k], in_unit[k]));
        assert(entries@[k].1 is Number && in_unit[k]);
    }
    lemma_read_all_ok(rows, vals, anchor_reader());
}

} // verus!

//! Reports and strikes for an agent that watches a running battle.

use crate::reckoning::{lemma_those, those};
use vstd::prelude::*;

verus! {

/// A number of a JSON value.
#[derive(Debug)]
pub enum Numeral {
    /// An unsigned integer.
    Whole(u64),
    /// Any other number, as it is written.
    Other(String),
}

/// A JSON value. Objects keep their members in the order in which they are written.
#[derive(Debug)]
pub enum Json {
    Null,
    Bool(bool),
    Number(Numeral),
    Text(String),
    List(Vec<Json>),
    Object(Vec<(String, Json)>),
}

/// The first member of that name.
pub open spec fn find_member(members: Seq<(String, Json)>, name: Seq<char>) -> Option<Json>
    decreases members.len(),
{
    if members.len() == 0 {
        None
    } else if find_member(members.drop_last(), name) is Some {
        find_member(members.drop_last(), name)
    } else if members.last().0@ == name {
        Some(members.last().1)
    } else {
        None
    }
}

impl Json {
    pub open spec fn spec_member(self, name: Seq<char>) -> Option<Json> {
        match self {
            Json::Object(members) => find_member(members@, name),
            _ => None,
        }
    }

    /// A member of an object; other values have none.
    pub fn member(&self, name: &str) -> (m: Option<&Json>)
        ensures
            m is Some <==> self.spec_member(name@) is Some,
            m matches Some(j) ==> self.spec_member(name@) == Some(*j),
    {
        match self {
            Json::Object(members) => {
                let mut i: usize = 0;
                assert(members@.take(0) =~= Seq::empty());
                while i < members.len()
                    invariant
                        i <= members@.len(),
                        find_member(members@.take(i as int), name@) is None,
                        *self matches Json::Object(m) && m == *members,
                    decreases members@.len() - i,
                {
                    assert(members@.take(i + 1).drop_last() =~= members@.take(i as int));
                    assert(members@.take(i + 1).last() == members@[i as int]);
                    if same(members[i].0.as_str(), name) {
                        proof {
                            lemma_found(members@, name@, i as int);
                        }
                        return Some(&members[i].1);
                    }
                    i = i + 1;
                }
                assert(members@.take(i as int) =~= members@);
                None
            },
            _ => None,
        }
    }
}

/// A member that is found early stays the first one.
proof fn lemma_found(members: Seq<(String, Json)>, name: Seq<char>, i: int)
    requires
        0 <= i < members.len(),
        find_member(members.take(i), name) is None,
        members[i].0@ == name,
    ensures
        find_member(members, name) == Some(members[i].1),
    decreases members.len(),
{
    let before = members.drop_last();
    if i == members.len() - 1 {
        assert(before =~= members.take(i));
    } else {
        assert(before.take(i) =~= members.take(i));
        lemma_found(before, name, i);
    }
}

/// Whether two strings are equal.
pub fn same(a: &str, b: &str) -> (r: bool)
    ensures
        r == (a@ == b@),
{
    let n: usize = a.unicode_len();
    if n != b.unicode_len() {
        return false;
    }
    let mut i: usize = 0;
    while i < n
        invariant
            i <= n,
            n == a@.len(),
            n == b@.len(),
            forall|j: int| 0 <= j < i ==> a@[j] == b@[j],
        decreases n - i,
    {
        if a.get_char(i) != b.get_char(i) {
            return false;
        }
        i = i + 1;
    }
    assert(a@ =~= b@);
    true
}

/// The rows of the reply to a query.
pub open spec fn rows(v: Json) -> Option<Seq<Json>> {
    match v.spec_member("result"@) {
        Some(Json::List(l)) => Some(l@),
        _ => None,
    }
}

/// A component of a row, if it is a text.
pub open spec fn component(row: Json, name: Seq<char>) -> Option<Seq<char>> {
    match row.spec_member("components"@) {
        Some(c) => match c.spec_member(name) {
            Some(Json::Text(t)) => Some(t@),
            _ => None,
        },
        None => None,
    }
}

fn rows_of(v: &Json) -> (r: Option<&Vec<Json>>)
    ensures
        r is Some <==> rows(*v) is Some,
        r matches Some(l) ==> rows(*v) == Some(l@),
{
    match v.member("result") {
        Some(Json::List(l)) => Some(l),
        _ => None,
    }
}

fn component_of<'a>(row: &'a Json, name: &str) -> (t: Option<&'a str>)
    ensures
        t is Some <==> component(*row, name@) is Some,
        t matches Some(s) ==> component(*row, name@) == Some(s@),
{
    match row.member("components") {
        Some(c) => match c.member(name) {
            Some(Json::Text(t)) => Some(t.as_str()),
            _ => None,
        },
        None => None,
    }
}

/// The decimal digits of a number.
pub open spec fn decimal(n: nat) -> Seq<char>
    decreases n,
{
    if n < 10 {
        seq![(48 + n) as char]
    } else {
        decimal(n / 10) + seq![(48 + n % 10) as char]
    }
}

fn digit(d: u64) -> (s: &'static str)
    requires
        d < 10,
    ensures
        s@ == seq![(48 + d) as char],
{
    proof {
        reveal_strlit("0");
        reveal_strlit("1");
        reveal_strlit("2");
        reveal_strlit("3");
        reveal_strlit("4");
        reveal_strlit("5");
        reveal_strlit("6");
        reveal_strlit("7");
        reveal_strlit("8");
        reveal_strlit("9");
    }
    let s: &'static str = if d == 0 {
        "0"
    } else if d == 1 {
        "1"
    } else if d == 2 {
        "2"
    } else if d == 3 {
        "3"
    } else if d == 4 {
        "4"
    } else if d == 5 {
        "5"
    } else if d == 6 {
        "6"
    } else if d == 7 {
        "7"
    } else if d == 8 {
        "8"
    } else {
        "9"
    };
    assert(s@ =~= seq![(48 + d) as char]);
    s
}

/// Writes a number in decimal.
pub fn to_decimal(n: u64) -> (s: String)
    ensures
        s@ == decimal(n as nat),
    decreases n,
{
    if n < 10 {
        String::from_str(digit(n))
    } else {
        let mut s: String = to_decimal(n / 10);
        s.append(digit(n % 10));
        s
    }
}

/// The order of texts by their characters.
pub open spec fn before(a: Seq<char>, b: Seq<char>) -> bool
    decreases a.len(),
{
    if b.len() == 0 {
        false
    } else if a.len() == 0 {
        true
    } else if a[0] != b[0] {
        (a[0] as int) < (b[0] as int)
    } else {
        before(a.skip(1), b.skip(1))
    }
}

fn precedes(a: &str, b: &str) -> (r: bool)
    ensures
        r == before(a@, b@),
{
    let n: usize = a.unicode_len();
    let m: usize = b.unicode_len();
    let mut i: usize = 0;
    assert(a@.skip(0) =~= a@);
    assert(b@.skip(0) =~= b@);
    while i < n && i < m
        invariant
            i <= n,
            i <= m,
            n == a@.len(),
            m == b@.len(),
            before(a@, b@) == before(a@.skip(i as int), b@.skip(i as int)),
        decreases n - i,
    {
        let ca: char = a.get_char(i);
        let cb: char = b.get_char(i);
        assert(a@.skip(i as int)[0] == ca && b@.skip(i as int)[0] == cb);
        assert(a@.skip(i as int).skip(1) =~= a@.skip(i + 1));
        assert(b@.skip(i as int).skip(1) =~= b@.skip(i + 1));
        if ca != cb {
            return (ca as u32) < (cb as u32);
        }
        i = i + 1;
    }
    i < m
}

/// One more of `label` in a tally: it goes where the labels before it end.
pub open spec fn counted(tally: Seq<(Seq<char>, nat)>, label: Seq<char>) -> Seq<(Seq<char>, nat)>
    decreases tally.len(),
{
    if tally.len() > 0 && before(tally[0].0, label) {
        seq![tally[0]] + counted(tally.skip(1), label)
    } else if tally.len() > 0 && tally[0].0 == label {
        seq![(label, tally[0].1 + 1)] + tally.skip(1)
    } else {
        seq![(label, 1nat)] + tally
    }
}

/// The tally of some labels.
pub open spec fn tallied(labels: Seq<Seq<char>>) -> Seq<(Seq<char>, nat)>
    decreases labels.len(),
{
    if labels.len() == 0 {
        Seq::empty()
    } else {
        counted(tallied(labels.drop_last()), labels.last())
    }
}

/// The content of a tally.
pub open spec fn tally_content(entries: Seq<(String, i32)>) -> Seq<(Seq<char>, nat)> {
    Seq::new(entries.len(), |i: int| (entries[i].0@, entries[i].1 as nat))
}

/// Labels before `label` are passed over.
proof fn lemma_counted(tally: Seq<(Seq<char>, nat)>, label: Seq<char>, k: int)
    requires
        0 <= k <= tally.len(),
        forall|j: int| 0 <= j < k ==> before((#[trigger] tally[j]).0, label),
    ensures
        counted(tally, label) == tally.take(k) + counted(tally.skip(k), label),
    decreases k,
{
    if k == 0 {
        assert(tally.skip(0) =~= tally);
        assert(tally.take(0) + counted(tally, label) =~= counted(tally, label));
    } else {
        let rest = tally.skip(1);
        assert forall|j: int| 0 <= j < k - 1 implies before((#[trigger] rest[j]).0, label) by {
            assert(rest[j] == tally[j + 1]);
        }
        assert(before(tally[0].0, label));
        lemma_counted(rest, label, k - 1);
        assert(rest.skip(k - 1) =~= tally.skip(k));
        assert(seq![tally[0]] + (rest.take(k - 1) + counted(tally.skip(k), label)) =~= tally.take(k)
            + counted(tally.skip(k), label));
    }
}

fn count_in(entries: &mut Vec<(String, i32)>, label: String, Ghost(limit): Ghost<int>)
    requires
        limit < i32::MAX,
        forall|i: int| 0 <= i < old(entries)@.len() ==> 0 < (#[trigger] old(entries)@[i]).1
            <= limit,
    ensures
        tally_content(final(entries)@) == counted(tally_content(old(entries)@), label@),
        limit >= 0 ==> forall|i: int|
            0 <= i < final(entries)@.len() ==> 0 < (#[trigger] final(entries)@[i]).1 <= limit + 1,
{
    let ghost all = tally_content(entries@);
    let ghost was = entries@;
    let mut k: usize = 0;
    while k < entries.len() && precedes(entries[k].0.as_str(), label.as_str())
        invariant
            k <= entries@.len(),
            entries@ == was,
            all == tally_content(was),
            forall|j: int| 0 <= j < k ==> before((#[trigger] all[j]).0, label@),
        decreases entries@.len() - k,
    {
        assert(all[k as int].0 == entries@[k as int].0@);
        k = k + 1;
    }
    proof {
        lemma_counted(all, label@, k as int);
        if k < was.len() {
            assert(all.skip(k as int)[0] == all[k as int]);
            assert(all[k as int].0 == was[k as int].0@);
        }
    }
    if k < entries.len() && same(entries[k].0.as_str(), label.as_str()) {
        let n: i32 = entries[k].1;
        assert(was[k as int].1 == n);
        entries[k].1 = n + 1;
        proof {
            assert(all.skip(k as int).skip(1) =~= all.skip(k + 1));
            assert(tally_content(entries@) =~= all.take(k as int) + (seq![
                (label@, all[k as int].1 + 1),
            ] + all.skip(k + 1)));
            assert forall|i: int| 0 <= i < entries@.len() implies 0 < (#[trigger] entries@[i]).1
                <= limit + 1 by {
                assert(0 < was[i].1 <= limit);
            }
        }
    } else {
        let ghost l = label@;
        entries.insert(k, (label, 1));
        proof {
            assert(tally_content(entries@) =~= all.take(k as int) + (seq![(l, 1nat)] + all.skip(
                k as int,
            )));
            if limit >= 0 {
                assert forall|i: int| 0 <= i < entries@.len() implies 0 < (
                #[trigger] entries@[i]).1 <= limit + 1 by {
                    if i < k {
                        assert(entries@[i] == was[i]);
                    } else if i > k {
                        assert(entries@[i] == was[i - 1]);
                    }
                }
            }
        }
    }
}

/// A component of a row, or a question mark.
pub open spec fn named(row: Json, name: Seq<char>) -> Seq<char> {
    match component(row, name) {
        Some(t) => t,
        None => "?"@,
    }
}

/// What a row counts as.
pub open spec fn label(row: Json) -> Seq<char> {
    "  "@ + named(row, "sim_core::Team"@) + " "@ + named(row, "sim_core::Kind"@)
}

/// What the rows count as.
pub open spec fn labels(rows: Seq<Json>) -> Seq<Seq<char>> {
    Seq::new(rows.len(), |i: int| label(rows[i]))
}

/// How many rows are of a team.
pub open spec fn muster(rows: Seq<Json>, team: Seq<char>) -> nat
    decreases rows.len(),
{
    if rows.len() == 0 {
        0
    } else {
        let rest = muster(rows.drop_last(), team);
        if named(rows.last(), "sim_core::Team"@) == team {
            rest + 1
        } else {
            rest
        }
    }
}

/// One line per entry.
pub open spec fn listed(tally: Seq<(Seq<char>, nat)>) -> Seq<char>
    decreases tally.len(),
{
    if tally.len() == 0 {
        Seq::empty()
    } else {
        let line = tally.last().0 + ": "@ + decimal(tally.last().1);
        if tally.len() == 1 {
            line
        } else {
            listed(tally.drop_last()) + "\n"@ + line
        }
    }
}

/// The hexadecimal digit of a number below sixteen.
pub open spec fn hex_digit(d: int) -> char {
    if d < 10 {
        (48 + d) as char
    } else {
        (87 + d) as char
    }
}

/// How a character stands in a text: quotes, backslashes and control characters are
/// escaped.
pub open spec fn escaped(c: char) -> Seq<char> {
    let n = c as int;
    if c == '"' {
        "\\\""@
    } else if c == '\\' {
        "\\\\"@
    } else if n == 8 {
        "\\b"@
    } else if n == 9 {
        "\\t"@
    } else if n == 10 {
        "\\n"@
    } else if n == 12 {
        "\\f"@
    } else if n == 13 {
        "\\r"@
    } else if n < 32 {
        "\\u00"@ + seq![hex_digit(n / 16), hex_digit(n % 16)]
    } else {
        seq![c]
    }
}

/// The characters of a text, each as it stands in one.
pub open spec fn all_escaped(text: Seq<char>) -> Seq<char>
    decreases text.len(),
{
    if text.len() == 0 {
        Seq::empty()
    } else {
        all_escaped(text.drop_last()) + escaped(text.last())
    }
}

/// A text in quotes.
pub open spec fn quoted(text: Seq<char>) -> Seq<char> {
    "\""@ + all_escaped(text) + "\""@
}

/// `serde_json::Value::to_string` on a text: the text in quotes, with the quotes,
/// backslashes and control characters in it escaped and all else left as it is.
#[verifier::external_body]
fn quote(text: &str) -> (s: String)
    ensures
        s@ == quoted(text@),
{
    serde_json::Value::from(text).to_string()
}

/// Texts with commas between them.
pub open spec fn comma_separated(texts: Seq<Seq<char>>) -> Seq<char>
    decreases texts.len(),
{
    if texts.len() <= 1 {
        if texts.len() == 0 {
            Seq::empty()
        } else {
            texts[0]
        }
    } else {
        comma_separated(texts.drop_last()) + ","@ + texts.last()
    }
}

/// How a value is written, without any space.
pub open spec fn written(v: Json) -> Seq<char>
    decreases v, 1int,
{
    match v {
        Json::Null => "null"@,
        Json::Bool(b) => if b {
            "true"@
        } else {
            "false"@
        },
        Json::Number(Numeral::Whole(n)) => decimal(n as nat),
        Json::Number(Numeral::Other(digits)) => digits@,
        Json::Text(t) => quoted(t@),
        Json::List(_) => "["@ + comma_separated(parts(v)) + "]"@,
        Json::Object(_) => "{"@ + comma_separated(parts(v)) + "}"@,
    }
}

/// How the items of a list, or the members of an object, are written.
pub open spec fn parts(v: Json) -> Seq<Seq<char>>
    decreases v, 0int,
{
    match v {
        Json::List(l) => Seq::new(
            l@.len(),
            |i: int|
                if 0 <= i < l@.len() {
                    written(l@[i])
                } else {
                    Seq::empty()
                },
        ),
        Json::Object(m) => Seq::new(
            m@.len(),
            |i: int|
                if 0 <= i < m@.len() {
                    quoted(m@[i].0@) + ":"@ + written(m@[i].1)
                } else {
                    Seq::empty()
                },
        ),
        _ => Seq::empty(),
    }
}

/// Appends the next of some texts, with a comma where one is needed.
fn append_part(s: &mut String, part: &str, first: bool, Ghost(before): Ghost<Seq<Seq<char>>>)
    requires
        first == (before.len() == 0),
    ensures
        forall|open: Seq<char>|
            old(s)@ == #[trigger] (open + comma_separated(before)) ==> final(s)@ == open
                + comma_separated(before.push(part@)),
{
    let ghost start = s@;
    if !first {
        s.append(",");
    }
    s.append(part);
    proof {
        let after = before.push(part@);
        assert(after.drop_last() =~= before);
        assert forall|open: Seq<char>| start == #[trigger] (open + comma_separated(before)) implies s@
            == open + comma_separated(after) by {
            assert(s@ =~= open + comma_separated(after));
        }
    }
}

/// Writes a value, without any space.
pub fn to_text(v: &Json) -> (s: String)
    ensures
        s@ == written(*v),
    decreases v,
{
    match v {
        Json::Null => String::from_str("null"),
        Json::Bool(b) => {
            if *b {
                String::from_str("true")
            } else {
                String::from_str("false")
            }
        },
        Json::Number(Numeral::Whole(n)) => to_decimal(*n),
        Json::Number(Numeral::Other(digits)) => String::from_str(digits.as_str()),
        Json::Text(t) => quote(t.as_str()),
        Json::List(l) => {
            let ghost all = parts(*v);
            let mut s: String = String::from_str("[");
            let mut i: usize = 0;
            assert(all.take(0) =~= Seq::empty());
            assert(s@ =~= "["@ + comma_separated(all.take(0)));
            while i < l.len()
                invariant
                    i <= l@.len(),
                    *v == Json::List(*l),
                    all == parts(*v),
                    s@ == "["@ + comma_separated(all.take(i as int)),
                decreases l@.len() - i,
            {
                assert(decreases_to!(*l => l@[i as int]));
                let part: String = to_text(&l[i]);
                append_part(&mut s, part.as_str(), i == 0, Ghost(all.take(i as int)));
                assert(all.take(i + 1) =~= all.take(i as int).push(part@));
                i = i + 1;
            }
            assert(all.take(i as int) =~= all);
            s.append("]");
            s
        },
        Json::Object(m) => {
            let ghost all = parts(*v);
            let mut s: String = String::from_str("{");
            let mut i: usize = 0;
            assert(all.take(0) =~= Seq::empty());
            assert(s@ =~= "{"@ + comma_separated(all.take(0)));
            while i < m.len()
                invariant
                    i <= m@.len(),
                    *v == Json::Object(*m),
                    all == parts(*v),
                    s@ == "{"@ + comma_separated(all.take(i as int)),
                decreases m@.len() - i,
            {
                assert(decreases_to!(*m => m@[i as int]));
                let mut part: String = quote(m[i].0.as_str());
                part.append(":");
                part.append(to_text(&m[i].1).as_str());
                append_part(&mut s, part.as_str(), i == 0, Ghost(all.take(i as int)));
                assert(all.take(i + 1) =~= all.take(i as int).push(part@));
                i = i + 1;
            }
            assert(all.take(i as int) =~= all);
            s.append("}");
            s
        },
    }
}

/// The report on a reply: the strength of both teams, and the units by team and
/// kind; or the reply itself, where it has no rows.
pub open spec fn report(v: Json) -> Seq<char> {
    match rows(v) {
        None => "unexpected BRP response: "@ + written(v),
        Some(rs) => "Red "@ + decimal(muster(rs, "Red"@)) + " vs Blue "@ + decimal(
            muster(rs, "Blue"@),
        ) + "\n"@ + listed(tallied(labels(rs))),
    }
}

fn label_of(team: &str, kind: &str) -> (l: String)
    ensures
        l@ == "  "@ + team@ + " "@ + kind@,
{
    let mut l: String = String::from_str("  ");
    l.append(team);
    l.append(" ");
    l.append(kind);
    l
}

fn list(entries: &Vec<(String, i32)>) -> (s: String)
    requires
        forall|i: int| 0 <= i < entries@.len() ==> 0 < (#[trigger] entries@[i]).1,
    ensures
        s@ == listed(tally_content(entries@)),
{
    let ghost all = tally_content(entries@);
    let mut s: String = String::new();
    let mut i: usize = 0;
    assert(all.take(0) =~= Seq::empty());
    assert(s@ =~= Seq::empty());
    while i < entries.len()
        invariant
            i <= entries@.len(),
            all == tally_content(entries@),
            forall|j: int| 0 <= j < entries@.len() ==> 0 < (#[trigger] entries@[j]).1,
            s@ == listed(all.take(i as int)),
        decreases entries@.len() - i,
    {
        let ghost now = all.take(i as int);
        let ghost next = all.take(i + 1);
        proof {
            assert(next.drop_last() =~= now);
            assert(next.last() == all[i as int]);
            assert(0 < entries@[i as int].1);
        }
        let ghost done = s@;
        if i > 0 {
            s.append("\n");
        }
        s.append(entries[i].0.as_str());
        s.append(": ");
        s.append(to_decimal(entries[i].1 as u64).as_str());
        proof {
            let line = all[i as int].0 + ": "@ + decimal(all[i as int].1);
            if i == 0 {
                assert(done =~= Seq::empty());
                assert(s@ =~= line);
            } else {
                assert(s@ =~= done + "\n"@ + line);
            }
        }
        i = i + 1;
    }
    assert(all.take(i as int) =~= all);
    s
}

/// The report on the reply to a query for teams and kinds.
pub fn summarize(v: &Json) -> (s: String)
    requires
        rows(*v) matches Some(rs) ==> rs.len() < i32::MAX,
    ensures
        s@ == report(*v),
{
    let arr: &Vec<Json> = match rows_of(v) {
        Some(l) => l,
        None => {
            let mut s: String = String::from_str("unexpected BRP response: ");
            s.append(to_text(v).as_str());
            return s;
        },
    };
    let ghost all = arr@;
    let mut red: i32 = 0;
    let mut blue: i32 = 0;
    let mut by: Vec<(String, i32)> = Vec::new();
    let mut i: usize = 0;
    assert(all.take(0) =~= Seq::empty());
    assert(labels(all).take(0) =~= Seq::empty());
    assert(tally_content(by@) =~= Seq::empty());
    while i < arr.len()
        invariant
            i <= arr@.len() < i32::MAX,
            all == arr@,
            red == muster(all.take(i as int), "Red"@),
            blue == muster(all.take(i as int), "Blue"@),
            0 <= red <= i,
            0 <= blue <= i,
            tally_content(by@) == tallied(labels(all).take(i as int)),
            forall|j: int| 0 <= j < by@.len() ==> 0 < (#[trigger] by@[j]).1 <= i,
        decreases arr@.len() - i,
    {
        let row: &Json = &arr[i];
        proof {
            assert(all.take(i + 1).drop_last() =~= all.take(i as int));
            assert(all.take(i + 1).last() == *row);
            assert(labels(all).take(i + 1).drop_last() =~= labels(all).take(i as int));
            assert(labels(all).take(i + 1).last() == label(*row));
        }
        let team: &str = match component_of(row, "sim_core::Team") {
            Some(t) => t,
            None => "?",
        };
        let kind: &str = match component_of(row, "sim_core::Kind") {
            Some(t) => t,
            None => "?",
        };
        proof {
            reveal_strlit("Red");
            reveal_strlit("Blue");
            assert("Red"@.len() != "Blue"@.len());
        }
        if same(team, "Red") {
            red = red + 1;
        } else if same(team, "Blue") {
            blue = blue + 1;
        }
        count_in(&mut by, label_of(team, kind), Ghost(i as int));
        i = i + 1;
    }
    assert(all.take(i as int) =~= all);
    assert(labels(all).take(i as int) =~= labels(all));
    let mut s: String = String::from_str("Red ");
    s.append(to_decimal(red as u64).as_str());
    s.append(" vs Blue ");
    s.append(to_decimal(blue as u64).as_str());
    s.append("\n");
    s.append(list(&by).as_str());
    s
}

/// The first row of a team.
pub open spec fn first_of(rows: Seq<Json>, team: Seq<char>) -> Option<Json>
    decreases rows.len(),
{
    if rows.len() == 0 {
        None
    } else if first_of(rows.drop_last(), team) is Some {
        first_of(rows.drop_last(), team)
    } else if component(rows.last(), "sim_core::Team"@) == Some(team) {
        Some(rows.last())
    } else {
        None
    }
}

/// The handle of the first unit of a team, if that row has one.
pub open spec fn spec_victim(v: Json, team: Seq<char>) -> Option<u64> {
    match rows(v) {
        None => None,
        Some(rs) => match first_of(rs, team) {
            None => None,
            Some(row) => match row.spec_member("entity"@) {
                Some(Json::Number(Numeral::Whole(n))) => Some(n),
                _ => None,
            },
        },
    }
}

proof fn lemma_first_of(rows: Seq<Json>, team: Seq<char>, i: int)
    requires
        0 <= i < rows.len(),
        first_of(rows.take(i), team) is None,
        component(rows[i], "sim_core::Team"@) == Some(team),
    ensures
        first_of(rows, team) == Some(rows[i]),
    decreases rows.len(),
{
    let before = rows.drop_last();
    if i == rows.len() - 1 {
        assert(before =~= rows.take(i));
    } else {
        assert(before.take(i) =~= rows.take(i));
        lemma_first_of(before, team, i);
    }
}

/// The unit to strike: the first one of the team in the reply to a query for
/// teams.
pub fn victim(v: &Json, team: &str) -> (id: Option<u64>)
    ensures
        id == spec_victim(*v, team@),
{
    let arr: &Vec<Json> = match rows_of(v) {
        Some(l) => l,
        None => {
            return None;
        },
    };
    let ghost all = arr@;
    let mut i: usize = 0;
    assert(all.take(0) =~= Seq::empty());
    while i < arr.len()
        invariant
            i <= arr@.len(),
            all == arr@,
            rows(*v) == Some(all),
            first_of(all.take(i as int), team@) is None,
        decreases arr@.len() - i,
    {
        let row: &Json = &arr[i];
        assert(all.take(i + 1).drop_last() =~= all.take(i as int));
        assert(all.take(i + 1).last() == *row);
        if let Some(t) = component_of(row, "sim_core::Team") {
            if same(t, team) {
                proof {
                    lemma_first_of(all, team@, i as int);
                }
                return match row.member("entity") {
                    Some(Json::Number(Numeral::Whole(n))) => Some(*n),
                    _ => None,
                };
            }
        }
        i = i + 1;
    }
    assert(all.take(i as int) =~= all);
    None
}

/// A request to strike one unit of a team.
#[derive(Debug)]
pub struct SmiteRequest {
    pub team: String,
}

/// What to do once the battle has been asked for its units.
#[derive(Debug)]
pub enum SmiteAction {
    /// Remove the unit with this handle.
    Despawn(u64),
    /// Answer the agent.
    Answer(String),
}

/// The agent's side of the battle.
#[derive(Debug, Clone)]
pub struct Imperium;

/// How a battle that cannot be asked is reported.
pub open spec fn unheard(error: Seq<char>) -> Seq<char> {
    "BRP error: "@ + error + " (is the game running?)"@
}

fn not_heard(error: &str) -> (s: String)
    ensures
        s@ == unheard(error@),
{
    let mut s: String = String::from_str("BRP error: ");
    s.append(error);
    s.append(" (is the game running?)");
    s
}

impl Imperium {
    /// The answer to a request for a report, given the reply of the battle.
    pub fn battle_report(&self, reply: &Result<Json, String>) -> (s: String)
        requires
            reply matches Ok(v) ==> (rows(*v) matches Some(rs) ==> rs.len() < i32::MAX),
        ensures
            s@ == (match *reply {
                Ok(v) => report(v),
                Err(e) => unheard(e@),
            }),
    {
        match reply {
            Ok(v) => summarize(v),
            Err(e) => not_heard(e.as_str()),
        }
    }

    /// What to do about a strike, given the reply to a query for teams.
    pub fn smite(&self, request: &SmiteRequest, reply: &Result<Json, String>) -> (a: SmiteAction)
        ensures
            match *reply {
                Err(e) => a matches SmiteAction::Answer(s) && s@ == unheard(e@),
                Ok(v) => match spec_victim(v, request.team@) {
                    Some(id) => a == SmiteAction::Despawn(id),
                    None => a matches SmiteAction::Answer(s) && s@ == "No "@ + request.team@
                        + " units found."@,
                },
            },
    {
        match reply {
            Err(e) => SmiteAction::Answer(not_heard(e.as_str())),
            Ok(v) => match victim(v, request.team.as_str()) {
                Some(id) => SmiteAction::Despawn(id),
                None => {
                    let mut s: String = String::from_str("No ");
                    s.append(request.team.as_str());
                    s.append(" units found.");
                    SmiteAction::Answer(s)
                },
            },
        }
    }

    /// The answer to a strike, given whether the removal went through.
    pub fn smitten(&self, request: &SmiteRequest, id: u64, removed: &Result<(), String>) -> (s:
        String)
        ensures
            s@ == (match *removed {
                Ok(_) => "Smote "@ + request.team@ + " entity "@ + decimal(id as nat) + "."@,
                Err(e) => "despawn failed: "@ + e@,
            }),
    {
        match removed {
            Ok(_) => {
                let mut s: String = String::from_str("Smote ");
                s.append(request.team.as_str());
                s.append(" entity ");
                s.append(to_decimal(id).as_str());
                s.append(".");
                s
            },
            Err(e) => {
                let mut s: String = String::from_str("despawn failed: ");
                s.append(e.as_str());
                s
            },
        }
    }
}

/// A text member.
pub open spec fn is_text(m: (String, Json), name: Seq<char>, text: Seq<char>) -> bool {
    m.0@ == name && (m.1 matches Json::Text(t) && t@ == text)
}

/// A JSON-RPC request.
pub open spec fn is_request(j: Json, method: Seq<char>, params: Json) -> bool {
    j matches Json::Object(m) && {
        &&& m@.len() == 4
        &&& is_text(m@[0], "jsonrpc"@, "2.0"@)
        &&& m@[1].0@ == "id"@ && m@[1].1 == Json::Number(Numeral::Whole(1))
        &&& is_text(m@[2], "method"@, method)
        &&& m@[3].0@ == "params"@ && m@[3].1 == params
    }
}

/// The request that calls a method of the running battle.
pub fn request(method: &str, params: Json) -> (j: Json)
    ensures
        is_request(j, method@, params),
{
    let mut m: Vec<(String, Json)> = Vec::new();
    m.push((String::from_str("jsonrpc"), Json::Text(String::from_str("2.0"))));
    m.push((String::from_str("id"), Json::Number(Numeral::Whole(1))));
    m.push((String::from_str("method"), Json::Text(String::from_str(method))));
    m.push((String::from_str("params"), params));
    Json::Object(m)
}

/// A list of texts.
pub open spec fn is_list(j: Json, texts: Seq<Seq<char>>) -> bool {
    j matches Json::List(l) && {
        &&& l@.len() == texts.len()
        &&& forall|i: int|
            0 <= i < texts.len() ==> ((#[trigger] l@[i]) matches Json::Text(t) && t@ == texts[i])
    }
}

/// The parameters of a query for components.
pub open spec fn is_query(j: Json, components: Seq<Seq<char>>) -> bool {
    j matches Json::Object(m) && {
        &&& m@.len() == 1
        &&& m@[0].0@ == "data"@
        &&& m@[0].1 matches Json::Object(d) && {
            &&& d@.len() == 1
            &&& d@[0].0@ == "components"@
            &&& is_list(d@[0].1, components)
        }
    }
}

/// The parameters of the query for the teams of the units, and for their kinds
/// too if asked.
pub fn query(kinds: bool) -> (j: Json)
    ensures
        is_query(
            j,
            if kinds {
                seq!["sim_core::Team"@, "sim_core::Kind"@]
            } else {
                seq!["sim_core::Team"@]
            },
        ),
{
    let mut l: Vec<Json> = Vec::new();
    l.push(Json::Text(String::from_str("sim_core::Team")));
    if kinds {
        l.push(Json::Text(String::from_str("sim_core::Kind")));
    }
    let mut d: Vec<(String, Json)> = Vec::new();
    d.push((String::from_str("components"), Json::List(l)));
    let mut m: Vec<(String, Json)> = Vec::new();
    m.push((String::from_str("data"), Json::Object(d)));
    Json::Object(m)
}

/// The parameters of the removal of a unit.
pub fn removal(id: u64) -> (j: Json)
    ensures
        j matches Json::Object(m) && m@.len() == 1 && m@[0].0@ == "entity"@ && m@[0].1
            == Json::Number(Numeral::Whole(id)),
{
    let mut m: Vec<(String, Json)> = Vec::new();
    m.push((String::from_str("entity"), Json::Number(Numeral::Whole(id))));
    Json::Object(m)
}

/// How often a label occurs.
pub open spec fn occurrences(labels: Seq<Seq<char>>, l: Seq<char>) -> nat
    decreases labels.len(),
{
    if labels.len() == 0 {
        0
    } else {
        let rest = occurrences(labels.drop_last(), l);
        if labels.last() == l {
            rest + 1
        } else {
            rest
        }
    }
}

/// What a tally says of a label.
pub open spec fn tally_of(tally: Seq<(Seq<char>, nat)>, l: Seq<char>) -> nat
    decreases tally.len(),
{
    if tally.len() == 0 {
        0
    } else {
        let rest = tally_of(tally.skip(1), l);
        if tally[0].0 == l {
            rest + tally[0].1
        } else {
            rest
        }
    }
}

/// The labels of a tally are in strict order.
pub open spec fn in_order(tally: Seq<(Seq<char>, nat)>) -> bool {
    forall|i: int, j: int|
        0 <= i < j < tally.len() ==> before((#[trigger] tally[i]).0, (#[trigger] tally[j]).0)
}

proof fn lemma_before_total(a: Seq<char>, b: Seq<char>)
    ensures
        before(a, b) || before(b, a) || a == b,
    decreases a.len(),
{
    if a.len() > 0 && b.len() > 0 && a[0] == b[0] {
        lemma_before_total(a.skip(1), b.skip(1));
        if a.skip(1) == b.skip(1) {
            assert(a =~= seq![a[0]] + a.skip(1));
            assert(b =~= seq![b[0]] + b.skip(1));
        }
    } else if a.len() == 0 && b.len() == 0 {
        assert(a =~= b);
    }
}

proof fn lemma_before_transitive(a: Seq<char>, b: Seq<char>, c: Seq<char>)
    requires
        before(a, b),
        before(b, c),
    ensures
        before(a, c),
    decreases a.len(),
{
    if a.len() > 0 && a[0] == b[0] && b[0] == c[0] {
        lemma_before_transitive(a.skip(1), b.skip(1), c.skip(1));
    }
}

proof fn lemma_counted_after(tally: Seq<(Seq<char>, nat)>, label: Seq<char>, x: Seq<char>)
    requires
        before(x, label),
        forall|i: int| 0 <= i < tally.len() ==> before(x, (#[trigger] tally[i]).0),
    ensures
        forall|i: int|
            0 <= i < counted(tally, label).len() ==> before(
                x,
                (#[trigger] counted(tally, label)[i]).0,
            ),
    decreases tally.len(),
{
    let all = counted(tally, label);
    if tally.len() > 0 && before(tally[0].0, label) {
        let rest = tally.skip(1);
        assert forall|i: int| 0 <= i < rest.len() implies before(x, (#[trigger] rest[i]).0) by {
            assert(rest[i] == tally[i + 1]);
        }
        lemma_counted_after(rest, label, x);
        assert forall|i: int| 0 <= i < all.len() implies before(x, (#[trigger] all[i]).0) by {
            if i > 0 {
                assert(all[i] == counted(rest, label)[i - 1]);
            }
        }
    } else if tally.len() > 0 && tally[0].0 == label {
        assert forall|i: int| 0 <= i < all.len() implies before(x, (#[trigger] all[i]).0) by {
            if i > 0 {
                assert(all[i] == tally[i]);
            }
        }
    } else {
        assert forall|i: int| 0 <= i < all.len() implies before(x, (#[trigger] all[i]).0) by {
            if i > 0 {
                assert(all[i] == tally[i - 1]);
            }
        }
    }
}

proof fn lemma_counted_in_order(tally: Seq<(Seq<char>, nat)>, label: Seq<char>)
    requires
        in_order(tally),
    ensures
        in_order(counted(tally, label)),
    decreases tally.len(),
{
    let all = counted(tally, label);
    if tally.len() > 0 && before(tally[0].0, label) {
        let rest = tally.skip(1);
        assert forall|i: int, j: int| 0 <= i < j < rest.len() implies before(
            (#[trigger] rest[i]).0,
            (#[trigger] rest[j]).0,
        ) by {
            assert(rest[i] == tally[i + 1] && rest[j] == tally[j + 1]);
        }
        lemma_counted_in_order(rest, label);
        assert forall|i: int| 0 <= i < rest.len() implies before(tally[0].0, (#[trigger] rest[i]).0) by {
            assert(rest[i] == tally[i + 1]);
        }
        lemma_counted_after(rest, label, tally[0].0);
        assert forall|i: int, j: int| 0 <= i < j < all.len() implies before(
            (#[trigger] all[i]).0,
            (#[trigger] all[j]).0,
        ) by {
            assert(all[j] == counted(rest, label)[j - 1]);
            if i > 0 {
                assert(all[i] == counted(rest, label)[i - 1]);
            }
        }
    } else if tally.len() > 0 && tally[0].0 == label {
        assert forall|i: int, j: int| 0 <= i < j < all.len() implies before(
            (#[trigger] all[i]).0,
            (#[trigger] all[j]).0,
        ) by {
            assert(all[j] == tally[j]);
            assert(all[i].0 == tally[i].0);
        }
    } else {
        if tally.len() > 0 {
            lemma_before_total(tally[0].0, label);
        }
        assert forall|i: int, j: int| 0 <= i < j < all.len() implies before(
            (#[trigger] all[i]).0,
            (#[trigger] all[j]).0,
        ) by {
            assert(all[j] == tally[j - 1]);
            if i > 0 {
                assert(all[i] == tally[i - 1]);
            } else if j > 1 {
                assert(before(tally[0].0, tally[j - 1].0));
                lemma_before_transitive(label, tally[0].0, tally[j - 1].0);
            }
        }
    }
}

proof fn lemma_counted_adds(tally: Seq<(Seq<char>, nat)>, label: Seq<char>, l: Seq<char>)
    ensures
        tally_of(counted(tally, label), l) == tally_of(tally, l) + (if l == label {
            1nat
        } else {
            0
        }),
    decreases tally.len(),
{
    let all = counted(tally, label);
    if tally.len() > 0 && before(tally[0].0, label) {
        lemma_counted_adds(tally.skip(1), label, l);
        assert(all.skip(1) =~= counted(tally.skip(1), label));
    } else if tally.len() > 0 && tally[0].0 == label {
        assert(all.skip(1) =~= tally.skip(1));
    } else {
        assert(all.skip(1) =~= tally);
    }
}

/// The tally lists the labels in strict order, each once, with the number of rows
/// that bear it.
pub proof fn law_tally_counts_every_row(labels: Seq<Seq<char>>, l: Seq<char>)
    ensures
        in_order(tallied(labels)),
        tally_of(tallied(labels), l) == occurrences(labels, l),
    decreases labels.len(),
{
    if labels.len() > 0 {
        law_tally_counts_every_row(labels.drop_last(), l);
        lemma_counted_in_order(tallied(labels.drop_last()), labels.last());
        lemma_counted_adds(tallied(labels.drop_last()), labels.last(), l);
    }
}

/// A member is looked up by its name: the first of that name is found, and without one
/// there is none.
pub proof fn law_members_are_found_by_name(members: Seq<(String, Json)>, name: Seq<char>, i: int)
    requires
        0 <= i <= members.len(),
        forall|j: int| 0 <= j < i ==> (#[trigger] members[j]).0@ != name,
    ensures
        i < members.len() && members[i].0@ == name ==> find_member(members, name) == Some(
            members[i].1,
        ),
        i == members.len() ==> find_member(members, name) is None,
    decreases members.len(),
{
    if members.len() > 0 {
        let before = members.drop_last();
        assert forall|j: int| 0 <= j < i && j < before.len() implies (#[trigger] before[j]).0@
            != name by {
            assert(before[j] == members[j]);
        }
        if i < before.len() {
            law_members_are_found_by_name(before, name, i);
        } else {
            law_members_are_found_by_name(before, name, before.len() as int);
        }
    }
}

/// The rows of a reply are the list under "result", and a component of a row is the text
/// of that name under "components".
pub proof fn law_replies_hold_rows(v: Json, name: Seq<char>)
    ensures
        v.spec_member("result"@) matches Some(Json::List(l)) ==> rows(v) == Some(l@),
        !(v.spec_member("result"@) matches Some(Json::List(_))) ==> rows(v) is None,
        v.spec_member("components"@) is None ==> component(v, name) is None,
        v.spec_member("components"@) matches Some(c) ==> {
            &&& c.spec_member(name) matches Some(Json::Text(t)) ==> component(v, name) == Some(t@)
            &&& !(c.spec_member(name) matches Some(Json::Text(_))) ==> component(v, name) is None
        },
        label(v) == "  "@ + (match component(v, "sim_core::Team"@) {
            Some(t) => t,
            None => "?"@,
        }) + " "@ + (match component(v, "sim_core::Kind"@) {
            Some(t) => t,
            None => "?"@,
        }),
{
}

/// A team has as many units in the report as there are rows with its name.
pub proof fn law_muster_counts_rows(rows: Seq<Json>, team: Seq<char>)
    requires
        team != "?"@,
    ensures
        muster(rows, team) == those(
            rows.len() as int,
            |i: int| component(rows[i], "sim_core::Team"@) == Some(team),
        ).len(),
    decreases rows.len(),
{
    let p = |i: int| component(rows[i], "sim_core::Team"@) == Some(team);
    if rows.len() > 0 {
        let before = rows.drop_last();
        let n = before.len() as int;
        let q = |i: int| component(before[i], "sim_core::Team"@) == Some(team);
        law_muster_counts_rows(before, team);
        assert(those(n, q) =~= those(n, p)) by {
            assert forall|i: int| those(n, q).contains(i) == those(n, p).contains(i) by {}
        }
        lemma_those(n, p);
    } else {
        lemma_those(0, p);
    }
}

/// A strike is at the unit in the first row of the team, by the handle that the row
/// gives as a whole number; without such a row, or without that, at nobody.
pub proof fn law_the_first_of_the_team_is_struck(v: Json, rs: Seq<Json>, team: Seq<char>, i: int)
    requires
        rows(v) == Some(rs),
        0 <= i <= rs.len(),
        forall|j: int|
            0 <= j < i ==> component(#[trigger] rs[j], "sim_core::Team"@) != Some(team),
    ensures
        i == rs.len() ==> spec_victim(v, team) is None,
        i < rs.len() && component(rs[i], "sim_core::Team"@) == Some(team) ==> spec_victim(v, team)
            == (match rs[i].spec_member("entity"@) {
            Some(Json::Number(Numeral::Whole(n))) => Some(n),
            _ => None,
        }),
{
    lemma_first_row(rs, team, i);
}

proof fn lemma_first_row(rs: Seq<Json>, team: Seq<char>, i: int)
    requires
        0 <= i <= rs.len(),
        forall|j: int|
            0 <= j < i ==> component(#[trigger] rs[j], "sim_core::Team"@) != Some(team),
    ensures
        i == rs.len() ==> first_of(rs, team) is None,
        i < rs.len() && component(rs[i], "sim_core::Team"@) == Some(team) ==> first_of(rs, team)
            == Some(rs[i]),
    decreases rs.len(),
{
    if rs.len() > 0 {
        let before = rs.drop_last();
        assert forall|j: int| 0 <= j < i && j < before.len() implies component(
            #[trigger] before[j],
            "sim_core::Team"@,
        ) != Some(team) by {
            assert(before[j] == rs[j]);
        }
        if i < before.len() {
            lemma_first_row(before, team, i);
        } else {
            lemma_first_row(before, team, before.len() as int);
        }
    }
}

/// The number that digits stand for.
pub open spec fn reading(digits: Seq<char>) -> int
    decreases digits.len(),
{
    if digits.len() == 0 {
        0
    } else {
        10 * reading(digits.drop_last()) + (digits.last() as int - 48)
    }
}

/// A number is written in digits that stand for it, without needless zeros in front.
pub proof fn law_decimals_read_back(n: nat)
    ensures
        decimal(n).len() > 0,
        reading(decimal(n)) == n,
        forall|i: int| 0 <= i < decimal(n).len() ==> '0' <= #[trigger] decimal(n)[i] <= '9',
        n > 0 ==> decimal(n)[0] != '0',
    decreases n,
{
    let last = (48 + n % 10) as char;
    if n < 10 {
        assert(decimal(n).drop_last() =~= Seq::empty());
        assert(reading(Seq::<char>::empty()) == 0);
        assert(decimal(n).last() == (48 + n) as char);
    } else {
        let front = decimal(n / 10);
        law_decimals_read_back(n / 10);
        assert(decimal(n).drop_last() =~= front);
        assert(decimal(n).last() == last);
        assert forall|i: int| 0 <= i < decimal(n).len() implies '0' <= #[trigger] decimal(n)[i]
            <= '9' by {
            if i < front.len() {
                assert(decimal(n)[i] == front[i]);
            }
        }
        assert(decimal(n)[0] == front[0]);
    }
}

/// Texts are ordered by their first difference: by the character there, or by which one
/// ends.
pub proof fn law_texts_in_order(a: Seq<char>, b: Seq<char>, i: int)
    requires
        0 <= i <= a.len(),
        i < b.len(),
        forall|j: int| 0 <= j < i ==> #[trigger] a[j] == b[j],
        i == a.len() || (a[i] as int) < (b[i] as int),
    ensures
        before(a, b),
        !before(b, a),
    decreases i,
{
    if i > 0 {
        assert(a[0] == b[0]);
        assert forall|j: int| 0 <= j < i - 1 implies #[trigger] a.skip(1)[j] == b.skip(1)[j] by {
            assert(a[j + 1] == b[j + 1]);
        }
        law_texts_in_order(a.skip(1), b.skip(1), i - 1);
    }
}

/// A report gives both teams' strength and then a line for each label with its count; a
/// reply without rows is quoted.
pub proof fn law_reports(v: Json)
    ensures
        rows(v) is None ==> report(v) == "unexpected BRP response: "@ + written(v),
        rows(v) matches Some(rs) ==> report(v) == "Red "@ + decimal(muster(rs, "Red"@))
            + " vs Blue "@ + decimal(muster(rs, "Blue"@)) + "\n"@ + listed(
            tallied(Seq::new(rs.len(), |i: int| label(rs[i]))),
        ),
{
    if let Some(rs) = rows(v) {
        assert(labels(rs) =~= Seq::new(rs.len(), |i: int| label(rs[i])));
    }
}

/// Lines of a list are divided by line breaks, parts of a value by commas.
pub proof fn law_lists_are_divided(
    tally: Seq<(Seq<char>, nat)>,
    entry: (Seq<char>, nat),
    texts: Seq<Seq<char>>,
    text: Seq<char>,
)
    ensures
        listed(Seq::empty()) == Seq::<char>::empty(),
        listed(tally.push(entry)) == (if tally.len() == 0 {
            entry.0 + ": "@ + decimal(entry.1)
        } else {
            listed(tally) + "\n"@ + (entry.0 + ": "@ + decimal(entry.1))
        }),
        comma_separated(Seq::empty()) == Seq::<char>::empty(),
        comma_separated(texts.push(text)) == (if texts.len() == 0 {
            text
        } else {
            comma_separated(texts) + ","@ + text
        }),
{
    assert(tally.push(entry).drop_last() =~= tally);
    assert(texts.push(text).drop_last() =~= texts);
}

/// How each kind of value is written: lists in square brackets, objects in braces with
/// each name in quotes before its value.
pub proof fn law_values_are_written(v: Json, i: int)
    ensures
        v is Null ==> written(v) == "null"@,
        v matches Json::Bool(b) ==> written(v) == (if b {
            "true"@
        } else {
            "false"@
        }),
        v matches Json::Number(Numeral::Whole(n)) ==> written(v) == decimal(n as nat),
        v matches Json::Number(Numeral::Other(d)) ==> written(v) == d@,
        v matches Json::Text(t) ==> written(v) == quoted(t@),
        v matches Json::List(l) ==> {
            &&& written(v) == "["@ + comma_separated(parts(v)) + "]"@
            &&& parts(v).len() == l@.len()
            &&& 0 <= i < l@.len() ==> parts(v)[i] == written(l@[i])
        },
        v matches Json::Object(m) ==> {
            &&& written(v) == "{"@ + comma_separated(parts(v)) + "}"@
            &&& parts(v).len() == m@.len()
            &&& 0 <= i < m@.len() ==> parts(v)[i] == quoted(m@[i].0@) + ":"@ + written(m@[i].1)
        },
{
}

/// What cannot be asked is reported with the reason.
pub proof fn law_silence_is_reported(error: Seq<char>)
    ensures
        unheard(error) == "BRP error: "@ + error + " (is the game running?)"@,
{
}

/// A request names its protocol, its number, its method and its parameters, each under
/// its own name.
pub proof fn law_requests_can_be_read(j: Json, method: Seq<char>, params: Json)
    requires
        is_request(j, method, params),
    ensures
        j.spec_member("jsonrpc"@) matches Some(Json::Text(t)) && t@ == "2.0"@,
        j.spec_member("id"@) == Some(Json::Number(Numeral::Whole(1))),
        j.spec_member("method"@) matches Some(Json::Text(t)) && t@ == method,
        j.spec_member("params"@) == Some(params),
{
    reveal_strlit("jsonrpc");
    reveal_strlit("id");
    reveal_strlit("method");
    reveal_strlit("params");
    assert("method"@[0] != "params"@[0]);
    assert("jsonrpc"@.len() == 7 && "id"@.len() == 2 && "method"@.len() == 6 && "params"@.len()
        == 6);
    let m = j->Object_0@;
    law_members_are_found_by_name(m, "jsonrpc"@, 0);
    law_members_are_found_by_name(m, "id"@, 1);
    law_members_are_found_by_name(m, "method"@, 2);
    law_members_are_found_by_name(m, "params"@, 3);
}

/// A query asks for its components, in a list under "data" and "components".
pub proof fn law_queries_can_be_read(j: Json, components: Seq<Seq<char>>, i: int)
    requires
        is_query(j, components),
    ensures
        j.spec_member("data"@) matches Some(d) && (d.spec_member("components"@) matches Some(
            Json::List(l),
        ) && l@.len() == components.len() && (0 <= i < components.len() ==> (l@[i] matches Json::Text(
            t,
        ) && t@ == components[i]))),
{
    let m = j->Object_0@;
    law_members_are_found_by_name(m, "data"@, 0);
    let d = m[0].1->Object_0@;
    law_members_are_found_by_name(d, "components"@, 0);
    if 0 <= i < components.len() {
        let l = d[0].1->List_0@;
        assert(l[i] matches Json::Text(t) && t@ == components[i]);
    }
}

} // verus!

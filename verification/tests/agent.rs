//! What the agent asks, does and answers.

use sim_core::agent::{
    query, removal, request, summarize, to_decimal, to_text, victim, Json, Numeral, SmiteAction,
};
use serde_json::Value;
use sim_core::{Imperium, SmiteRequest};

fn text(s: &str) -> Json {
    Json::Text(String::from(s))
}

fn number(n: u64) -> Json {
    Json::Number(Numeral::Whole(n))
}

/// A number that is no unsigned integer.
fn negative(digits: &str) -> Json {
    Json::Number(Numeral::Other(String::from(digits)))
}

fn object(members: Vec<(&str, Json)>) -> Json {
    Json::Object(members.into_iter().map(|(k, v)| (String::from(k), v)).collect())
}

fn row(id: u64, team: &str, kind: &str) -> Json {
    object(vec![
        ("entity", number(id)),
        (
            "components",
            object(vec![("sim_core::Team", text(team)), ("sim_core::Kind", text(kind))]),
        ),
    ])
}

fn reply(rows: Vec<Json>) -> Json {
    object(vec![("jsonrpc", text("2.0")), ("result", Json::List(rows))])
}

#[test]
fn the_report_counts_teams_and_kinds_in_order() {
    let v = reply(vec![
        row(1, "Red", "Infantry"),
        row(2, "Blue", "Infantry"),
        row(3, "Red", "Infantry"),
        row(4, "Blue", "Cavalry"),
        object(vec![("entity", number(5))]),
    ]);
    assert_eq!(
        summarize(&v),
        "Red 2 vs Blue 2\n  ? ?: 1\n  Blue Cavalry: 1\n  Blue Infantry: 1\n  Red Infantry: 2"
    );
    assert_eq!(summarize(&reply(vec![])), "Red 0 vs Blue 0\n");
    let many = (0..123).map(|i| row(i, "Blue", "Skirmisher")).collect();
    assert_eq!(summarize(&reply(many)), "Red 0 vs Blue 123\n  Blue Skirmisher: 123");
}

#[test]
fn an_unexpected_reply_is_quoted() {
    assert_eq!(summarize(&Json::Null), "unexpected BRP response: null");
    let odd = object(vec![("result", Json::Bool(true))]);
    assert_eq!(summarize(&odd), "unexpected BRP response: {\"result\":true}");
    let error = object(vec![
        ("error", object(vec![("code", negative("-32601")), ("message", text("no \"x\"\n"))])),
        ("id", number(1)),
    ]);
    assert_eq!(
        Imperium.battle_report(&Ok(error)),
        "unexpected BRP response: {\"error\":{\"code\":-32601,\"message\":\"no \\\"x\\\"\\n\"},\"id\":1}"
    );
}

/// A value as the JSON crate holds it.
fn to_json(v: &Value) -> Json {
    match v {
        Value::Null => Json::Null,
        Value::Bool(b) => Json::Bool(*b),
        Value::Number(n) => match n.as_u64() {
            Some(n) => number(n),
            None => negative(&n.to_string()),
        },
        Value::String(s) => text(s),
        Value::Array(l) => Json::List(l.iter().map(to_json).collect()),
        Value::Object(m) => Json::Object(m.iter().map(|(k, v)| (k.clone(), to_json(v))).collect()),
    }
}

#[test]
fn values_are_written_as_the_json_crate_writes_them() {
    for source in [
        "null",
        "[true, false, null]",
        "[]",
        "{}",
        "[[], {}, [[1]]]",
        "[0, 18446744073709551615, -1, -9223372036854775808, 0.5, -0.0, 1e300, 0.1, 3.0]",
        "{\"b\": 1, \"a\": {\"\": [\"\", \"x\"]}, \"a b\": 2}",
        "\"quote \\\" slash \\\\ / tab \\t line \\n bell \\u0007 \\u001f \\u007f é 漢 \\ud83d\\ude00\"",
    ] {
        let v: Value = source.parse().expect("valid");
        assert_eq!(to_text(&to_json(&v)), v.to_string(), "{source}");
    }
    assert_eq!(to_text(&text("a\"b")), "\"a\\\"b\"");
    for (c, expected) in [
        ('\\', "\"\\\\\""),
        ('\u{8}', "\"\\b\""),
        ('\t', "\"\\t\""),
        ('\n', "\"\\n\""),
        ('\u{c}', "\"\\f\""),
        ('\r', "\"\\r\""),
        ('\0', "\"\\u0000\""),
        ('\u{1b}', "\"\\u001b\""),
        ('\u{7f}', "\"\u{7f}\""),
        ('\u{2028}', "\"\u{2028}\""),
        ('/', "\"/\""),
    ] {
        assert_eq!(to_text(&text(&c.to_string())), expected);
    }
}

#[test]
fn odd_components_count_as_unknown() {
    let v = reply(vec![
        object(vec![("components", object(vec![("sim_core::Team", negative("-1"))]))]),
        object(vec![("components", Json::List(vec![text("Red")]))]),
        row(7, "Green", "Infantry"),
    ]);
    assert_eq!(
        summarize(&v),
        "Red 0 vs Blue 0\n  ? ?: 2\n  Green Infantry: 1"
    );
}

#[test]
fn the_first_unit_of_the_team_is_the_victim() {
    let v = reply(vec![row(10, "Blue", "Cavalry"), row(11, "Red", "Cavalry"), row(12, "Red", "x")]);
    assert_eq!(victim(&v, "Red"), Some(11));
    assert_eq!(victim(&v, "Blue"), Some(10));
    assert_eq!(victim(&v, "red"), None);
    assert_eq!(victim(&Json::Null, "Red"), None);
    // The first row decides, even where it has no handle.
    let odd = reply(vec![
        object(vec![("components", object(vec![("sim_core::Team", text("Red"))]))]),
        row(12, "Red", "x"),
    ]);
    assert_eq!(victim(&odd, "Red"), None);
    let below = reply(vec![object(vec![
        ("entity", negative("-1")),
        ("components", object(vec![("sim_core::Team", text("Red"))])),
    ])]);
    assert_eq!(victim(&below, "Red"), None);
}

#[test]
fn answers_read_as_they_should() {
    let me = Imperium;
    let ask = SmiteRequest { team: String::from("Red") };
    let down: Result<Json, String> = Err(String::from("refused"));
    assert_eq!(me.battle_report(&down), "BRP error: refused (is the game running?)");
    match me.smite(&ask, &down) {
        SmiteAction::Answer(s) => assert_eq!(s, "BRP error: refused (is the game running?)"),
        SmiteAction::Despawn(id) => panic!("despawned {id}"),
    }
    let up = Ok(reply(vec![row(18446744073709551615, "Red", "x")]));
    match me.smite(&ask, &up) {
        SmiteAction::Despawn(id) => assert_eq!(id, u64::MAX),
        SmiteAction::Answer(s) => panic!("answered {s}"),
    }
    let none = Ok(reply(vec![]));
    match me.smite(&ask, &none) {
        SmiteAction::Answer(s) => assert_eq!(s, "No Red units found."),
        SmiteAction::Despawn(id) => panic!("despawned {id}"),
    }
    assert_eq!(me.battle_report(&none), "Red 0 vs Blue 0\n");
    assert_eq!(me.smitten(&ask, 4294967297, &Ok(())), "Smote Red entity 4294967297.");
    assert_eq!(me.smitten(&ask, 1, &Err(String::from("gone"))), "despawn failed: gone");
}

#[test]
fn numbers_are_written_in_decimal() {
    for n in [0u64, 9, 10, 99, 100, 1234567890, u64::MAX] {
        assert_eq!(to_decimal(n), n.to_string());
    }
}

fn text_of(j: Option<&Json>) -> &str {
    match j {
        Some(Json::Text(t)) => t.as_str(),
        _ => panic!("no text"),
    }
}

#[test]
fn requests_name_method_and_parameters() {
    let j = request("world.query", query(true));
    assert_eq!(text_of(j.member("jsonrpc")), "2.0");
    assert_eq!(text_of(j.member("method")), "world.query");
    assert!(matches!(j.member("id"), Some(Json::Number(Numeral::Whole(1)))));
    let list = j.member("params").unwrap().member("data").unwrap().member("components").unwrap();
    match list {
        Json::List(l) => {
            assert_eq!(l.len(), 2);
            assert_eq!(text_of(Some(&l[0])), "sim_core::Team");
            assert_eq!(text_of(Some(&l[1])), "sim_core::Kind");
        }
        _ => panic!("no list"),
    }
    let short = query(false);
    match short.member("data").unwrap().member("components").unwrap() {
        Json::List(l) => assert_eq!(l.len(), 1),
        _ => panic!("no list"),
    }
    assert!(matches!(removal(42).member("entity"), Some(Json::Number(Numeral::Whole(42)))));
    assert!(removal(42).member("Entity").is_none());
    assert!(Json::Bool(true).member("entity").is_none());
}

use pairwise_gsb::args::{parse_db, parse_demo, parse_listen, Invocation};
use pairwise_gsb::decimal::{
    decimal_text, hundredths_text, magnitude, padded_text, parse_i64, round_half_even,
    tenths_text, whole_text,
};
use pairwise_gsb::http::{
    parse_request, query_field, query_prefixed, read_request, url_decode, write_response, Request,
};
use pairwise_gsb::json::{parse_json, render_json, Json};
use pairwise_gsb::order::{add_name, distinct, sort};
use pairwise_gsb::service::{
    decode_freeze, decode_import, decode_solve, decode_status, done_reply, import_reply,
    initial_scope, json_response, not_found, page_response, read_duplicate, read_freeze,
    read_import, read_recompute, read_solve, read_status_change, recompute_reply, route,
    run_id_of, text_reply, Route,
};
use pairwise_gsb::store::ImportOutcome;
use pairwise_gsb::text::{
    blank, chars_of, concat2, concat3, contains, le, lines, member, same, space, split,
    split_once, string_of, strip_prefix, to_upper, trim, trim_right, words,
};
use pairwise_gsb::web::{
    body_json, decode_action, error, json_response as web_json, json_string, plan_steps,
    read_action, reply_of, response, web_route, Action, Reply, Step, WebRoute,
};

fn names(v: &[&str]) -> Vec<String> {
    v.iter().map(|s| s.to_string()).collect()
}

fn parsed(text: &str) -> Json {
    parse_json(text).unwrap()
}

fn request(text: &str) -> Request {
    parse_request(text)
}

#[test]
fn requests_are_taken_apart() {
    let r = request("POST /api/run?id=7&x=1 HTTP/1.1\r\nHost: a\r\n\r\n{\"a\":1}\r\n\r\nmore");
    assert_eq!((r.method.as_str(), r.target.as_str()), ("POST", "/api/run?id=7&x=1"));
    assert_eq!(r.path, "/api/run");
    assert_eq!(r.body, Some("{\"a\":1}".to_string()));
    let empty = request("");
    assert_eq!((empty.method.as_str(), empty.path.as_str()), ("GET", "/"));
    assert_eq!(empty.body, None);
    let bare = request("PUT\r\n");
    assert_eq!((bare.method.as_str(), bare.target.as_str()), ("PUT", "/"));
}

#[test]
fn bytes_that_are_no_text_are_replaced() {
    let r = read_request(b"GET /\xff HTTP/1.1\r\n\r\n\xc3\xa9");
    assert_eq!(r.path, "/\u{fffd}");
    assert_eq!(r.body, Some("\u{e9}".to_string()));
}

#[test]
fn responses_count_bytes() {
    assert_eq!(
        write_response("200 OK", "text/plain", "X: y\r\n", "\u{e9}"),
        "HTTP/1.1 200 OK\r\nContent-Type: text/plain\r\nContent-Length: 2\r\nConnection: close\r\nX: y\r\n\r\n\u{e9}"
    );
    assert_eq!(
        response("200 OK", "text/plain", ""),
        "HTTP/1.1 200 OK\r\nContent-Type: text/plain\r\nContent-Length: 0\r\nConnection: close\r\nAccess-Control-Allow-Origin: *\r\n\r\n"
    );
}

#[test]
fn queries_are_decoded() {
    assert_eq!(url_decode("a+b%20c%2"), "a b c%2");
    assert_eq!(url_decode("%zz%41b"), "?Ab");
    assert_eq!(url_decode("%C3%A9x"), "\u{e9}x");
    assert_eq!(url_decode("%ffx"), "\u{fffd}x");
    assert_eq!(url_decode("%20"), " ");
    assert_eq!(url_decode("%+1x"), "\u{1}x");
    assert_eq!(query_field("/p?a=1&id=x%20y", "id"), Some("x y".to_string()));
    assert_eq!(query_field("/p?id=%C3%A9+%2B", "id"), Some("\u{e9} +".to_string()));
    assert_eq!(query_field("/p?a&id=2&id=3", "id"), Some("2".to_string()));
    assert_eq!(query_field("/p", "id"), None);
    assert_eq!(query_prefixed("/p?a=1&id=x%20y", "id="), Some("x%20y".to_string()));
    assert_eq!(run_id_of("/api/run?id=r").unwrap(), "r");
    assert_eq!(run_id_of("/api/run").unwrap_err(), "missing id");
}

#[test]
fn a_percent_near_the_end_is_kept() {
    assert_eq!(url_decode("%4"), "%4");
    assert_eq!(url_decode("%"), "%");
    assert_eq!(url_decode("%\u{e9}1"), "?1");
}

#[test]
fn each_route_of_the_service() {
    let cases = [
        ("GET", "/", Route::Page),
        ("GET", "/api/state", Route::State),
        ("POST", "/api/import", Route::Import),
        ("POST", "/api/picks/status", Route::PickStatus),
        ("POST", "/api/solve", Route::Solve),
        ("POST", "/api/freeze", Route::Freeze),
        ("POST", "/api/hypotheses/duplicate", Route::Duplicate),
        ("POST", "/api/hypotheses/recompute", Route::Recompute),
        ("GET", "/api/runs", Route::Runs),
        ("GET", "/api/run", Route::Run),
        ("GET", "/api/hypotheses", Route::Hypotheses),
        ("GET", "/api/batches", Route::Batches),
        ("GET", "/api/logs", Route::Logs),
        ("GET", "/api/import", Route::Unknown),
        ("DELETE", "/", Route::Unknown),
    ];
    for (method, path, expected) in cases {
        assert_eq!(route(method, path), expected);
    }
}

#[test]
fn answers_of_the_service() {
    assert_eq!(
        json_response(&done_reply()),
        "HTTP/1.1 200 OK\r\nContent-Type: application/json; charset=utf-8\r\nContent-Length: 11\r\nConnection: close\r\n\r\n{\"ok\":true}"
    );
    assert_eq!(
        not_found(),
        "HTTP/1.1 404 Not Found\r\nContent-Type: application/json\r\nContent-Length: 21\r\nConnection: close\r\n\r\n{\"error\":\"not_found\"}"
    );
    assert_eq!(
        page_response("<p>"),
        "HTTP/1.1 200 OK\r\nContent-Type: text/html; charset=utf-8\r\nContent-Length: 3\r\nConnection: close\r\n\r\n<p>"
    );
    assert_eq!(render_json(&text_reply("run_id", "r")), r#"{"run_id":"r"}"#);
    assert_eq!(
        render_json(&recompute_reply("r", "c")),
        r#"{"candidate_id":"c","run_id":"r"}"#
    );
    let outcome = ImportOutcome {
        batch_id: "b".to_string(),
        content_hash: "h".to_string(),
        duplicated: true,
        records: 3,
    };
    assert_eq!(
        render_json(&import_reply(&outcome)),
        r#"{"batch_id":"b","content_hash":"h","duplicated":true,"records":3}"#
    );
    assert_eq!(initial_scope(), names(&["event-001", "event-002", "event-003"]));
}

#[test]
fn bodies_of_the_service_are_read() {
    let import = read_import(r#"{"content":"x"}"#).unwrap();
    assert_eq!((import.source_name.as_str(), import.content.as_str()), ("api-import", "x"));
    assert_eq!(read_import("{}").unwrap_err(), "missing content");
    assert!(read_import("{").is_err());
    assert!(decode_import(&parsed(r#"{"content":1}"#)).is_err());
    let status = read_status_change(r#"{"pick_id":"p","status":"locked","locked_event":"e"}"#).unwrap();
    assert_eq!((status.pick_id.as_str(), status.status.as_str()), ("p", "locked"));
    assert_eq!(status.locked_event, Some("e".to_string()));
    let error = |text: &str| decode_status(&parsed(text)).unwrap_err();
    assert_eq!(error("{}"), "missing pick_id");
    assert_eq!(error(r#"{"pick_id":"p"}"#), "missing status");
    assert_eq!(
        error(r#"{"pick_id":"p","status":"x"}"#),
        "status must be active, locked or noise"
    );
    let solve = read_solve(r#"{"scope":["a",1,"b"]}"#).unwrap();
    assert_eq!(solve.clock_version, "clock-v1");
    assert_eq!(solve.rationale, "user_requested_recompute");
    assert_eq!(solve.scope, names(&["a", "b"]));
    assert_eq!(decode_solve(&parsed(r#"{"clock_version":"v"}"#)).clock_version, "v");
    let freeze = read_freeze(r#"{"candidate_id":"c"}"#).unwrap();
    assert_eq!((freeze.id.as_str(), freeze.label.as_str()), ("c", "frozen"));
    assert_eq!(decode_freeze(&parsed("[]")).unwrap_err(), "missing candidate_id");
    let copy = read_duplicate(r#"{"hypothesis_id":"h"}"#).unwrap();
    assert_eq!((copy.id.as_str(), copy.label.as_str()), ("h", "parallel"));
    assert_eq!(read_duplicate("{}").unwrap_err(), "missing hypothesis_id");
    let again = read_recompute(r#"{"hypothesis_id":"h","clock_version":"v"}"#).unwrap();
    assert_eq!((again.hypothesis_id, again.clock_version), ("h".to_string(), Some("v".to_string())));
    assert_eq!(read_recompute("{}").unwrap_err(), "missing hypothesis_id");
}

#[test]
fn each_route_of_the_web() {
    let at = |line: &str| web_route(&request(line));
    assert!(matches!(at("GET / HTTP/1.1"), WebRoute::Page));
    assert!(matches!(at("GET /app.js HTTP/1.1"), WebRoute::Script));
    assert!(matches!(at("GET /api/state HTTP/1.1"), WebRoute::State));
    assert!(matches!(at("GET /api/sets HTTP/1.1"), WebRoute::Sets));
    assert!(matches!(at("GET /api/set?id=-12 HTTP/1.1"), WebRoute::OneSet(-12)));
    assert!(matches!(at("GET /api/set?id=x HTTP/1.1"), WebRoute::SetWithoutId));
    assert!(matches!(at("GET /api/set HTTP/1.1"), WebRoute::SetWithoutId));
    assert!(matches!(at("POST /anything HTTP/1.1"), WebRoute::Action));
    assert!(matches!(at("GET /x HTTP/1.1"), WebRoute::Unknown));
    assert!(matches!(at("PUT / HTTP/1.1"), WebRoute::Unknown));
}

#[test]
fn refusals_of_the_web() {
    let body = "{\n  \"error\": \"no\"\n}";
    let head = "Content-Type: application/json; charset=utf-8\r\nContent-Length: 19\r\nConnection: close\r\nAccess-Control-Allow-Origin: *\r\n\r\n";
    assert_eq!(error("no", 404), format!("HTTP/1.1 404 Not Found\r\n{head}{body}"));
    assert_eq!(error("no", 500), format!("HTTP/1.1 400 Bad Request\r\n{head}{body}"));
    assert_eq!(
        web_json(&parsed(r#"{"error":"no"}"#), "200 OK"),
        format!("HTTP/1.1 200 OK\r\n{head}{body}")
    );
    let missing = json_string(&parsed("{}"), "x").unwrap_err();
    assert_eq!((missing.message.as_str(), missing.code), ("missing string field x", 400));
}

fn action(path: &str, body: &str) -> Action {
    decode_action(path, &parsed(body)).unwrap()
}

#[test]
fn actions_are_read() {
    let read = |text: &str| read_action(&request(text));
    assert!(matches!(
        read("POST /api/import HTTP/1.1\r\n\r\n{\"jsonl\":\"x\"}"),
        Ok(Action::Import { jsonl }) if jsonl == "x"
    ));
    let refused = read("POST /api/import HTTP/1.1\r\n\r\n{").unwrap_err();
    assert_eq!(refused.code, 400);
    assert!(refused.message.contains("EOF"));
    let refused = read("POST /nowhere HTTP/1.1").unwrap_err();
    assert_eq!((refused.message.as_str(), refused.code), ("unknown POST endpoint", 404));
    assert!(body_json(&request("POST / HTTP/1.1")).is_ok());
    let lacks = |path: &str, body: &str| decode_action(path, &parsed(body)).unwrap_err().message;
    let missing = |name: &str| format!("missing string field {name}");
    assert_eq!(lacks("/api/import", "{}"), missing("jsonl"));
    assert_eq!(lacks("/api/lock", "{}"), missing("hypothesis_id"));
    assert_eq!(lacks("/api/lock", r#"{"hypothesis_id":"h"}"#), missing("observation_id"));
    assert_eq!(lacks("/api/unlock", r#"{"hypothesis_id":"h"}"#), missing("observation_id"));
    assert_eq!(lacks("/api/noise", "{}"), missing("observation_id"));
    assert_eq!(lacks("/api/corrections", "{}"), missing("version"));
    assert_eq!(lacks("/api/recompute", "{}"), missing("hypothesis_id"));
    assert_eq!(
        lacks("/api/corrections", r#"{"version":"v2","offsets_s":{"A":"x"}}"#),
        "offsets_s must contain numbers"
    );
    match action("/api/corrections", r#"{"version":"v2","offsets_s":{"B":0.5,"A":1}}"#) {
        Action::Correction { version, parent, note, offsets } => {
            assert_eq!((version.as_str(), parent.as_str()), ("v2", "v1"));
            assert_eq!(note, "user correction");
            let pairs: Vec<(&str, &str)> =
                offsets.iter().map(|o| (o.station.as_str(), o.number.as_str())).collect();
            assert_eq!(pairs, vec![("A", "1"), ("B", "0.5")]);
        }
        other => panic!("{other:?}"),
    }
    assert!(matches!(
        action("/api/noise", r#"{"observation_id":"o"}"#),
        Action::Noise { enabled: true, .. }
    ));
}

#[test]
fn actions_become_steps() {
    let steps = plan_steps(action("/api/noise", r#"{"observation_id":"o","noise":false}"#));
    assert_eq!(steps.len(), 3);
    assert!(matches!(&steps[0], Step::SetNoise { observation, enabled: false } if observation == "o"));
    assert!(matches!(&steps[1], Step::Recompute { hypothesis, .. } if hypothesis == "H-A"));
    assert!(matches!(&steps[2], Step::Recompute { hypothesis, .. } if hypothesis == "H-B"));
    let steps = plan_steps(action(
        "/api/lock",
        r#"{"hypothesis_id":"h","observation_id":"o","event_key":"e"}"#,
    ));
    assert_eq!(steps.len(), 2);
    assert!(matches!(
        &steps[0],
        Step::SetLock { event_key: Some(e), locked: true, .. } if e == "e"
    ));
    assert!(matches!(
        &steps[1],
        Step::Recompute { correction: None, event_key: Some(e), .. } if e == "e"
    ));
    let steps = plan_steps(action(
        "/api/unlock",
        r#"{"hypothesis_id":"h","observation_id":"o","event_key":"e"}"#,
    ));
    assert!(matches!(&steps[0], Step::SetLock { event_key: None, locked: false, .. }));
    let steps = plan_steps(action(
        "/api/recompute",
        r#"{"hypothesis_id":"h","correction_version":"v2"}"#,
    ));
    assert!(matches!(&steps[0], Step::SetCorrection { version, .. } if version == "v2"));
    assert!(matches!(&steps[1], Step::Recompute { correction: Some(v), .. } if v == "v2"));
    let again = action("/api/recompute", r#"{"hypothesis_id":"h"}"#);
    assert_eq!(reply_of(&again), Reply::Solution);
    assert_eq!(reply_of(&action("/api/import", r#"{"jsonl":""}"#)), Reply::Summary);
    assert_eq!(reply_of(&action("/api/noise", r#"{"observation_id":"o"}"#)), Reply::Done);
    let steps = plan_steps(again);
    assert_eq!(steps.len(), 1);
    assert!(matches!(
        &plan_steps(action("/api/import", r#"{"jsonl":"x"}"#))[0],
        Step::Import { jsonl } if jsonl == "x"
    ));
}

#[test]
fn arguments_are_read() {
    let listen = |args: &[&str]| parse_listen(&names(args));
    assert!(matches!(listen(&[]), Ok(Invocation::Listen(a)) if a == "127.0.0.1:5312"));
    assert!(matches!(
        listen(&["--db", "d", "--listen", "a", "--demo", "x", "--listen", "b", "--database", "e"]),
        Ok(Invocation::Listen(a)) if a == "b"
    ));
    assert!(matches!(listen(&["--db", "d", "-h", "?"]), Ok(Invocation::Help)));
    assert_eq!(listen(&["--listen"]).unwrap_err(), "missing --listen address");
    assert_eq!(listen(&["--db"]).unwrap_err(), "missing --db path");
    assert_eq!(listen(&["--database"]).unwrap_err(), "missing --database path");
    assert_eq!(listen(&["--demo"]).unwrap_err(), "missing --demo path");
    assert_eq!(listen(&["x"]).unwrap_err(), "unknown argument x");
    assert_eq!(parse_db(&names(&[])), "data/local.sqlite");
    assert_eq!(parse_db(&names(&["--db"])), "data/local.sqlite");
    assert_eq!(parse_db(&names(&["--db", "a", "--database", "b"])), "a");
    assert_eq!(parse_demo(&names(&["--demo", "a"])), "a");
    assert_eq!(parse_demo(&names(&[])), "data/demo.jsonl");
}

#[test]
fn numbers_are_written() {
    assert_eq!(parse_i64("-0012"), Some(-12));
    assert_eq!(parse_i64("+7"), Some(7));
    assert_eq!(parse_i64("9223372036854775807"), Some(i64::MAX));
    assert_eq!(parse_i64("-9223372036854775808"), Some(i64::MIN));
    assert_eq!(parse_i64("9223372036854775808"), None);
    assert_eq!(parse_i64(""), None);
    assert_eq!(parse_i64("-"), None);
    assert_eq!(parse_i64("1x"), None);
    assert_eq!(decimal_text(0), "0");
    assert_eq!(decimal_text(u64::MAX), "18446744073709551615");
    assert_eq!(padded_text(7, 3), "007");
    assert_eq!(padded_text(1234, 3), "1234");
    assert_eq!(round_half_even(25, 10), 2);
    assert_eq!(round_half_even(35, 10), 4);
    assert_eq!(magnitude(i64::MIN), 1 << 63);
    assert_eq!(whole_text(-2_500_000_000), "-2");
    assert_eq!(whole_text(3_500_000_000), "4");
    assert_eq!(tenths_text(12_340_000_000), "12.3");
    assert_eq!(hundredths_text(4_005_000_001), "4.01");
}

#[test]
fn texts_are_taken_apart() {
    assert_eq!(trim(" \u{a0}x y\t\n"), "x y");
    assert_eq!(trim_right(" x \n"), " x");
    assert!(blank(" \u{3000}\r\n") && !blank(" x"));
    assert!(space('\u{2003}') && !space('\u{200b}'));
    assert_eq!(split("a,,b", ','), names(&["a", "", "b"]));
    assert_eq!(split("", ','), names(&[""]));
    assert_eq!(split_once("a=b=c", '='), Some(("a".to_string(), "b=c".to_string())));
    assert_eq!(split_once("a", '='), None);
    assert_eq!(lines("a\r\nb\n\nc\r"), names(&["a", "b", "", "c\r"]));
    assert_eq!(lines(""), names(&[]));
    assert_eq!(lines("a\n"), names(&["a"]));
    assert_eq!(words(" a \t b\n"), names(&["a", "b"]));
    assert_eq!(to_upper("a\u{e9}z1"), "A\u{e9}Z1");
    assert!(contains("abc", "bc") && contains("abc", "") && !contains("abc", "ac"));
    assert_eq!(strip_prefix("id=7", "id="), Some("7".to_string()));
    assert_eq!(strip_prefix("i", "id="), None);
    assert!(same("a", "a") && !same("a", "ab"));
    assert!(le("a", "ab") && le("a", "b") && !le("b", "ab") && le("z", "\u{e9}"));
    assert_eq!(concat2("a", "b"), "ab");
    assert_eq!(concat3("a", "b", "c"), "abc");
    assert!(member(&names(&["a"]), "a") && !member(&names(&["a"]), "b"));
    assert_eq!(string_of(&chars_of("h\u{e9}llo"), 1, 3), "\u{e9}l");
}

#[test]
fn names_are_kept_in_order_and_once() {
    assert_eq!(distinct(&names(&["b", "a", "b", "c", "a"])), names(&["a", "b", "c"]));
    assert_eq!(sort(names(&["b", "a", "b"])), names(&["a", "b", "b"]));
    let mut v = names(&["a", "c"]);
    add_name(&mut v, "b");
    add_name(&mut v, "a");
    assert_eq!(v, names(&["a", "b", "c"]));
}

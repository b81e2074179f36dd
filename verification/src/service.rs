//! The interface of the network solver: where a request goes, what it asks
//! for, and what it is answered.
use vstd::prelude::*;

use crate::decimal::{decimal, decimal_text};
use crate::http::{
    prefixed_in, query, query_prefixed, response_text, write_response,
};
use crate::json::{
    entries, get_text, get_texts, json_parse, json_text, object, object_of, parse_json,
    render_json, text_field, text_list, tidy, written, Json, JsonView,
};
use crate::store::{said, ImportOutcome};
use crate::text::{same, split_at, views};

verus! {

/// Where a request goes.
#[derive(Debug, Clone, Copy, PartialEq, Eq, Structural)]
pub enum Route {
    Page,
    State,
    Import,
    PickStatus,
    Solve,
    Freeze,
    Duplicate,
    Recompute,
    Runs,
    Run,
    Hypotheses,
    Batches,
    Logs,
    Unknown,
}

/// Where a request goes, by its method and path.
pub open spec fn route_of(method: Seq<char>, path: Seq<char>) -> Route {
    if method == "GET"@ {
        if path == "/"@ {
            Route::Page
        } else if path == "/api/state"@ {
            Route::State
        } else if path == "/api/runs"@ {
            Route::Runs
        } else if path == "/api/run"@ {
            Route::Run
        } else if path == "/api/hypotheses"@ {
            Route::Hypotheses
        } else if path == "/api/batches"@ {
            Route::Batches
        } else if path == "/api/logs"@ {
            Route::Logs
        } else {
            Route::Unknown
        }
    } else if method == "POST"@ {
        if path == "/api/import"@ {
            Route::Import
        } else if path == "/api/picks/status"@ {
            Route::PickStatus
        } else if path == "/api/solve"@ {
            Route::Solve
        } else if path == "/api/freeze"@ {
            Route::Freeze
        } else if path == "/api/hypotheses/duplicate"@ {
            Route::Duplicate
        } else if path == "/api/hypotheses/recompute"@ {
            Route::Recompute
        } else {
            Route::Unknown
        }
    } else {
        Route::Unknown
    }
}

/// Where a request goes.
pub fn route(method: &str, path: &str) -> (r: Route)
    ensures
        r == route_of(method@, path@),
{
    if same(method, "GET") {
        if same(path, "/") {
            Route::Page
        } else if same(path, "/api/state") {
            Route::State
        } else if same(path, "/api/runs") {
            Route::Runs
        } else if same(path, "/api/run") {
            Route::Run
        } else if same(path, "/api/hypotheses") {
            Route::Hypotheses
        } else if same(path, "/api/batches") {
            Route::Batches
        } else if same(path, "/api/logs") {
            Route::Logs
        } else {
            Route::Unknown
        }
    } else if same(method, "POST") {
        if same(path, "/api/import") {
            Route::Import
        } else if same(path, "/api/picks/status") {
            Route::PickStatus
        } else if same(path, "/api/solve") {
            Route::Solve
        } else if same(path, "/api/freeze") {
            Route::Freeze
        } else if same(path, "/api/hypotheses/duplicate") {
            Route::Duplicate
        } else if same(path, "/api/hypotheses/recompute") {
            Route::Recompute
        } else {
            Route::Unknown
        }
    } else {
        Route::Unknown
    }
}

/// The answer to a request that was done.
pub open spec fn ok_text(body: JsonView) -> Seq<char> {
    response_text(
        "200 OK"@,
        "application/json; charset=utf-8"@,
        Seq::empty(),
        json_text(written(body)),
    )
}

/// Answers a request that was done with a JSON value.
pub fn json_response(value: &Json) -> (r: String)
    requires
        tidy(value@),
    ensures
        r@ == ok_text(value@),
{
    let text = render_json(value);
    let none = String::new();
    assert(none@ =~= Seq::<char>::empty());
    write_response("200 OK", "application/json; charset=utf-8", none.as_str(), text.as_str())
}

/// What is answered where nothing is.
pub open spec fn nothing_here() -> JsonView {
    object_of(seq![said("error"@, "not_found"@)])
}

/// Answers a request for what does not exist.
pub fn not_found() -> (r: String)
    ensures
        r@ == response_text(
            "404 Not Found"@,
            "application/json"@,
            Seq::empty(),
            json_text(written(nothing_here())),
        ),
{
    let mut f: Vec<(String, Json)> = Vec::new();
    f.push(("error".to_owned(), Json::Text("not_found".to_owned())));
    assert(entries(f@) =~= seq![said("error"@, "not_found"@)]);
    let text = render_json(&object(f));
    let none = String::new();
    assert(none@ =~= Seq::<char>::empty());
    write_response("404 Not Found", "application/json", none.as_str(), text.as_str())
}

/// Answers a request for the page.
pub fn page_response(html: &str) -> (r: String)
    ensures
        r@ == response_text("200 OK"@, "text/html; charset=utf-8"@, Seq::empty(), html@),
{
    let none = String::new();
    assert(none@ =~= Seq::<char>::empty());
    write_response("200 OK", "text/html; charset=utf-8", none.as_str(), html)
}

/// The run that a target asks for.
pub open spec fn asked_run(target: Seq<char>) -> Option<Seq<char>> {
    prefixed_in(split_at(query(target), '&'), "id="@)
}

/// The run that a target asks for.
pub fn run_id_of(target: &str) -> (r: Result<String, String>)
    ensures
        match r {
            Ok(id) => asked_run(target@) == Some(id@),
            Err(m) => asked_run(target@) is None && m@ == "missing id"@,
        },
{
    match query_prefixed(target, "id=") {
        Some(id) => Ok(id),
        None => Err("missing id".to_owned()),
    }
}

/// A text, or another where there is none.
pub open spec fn text_or(t: Option<Seq<char>>, other: Seq<char>) -> Seq<char> {
    match t {
        Some(s) => s,
        None => other,
    }
}

/// The text of a field, or another where it has none.
fn field_or(j: &Json, name: &str, other: &str) -> (r: String)
    ensures
        r@ == text_or(text_field(j@, name@), other@),
{
    match get_text(j, name) {
        Some(t) => t.clone(),
        None => other.to_owned(),
    }
}

/// A request to import an input.
#[derive(Debug, Clone)]
pub struct ImportRequest {
    pub source_name: String,
    pub content: String,
}

/// What a body asks to import.
pub open spec fn import_asked(v: JsonView, r: Result<ImportRequest, String>) -> bool {
    match text_field(v, "content"@) {
        None => r matches Err(m) && m@ == "missing content"@,
        Some(content) => r matches Ok(q) && q.content@ == content && q.source_name@ == text_or(
            text_field(v, "source_name"@),
            "api-import"@,
        ),
    }
}

/// What a body asks to import.
pub fn decode_import(j: &Json) -> (r: Result<ImportRequest, String>)
    ensures
        import_asked(j@, r),
{
    match get_text(j, "content") {
        None => Err("missing content".to_owned()),
        Some(content) => Ok(
            ImportRequest {
                source_name: field_or(j, "source_name", "api-import"),
                content: content.clone(),
            },
        ),
    }
}

/// Reads what a body asks to import.
pub fn read_import(body: &str) -> (r: Result<ImportRequest, String>)
    ensures
        match json_parse(body@) {
            Ok(v) => import_asked(v, r),
            Err(e) => r matches Err(m) && m@ == e,
        },
{
    match parse_json(body) {
        Ok(j) => decode_import(&j),
        Err(m) => Err(m),
    }
}

/// A request to change the status of a pick.
#[derive(Debug, Clone)]
pub struct StatusRequest {
    pub pick_id: String,
    pub status: String,
    pub locked_event: Option<String>,
}

/// Whether a word is a status.
pub open spec fn is_status(s: Seq<char>) -> bool {
    s == "active"@ || s == "locked"@ || s == "noise"@
}

/// What change of status a body asks for.
pub open spec fn status_asked(v: JsonView, r: Result<StatusRequest, String>) -> bool {
    match text_field(v, "pick_id"@) {
        None => r matches Err(m) && m@ == "missing pick_id"@,
        Some(pick_id) => match text_field(v, "status"@) {
            None => r matches Err(m) && m@ == "missing status"@,
            Some(status) => if is_status(status) {
                r matches Ok(q) && q.pick_id@ == pick_id && q.status@ == status
                    && crate::store::optional(q.locked_event) == text_field(v, "locked_event"@)
            } else {
                r matches Err(m) && m@ == "status must be active, locked or noise"@
            },
        },
    }
}

/// What change of status a body asks for.
pub fn decode_status(j: &Json) -> (r: Result<StatusRequest, String>)
    ensures
        status_asked(j@, r),
{
    let pick_id = match get_text(j, "pick_id") {
        None => {
            return Err("missing pick_id".to_owned());
        },
        Some(t) => t.clone(),
    };
    let status = match get_text(j, "status") {
        None => {
            return Err("missing status".to_owned());
        },
        Some(t) => t.clone(),
    };
    if !same(status.as_str(), "active") && !same(status.as_str(), "locked") && !same(
        status.as_str(),
        "noise",
    ) {
        return Err("status must be active, locked or noise".to_owned());
    }
    let locked_event = match get_text(j, "locked_event") {
        Some(t) => Some(t.clone()),
        None => None,
    };
    Ok(StatusRequest { pick_id, status, locked_event })
}

/// Reads what change of status a body asks for.
pub fn read_status_change(body: &str) -> (r: Result<StatusRequest, String>)
    ensures
        match json_parse(body@) {
            Ok(v) => status_asked(v, r),
            Err(e) => r matches Err(m) && m@ == e,
        },
{
    match parse_json(body) {
        Ok(j) => decode_status(&j),
        Err(m) => Err(m),
    }
}

/// A request to solve.
#[derive(Debug, Clone)]
pub struct SolveRequest {
    pub clock_version: String,
    pub rationale: String,
    pub scope: Vec<String>,
}

/// What a body asks to solve. What is not text in the scope is passed over.
pub open spec fn solve_asked(v: JsonView, q: SolveRequest) -> bool {
    &&& q.clock_version@ == text_or(text_field(v, "clock_version"@), "clock-v1"@)
    &&& q.rationale@ == text_or(text_field(v, "rationale"@), "user_requested_recompute"@)
    &&& views(q.scope@) == text_list(v, "scope"@)
}

/// What a body asks to solve.
pub fn decode_solve(j: &Json) -> (r: SolveRequest)
    ensures
        solve_asked(j@, r),
{
    SolveRequest {
        clock_version: field_or(j, "clock_version", "clock-v1"),
        rationale: field_or(j, "rationale", "user_requested_recompute"),
        scope: get_texts(j, "scope"),
    }
}

/// Reads what a body asks to solve.
pub fn read_solve(body: &str) -> (r: Result<SolveRequest, String>)
    ensures
        match json_parse(body@) {
            Ok(v) => r matches Ok(q) && solve_asked(v, q),
            Err(e) => r matches Err(m) && m@ == e,
        },
{
    match parse_json(body) {
        Ok(j) => Ok(decode_solve(&j)),
        Err(m) => Err(m),
    }
}

/// A request to freeze a candidate, or to set a hypothesis beside another: an
/// id and a label.
#[derive(Debug, Clone)]
pub struct LabelRequest {
    pub id: String,
    pub label: String,
}

/// What a body asks to freeze.
pub open spec fn freeze_asked(v: JsonView, r: Result<LabelRequest, String>) -> bool {
    match text_field(v, "candidate_id"@) {
        None => r matches Err(m) && m@ == "missing candidate_id"@,
        Some(id) => r matches Ok(q) && q.id@ == id && q.label@ == text_or(
            text_field(v, "label"@),
            "frozen"@,
        ),
    }
}

/// What a body asks to freeze.
pub fn decode_freeze(j: &Json) -> (r: Result<LabelRequest, String>)
    ensures
        freeze_asked(j@, r),
{
    match get_text(j, "candidate_id") {
        None => Err("missing candidate_id".to_owned()),
        Some(id) => Ok(LabelRequest { id: id.clone(), label: field_or(j, "label", "frozen") }),
    }
}

/// Reads what a body asks to freeze.
pub fn read_freeze(body: &str) -> (r: Result<LabelRequest, String>)
    ensures
        match json_parse(body@) {
            Ok(v) => freeze_asked(v, r),
            Err(e) => r matches Err(m) && m@ == e,
        },
{
    match parse_json(body) {
        Ok(j) => decode_freeze(&j),
        Err(m) => Err(m),
    }
}

/// What hypothesis a body asks to set beside another.
pub open spec fn duplicate_asked(v: JsonView, r: Result<LabelRequest, String>) -> bool {
    match text_field(v, "hypothesis_id"@) {
        None => r matches Err(m) && m@ == "missing hypothesis_id"@,
        Some(id) => r matches Ok(q) && q.id@ == id && q.label@ == text_or(
            text_field(v, "label"@),
            "parallel"@,
        ),
    }
}

/// What hypothesis a body asks to set beside another.
pub fn decode_duplicate(j: &Json) -> (r: Result<LabelRequest, String>)
    ensures
        duplicate_asked(j@, r),
{
    match get_text(j, "hypothesis_id") {
        None => Err("missing hypothesis_id".to_owned()),
        Some(id) => Ok(LabelRequest { id: id.clone(), label: field_or(j, "label", "parallel") }),
    }
}

/// Reads what hypothesis a body asks to set beside another.
pub fn read_duplicate(body: &str) -> (r: Result<LabelRequest, String>)
    ensures
        match json_parse(body@) {
            Ok(v) => duplicate_asked(v, r),
            Err(e) => r matches Err(m) && m@ == e,
        },
{
    match parse_json(body) {
        Ok(j) => decode_duplicate(&j),
        Err(m) => Err(m),
    }
}

/// A request to compute a hypothesis again. Without a clock version it keeps
/// its own.
#[derive(Debug, Clone)]
pub struct RecomputeRequest {
    pub hypothesis_id: String,
    pub clock_version: Option<String>,
}

/// What hypothesis a body asks to compute again.
pub open spec fn recompute_asked(v: JsonView, r: Result<RecomputeRequest, String>) -> bool {
    match text_field(v, "hypothesis_id"@) {
        None => r matches Err(m) && m@ == "missing hypothesis_id"@,
        Some(id) => r matches Ok(q) && q.hypothesis_id@ == id && crate::store::optional(
            q.clock_version,
        ) == text_field(v, "clock_version"@),
    }
}

/// What hypothesis a body asks to compute again.
pub fn decode_recompute(j: &Json) -> (r: Result<RecomputeRequest, String>)
    ensures
        recompute_asked(j@, r),
{
    match get_text(j, "hypothesis_id") {
        None => Err("missing hypothesis_id".to_owned()),
        Some(id) => {
            let clock_version = match get_text(j, "clock_version") {
                Some(t) => Some(t.clone()),
                None => None,
            };
            Ok(RecomputeRequest { hypothesis_id: id.clone(), clock_version })
        },
    }
}

/// Reads what hypothesis a body asks to compute again.
pub fn read_recompute(body: &str) -> (r: Result<RecomputeRequest, String>)
    ensures
        match json_parse(body@) {
            Ok(v) => recompute_asked(v, r),
            Err(e) => r matches Err(m) && m@ == e,
        },
{
    match parse_json(body) {
        Ok(j) => decode_recompute(&j),
        Err(m) => Err(m),
    }
}

/// The answer that something was done.
pub open spec fn done() -> JsonView {
    object_of(seq![("ok"@, JsonView::Bool(true))])
}

/// The answer that something was done.
pub fn done_reply() -> (r: Json)
    ensures
        r@ == done(),
        tidy(r@),
{
    let mut f: Vec<(String, Json)> = Vec::new();
    f.push(("ok".to_owned(), Json::Bool(true)));
    assert(entries(f@) =~= seq![("ok"@, JsonView::Bool(true))]);
    object(f)
}

/// An answer of one text.
pub fn text_reply(name: &str, text: &str) -> (r: Json)
    ensures
        r@ == object_of(seq![said(name@, text@)]),
        tidy(r@),
{
    let mut f: Vec<(String, Json)> = Vec::new();
    f.push((name.to_owned(), Json::Text(text.to_owned())));
    assert(entries(f@) =~= seq![said(name@, text@)]);
    object(f)
}

/// The answer to a request to compute a hypothesis again.
pub fn recompute_reply(run_id: &str, candidate_id: &str) -> (r: Json)
    ensures
        r@ == object_of(
            seq![said("run_id"@, run_id@), said("candidate_id"@, candidate_id@)],
        ),
        tidy(r@),
{
    let mut f: Vec<(String, Json)> = Vec::new();
    f.push(("run_id".to_owned(), Json::Text(run_id.to_owned())));
    f.push(("candidate_id".to_owned(), Json::Text(candidate_id.to_owned())));
    assert(entries(f@) =~= seq![said("run_id"@, run_id@), said("candidate_id"@, candidate_id@)]);
    object(f)
}

/// What is answered to an import.
pub open spec fn outcome_view(o: ImportOutcome) -> JsonView {
    object_of(
        seq![
            said("batch_id"@, o.batch_id@),
            said("content_hash"@, o.content_hash@),
            ("duplicated"@, JsonView::Bool(o.duplicated)),
            ("records"@, JsonView::Number(decimal(o.records as nat))),
        ],
    )
}

/// The answer to an import.
pub fn import_reply(o: &ImportOutcome) -> (r: Json)
    ensures
        r@ == outcome_view(*o),
        tidy(r@),
{
    let mut f: Vec<(String, Json)> = Vec::new();
    f.push(("batch_id".to_owned(), Json::Text(o.batch_id.clone())));
    f.push(("content_hash".to_owned(), Json::Text(o.content_hash.clone())));
    f.push(("duplicated".to_owned(), Json::Bool(o.duplicated)));
    f.push(("records".to_owned(), Json::Number(decimal_text(o.records as u64))));
    assert(entries(f@) =~= seq![
        said("batch_id"@, o.batch_id@),
        said("content_hash"@, o.content_hash@),
        ("duplicated"@, JsonView::Bool(o.duplicated)),
        ("records"@, JsonView::Number(decimal(o.records as nat))),
    ]);
    object(f)
}

/// The events that the first run of a store is for.
pub fn initial_scope() -> (r: Vec<String>)
    ensures
        views(r@) == seq!["event-001"@, "event-002"@, "event-003"@],
{
    let mut r: Vec<String> = Vec::new();
    r.push("event-001".to_owned());
    r.push("event-002".to_owned());
    r.push("event-003".to_owned());
    assert(views(r@) =~= seq!["event-001"@, "event-002"@, "event-003"@]);
    r
}

} // verus!

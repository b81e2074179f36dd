//! What the store keeps: the ids of batches, runs, hypotheses and log entries,
//! which are made from their contents, and the rows of candidates.
use vstd::prelude::*;

use crate::digest::{content_id, hash_text, stable_id, text_hash};
use crate::json::{
    array_of_texts, entries, field, get, get_bool, get_text, json_text, object, object_of,
    render_json, text_array, text_field, tidy, written, Json, JsonView,
};
use crate::network_records::{normal, normalize_lines, NetworkRecord};
use crate::text::{concat2, concat3, lines_of, member, same, views};

verus! {

/// What came of an import.
#[derive(Debug)]
pub struct ImportOutcome {
    pub batch_id: String,
    pub content_hash: String,
    pub duplicated: bool,
    pub records: usize,
}

/// An input in its canonical form, and the hash that it is known by.
#[derive(Debug, Clone)]
pub struct ImportPlan {
    pub canonical: String,
    pub content_hash: String,
}

/// An input in its canonical form, and its hash.
pub open spec fn import_planned(content: Seq<char>, r: ImportPlan) -> bool {
    r.canonical@ == normal(lines_of(content)) && r.content_hash@ == text_hash(r.canonical@)
}

/// Brings an input into its canonical form.
pub fn plan_import(content: &str) -> (r: ImportPlan)
    ensures
        import_planned(content@, r),
{
    let canonical = normalize_lines(content);
    let content_hash = hash_text(canonical.as_str());
    ImportPlan { canonical, content_hash }
}

/// A batch that is in the store.
#[derive(Debug, Clone)]
pub struct KnownBatch {
    pub batch_id: String,
    pub records: usize,
}

/// What comes of importing what is in the store: its batch, and nothing new.
pub fn repeat_import(plan: ImportPlan, known: KnownBatch) -> (r: ImportOutcome)
    ensures
        r.batch_id@ == known.batch_id@,
        r.content_hash@ == plan.content_hash@,
        r.duplicated,
        r.records == known.records,
{
    ImportOutcome {
        batch_id: known.batch_id,
        content_hash: plan.content_hash,
        duplicated: true,
        records: known.records,
    }
}

/// An entry of the log.
#[derive(Debug, Clone)]
pub struct LogEntry {
    pub log_id: String,
    pub action: String,
    pub detail: String,
}

/// The id of a batch.
pub open spec fn batch_id(source: Seq<char>, hash: Seq<char>) -> Seq<char> {
    content_id("import"@, source + ":"@ + hash)
}

/// A field that holds a text.
pub open spec fn said(name: Seq<char>, text: Seq<char>) -> (Seq<char>, JsonView) {
    (name, JsonView::Text(text))
}

/// What the log says of a batch.
pub open spec fn batch_detail(id: Seq<char>, hash: Seq<char>) -> JsonView {
    object_of(
        seq![
            said("batch_id"@, id),
            said("hash"@, hash),
            ("duplicated"@, JsonView::Bool(false)),
        ],
    )
}

/// A field that holds a text.
fn say(name: &str, text: &str) -> (r: (String, Json))
    ensures
        (r.0@, r.1@) == said(name@, text@),
        tidy(r.1@),
{
    (name.to_owned(), Json::Text(text.to_owned()))
}

/// A new batch: its outcome and its entry in the log.
pub fn new_import(plan: ImportPlan, source_name: &str, records: usize) -> (r: (
    ImportOutcome,
    LogEntry,
))
    ensures
        r.0.batch_id@ == batch_id(source_name@, plan.content_hash@),
        r.0.content_hash@ == plan.content_hash@,
        !r.0.duplicated,
        r.0.records == records,
        r.1.log_id@ == content_id("log:"@ + r.0.batch_id@, plan.content_hash@),
        r.1.action@ == "import_batch"@,
        r.1.detail@ == json_text(written(batch_detail(r.0.batch_id@, plan.content_hash@))),
{
    let hash = plan.content_hash;
    let id = stable_id("import", concat3(source_name, ":", hash.as_str()).as_str());
    let log_id = stable_id(concat2("log:", id.as_str()).as_str(), hash.as_str());
    let mut f: Vec<(String, Json)> = Vec::new();
    f.push(say("batch_id", id.as_str()));
    f.push(say("hash", hash.as_str()));
    f.push(("duplicated".to_owned(), Json::Bool(false)));
    assert(entries(f@) =~= seq![
        said("batch_id"@, id@),
        said("hash"@, hash@),
        ("duplicated"@, JsonView::Bool(false)),
    ]);
    let detail = render_json(&object(f));
    (
        ImportOutcome { batch_id: id, content_hash: hash, duplicated: false, records },
        LogEntry { log_id, action: "import_batch".to_owned(), detail },
    )
}

/// What a store keeps of its batches: the id and the number of records of the
/// batch of each content, by the hash of the content.
pub type Ledger = Map<Seq<char>, (Seq<char>, int)>;

/// What a store keeps of a batch.
pub open spec fn kept_batch(known: KnownBatch) -> (Seq<char>, int) {
    (known.batch_id@, known.records as int)
}

/// Whether a batch is what a store has for a hash.
pub open spec fn known_in(ledger: Ledger, hash: Seq<char>, known: Option<KnownBatch>) -> bool {
    match known {
        Some(k) => ledger.contains_key(hash) && ledger[hash] == kept_batch(k),
        None => !ledger.contains_key(hash),
    }
}

/// What a store holds: its batches, their records, and the log.
pub struct StoreView {
    pub batches: Ledger,
    pub records: Seq<NetworkRecord>,
    pub log: Seq<LogEntry>,
}

/// What a store holds after an import. A content that it had adds nothing.
pub open spec fn stored_after(
    s: StoreView,
    o: ImportOutcome,
    records: Seq<NetworkRecord>,
    log: Option<LogEntry>,
) -> StoreView {
    match log {
        Some(entry) => StoreView {
            batches: s.batches.insert(o.content_hash@, (o.batch_id@, o.records as int)),
            records: s.records + records,
            log: s.log.push(entry),
        },
        None => s,
    }
}

/// What comes of importing the content with a hash from a source into a store.
/// Only a content that the store does not have makes a batch and an entry in
/// the log.
pub open spec fn imported(
    ledger: Ledger,
    hash: Seq<char>,
    source: Seq<char>,
    records: int,
    o: ImportOutcome,
    log: Option<LogEntry>,
) -> bool {
    &&& o.content_hash@ == hash
    &&& o.duplicated == ledger.contains_key(hash)
    &&& if ledger.contains_key(hash) {
        (o.batch_id@, o.records as int) == ledger[hash] && log is None
    } else {
        &&& o.batch_id@ == batch_id(source, hash)
        &&& o.records == records
        &&& match log {
            Some(entry) => {
                &&& entry.log_id@ == content_id("log:"@ + o.batch_id@, hash)
                &&& entry.action@ == "import_batch"@
                &&& entry.detail@ == json_text(written(batch_detail(o.batch_id@, hash)))
            },
            None => false,
        }
    }
}

/// Settles an import, given the batch that the store has for the hash of its
/// content, and the number of its records.
pub fn settle_import(
    plan: ImportPlan,
    known: Option<KnownBatch>,
    source_name: &str,
    records: usize,
) -> (r: (ImportOutcome, Option<LogEntry>))
    ensures
        forall|ledger: Ledger| #[trigger]
            known_in(ledger, plan.content_hash@, known) ==> imported(
                ledger,
                plan.content_hash@,
                source_name@,
                records as int,
                r.0,
                r.1,
            ),
        r.0.content_hash@ == plan.content_hash@,
        r.0.duplicated == known is Some,
{
    match known {
        Some(k) => (repeat_import(plan, k), None),
        None => {
            let (outcome, log) = new_import(plan, source_name, records);
            (outcome, Some(log))
        },
    }
}

/// Importing a content again, from any source, gives the batch of the first
/// import, and the store stays as it was.
pub proof fn repeated_imports_change_nothing(
    s: StoreView,
    content: Seq<char>,
    first_plan: ImportPlan,
    first_source: Seq<char>,
    first_records: Seq<NetworkRecord>,
    first: ImportOutcome,
    first_log: Option<LogEntry>,
    second_plan: ImportPlan,
    second_source: Seq<char>,
    second_records: Seq<NetworkRecord>,
    second: ImportOutcome,
    second_log: Option<LogEntry>,
)
    requires
        import_planned(content, first_plan),
        import_planned(content, second_plan),
        imported(
            s.batches,
            first_plan.content_hash@,
            first_source,
            first_records.len() as int,
            first,
            first_log,
        ),
        imported(
            stored_after(s, first, first_records, first_log).batches,
            second_plan.content_hash@,
            second_source,
            second_records.len() as int,
            second,
            second_log,
        ),
    ensures
        first.duplicated == s.batches.contains_key(first.content_hash@),
        second.duplicated,
        second.batch_id@ == first.batch_id@,
        second.content_hash@ == first.content_hash@,
        second.records == first.records,
        ({
            let after = stored_after(s, first, first_records, first_log);
            stored_after(after, second, second_records, second_log) == after
        }),
{
}

/// The id of an entry of the log depends on its action and its detail alone.
pub fn log_action(action: &str, detail: &Json) -> (r: LogEntry)
    requires
        tidy(detail@),
    ensures
        r.detail@ == json_text(written(detail@)),
        r.action@ == action@,
        r.log_id@ == content_id(action@, r.detail@),
{
    let text = render_json(detail);
    LogEntry {
        log_id: stable_id(action, text.as_str()),
        action: action.to_owned(),
        detail: text,
    }
}

/// A text or nothing.
pub open spec fn maybe_text(t: Option<String>) -> JsonView {
    match t {
        Some(s) => JsonView::Text(s@),
        None => JsonView::Null,
    }
}

/// A text or nothing.
fn maybe(t: &Option<String>) -> (r: Json)
    ensures
        r@ == maybe_text(*t),
        tidy(r@),
{
    match t {
        Some(s) => Json::Text(s.clone()),
        None => Json::Null,
    }
}

/// What the log says of a change of a pick's status.
pub open spec fn status_detail(
    pick_id: Seq<char>,
    status: Seq<char>,
    locked_event: Option<String>,
    actor: Seq<char>,
) -> JsonView {
    object_of(
        seq![
            said("pick_id"@, pick_id),
            said("status"@, status),
            ("locked_event"@, maybe_text(locked_event)),
            said("actor"@, actor),
        ],
    )
}

/// Logs a change of a pick's status.
pub fn log_pick_status(
    pick_id: &str,
    status: &str,
    locked_event: &Option<String>,
    actor: &str,
) -> (r: LogEntry)
    ensures
        r.detail@ == json_text(written(status_detail(pick_id@, status@, *locked_event, actor@))),
        r.action@ == "pick_status"@,
        r.log_id@ == content_id("pick-status"@, r.detail@),
{
    let mut f: Vec<(String, Json)> = Vec::new();
    f.push(say("pick_id", pick_id));
    f.push(say("status", status));
    f.push(("locked_event".to_owned(), maybe(locked_event)));
    f.push(say("actor", actor));
    assert(entries(f@) =~= seq![
        said("pick_id"@, pick_id@),
        said("status"@, status@),
        ("locked_event"@, maybe_text(*locked_event)),
        said("actor"@, actor@),
    ]);
    let detail = render_json(&object(f));
    LogEntry {
        log_id: stable_id("pick-status", detail.as_str()),
        action: "pick_status".to_owned(),
        detail,
    }
}

/// Whether a pick's status was changed: not where no pick has the id.
pub fn settle_pick_status(pick_id: &str, changed: usize) -> (r: Result<(), String>)
    ensures
        match r {
            Ok(()) => changed > 0,
            Err(m) => changed == 0 && m@ == "unknown pick "@ + pick_id@,
        },
{
    if changed == 0 {
        Err(concat2("unknown pick ", pick_id))
    } else {
        Ok(())
    }
}

/// What a run is known by.
pub open spec fn run_identity(
    clock_version: Seq<char>,
    scope: Seq<Seq<char>>,
    rationale: Seq<char>,
    candidates: JsonView,
) -> JsonView {
    object_of(
        seq![
            said("clock_version"@, clock_version),
            said("scope"@, json_text(written(text_array(scope)))),
            said("rationale"@, rationale),
            ("candidates"@, candidates),
        ],
    )
}

/// What the log says of a run.
pub open spec fn run_detail(
    run_id: Seq<char>,
    clock_version: Seq<char>,
    scope: Seq<Seq<char>>,
) -> JsonView {
    object_of(
        seq![
            said("run_id"@, run_id),
            said("clock_version"@, clock_version),
            ("scope"@, text_array(scope)),
        ],
    )
}

/// A run: its id, its scope as text, and its entry in the log.
#[derive(Debug, Clone)]
pub struct RunPlan {
    pub run_id: String,
    pub scope_json: String,
    pub log: LogEntry,
}

/// A run that is planned for a clock version, a scope, a rationale and
/// candidates.
pub open spec fn run_planned(
    clock_version: Seq<char>,
    scope: Seq<Seq<char>>,
    rationale: Seq<char>,
    candidates: JsonView,
    r: RunPlan,
) -> bool {
    &&& r.scope_json@ == json_text(written(text_array(scope)))
    &&& r.run_id@ == content_id(
        "run"@,
        json_text(written(run_identity(clock_version, scope, rationale, candidates))),
    )
    &&& r.log.log_id@ == content_id("log-run"@, r.run_id@)
    &&& r.log.action@ == "solver_run"@
    &&& r.log.detail@ == json_text(written(run_detail(r.run_id@, clock_version, scope)))
}

/// Plans the saving of a run. The same version, scope, rationale and
/// candidates always have the same id.
pub fn plan_run(
    clock_version: &str,
    scope: &Vec<String>,
    rationale: &str,
    candidates: Json,
) -> (r: RunPlan)
    requires
        tidy(candidates@),
    ensures
        run_planned(clock_version@, views(scope@), rationale@, candidates@, r),
{
    let scope_json = render_json(&array_of_texts(scope));
    let ghost given = candidates@;
    let mut f: Vec<(String, Json)> = Vec::new();
    f.push(say("clock_version", clock_version));
    f.push(say("scope", scope_json.as_str()));
    f.push(say("rationale", rationale));
    f.push(("candidates".to_owned(), candidates));
    assert(entries(f@) =~= seq![
        said("clock_version"@, clock_version@),
        said("scope"@, scope_json@),
        said("rationale"@, rationale@),
        ("candidates"@, given),
    ]);
    let identity = render_json(&object(f));
    let run_id = stable_id("run", identity.as_str());
    let mut g: Vec<(String, Json)> = Vec::new();
    g.push(say("run_id", run_id.as_str()));
    g.push(say("clock_version", clock_version));
    g.push(("scope".to_owned(), array_of_texts(scope)));
    assert(entries(g@) =~= seq![
        said("run_id"@, run_id@),
        said("clock_version"@, clock_version@),
        ("scope"@, text_array(views(scope@))),
    ]);
    let detail = render_json(&object(g));
    let log_id = stable_id("log-run", run_id.as_str());
    RunPlan {
        run_id,
        scope_json,
        log: LogEntry { log_id, action: "solver_run".to_owned(), detail },
    }
}

/// Two plans of a run for the same version, scope, rationale and candidates
/// have the same id, the same scope and the same entry in the log.
pub proof fn equal_runs_have_one_id(
    clock_version: Seq<char>,
    scope: Seq<Seq<char>>,
    rationale: Seq<char>,
    candidates: JsonView,
    a: RunPlan,
    b: RunPlan,
)
    requires
        run_planned(clock_version, scope, rationale, candidates, a),
        run_planned(clock_version, scope, rationale, candidates, b),
    ensures
        a.run_id@ == b.run_id@,
        a.scope_json@ == b.scope_json@,
        a.log.log_id@ == b.log.log_id@,
        a.log.action@ == b.log.action@,
        a.log.detail@ == b.log.detail@,
{
}

/// The id of a frozen hypothesis.
pub open spec fn frozen_id(candidate_id: Seq<char>, label: Seq<char>) -> Seq<char> {
    content_id("hypothesis"@, candidate_id + ":"@ + label)
}

/// What the log says of a frozen hypothesis.
pub open spec fn freeze_detail(
    hypothesis_id: Seq<char>,
    candidate_id: Seq<char>,
    event_key: Seq<char>,
    label: Seq<char>,
    actor: Seq<char>,
) -> JsonView {
    object_of(
        seq![
            said("hypothesis_id"@, hypothesis_id),
            said("candidate_id"@, candidate_id),
            said("event_key"@, event_key),
            said("label"@, label),
            said("actor"@, actor),
        ],
    )
}

/// Plans the freezing of a candidate: the id of the hypothesis, and its entry
/// in the log.
pub fn plan_freeze(candidate_id: &str, event_key: &str, label: &str, actor: &str) -> (r: (
    String,
    LogEntry,
))
    ensures
        r.0@ == frozen_id(candidate_id@, label@),
        r.1.log_id@ == content_id("freeze"@, r.0@),
        r.1.action@ == "freeze_candidate"@,
        r.1.detail@ == json_text(
            written(freeze_detail(r.0@, candidate_id@, event_key@, label@, actor@)),
        ),
{
    let id = stable_id("hypothesis", concat3(candidate_id, ":", label).as_str());
    let mut f: Vec<(String, Json)> = Vec::new();
    f.push(say("hypothesis_id", id.as_str()));
    f.push(say("candidate_id", candidate_id));
    f.push(say("event_key", event_key));
    f.push(say("label", label));
    f.push(say("actor", actor));
    assert(entries(f@) =~= seq![
        said("hypothesis_id"@, id@),
        said("candidate_id"@, candidate_id@),
        said("event_key"@, event_key@),
        said("label"@, label@),
        said("actor"@, actor@),
    ]);
    let detail = render_json(&object(f));
    let log_id = stable_id("freeze", id.as_str());
    (id, LogEntry { log_id, action: "freeze_candidate".to_owned(), detail })
}

/// The id of a hypothesis that was made from another.
pub open spec fn duplicate_id(hypothesis_id: Seq<char>, label: Seq<char>) -> Seq<char> {
    content_id("hypothesis-duplicate"@, hypothesis_id + ":"@ + label)
}

/// What the log says of a hypothesis that was made from another.
pub open spec fn duplicate_detail(
    new_id: Seq<char>,
    parent_id: Seq<char>,
    actor: Seq<char>,
) -> JsonView {
    object_of(
        seq![
            said("new_hypothesis_id"@, new_id),
            said("parent_hypothesis_id"@, parent_id),
            said("actor"@, actor),
        ],
    )
}

/// Plans a hypothesis beside another: its id, and its entry in the log.
pub fn plan_duplicate(hypothesis_id: &str, label: &str, actor: &str) -> (r: (String, LogEntry))
    ensures
        r.0@ == duplicate_id(hypothesis_id@, label@),
        r.1.action@ == "duplicate_hypothesis"@,
        r.1.detail@ == json_text(written(duplicate_detail(r.0@, hypothesis_id@, actor@))),
        r.1.log_id@ == content_id("duplicate_hypothesis"@, r.1.detail@),
{
    let id = stable_id("hypothesis-duplicate", concat3(hypothesis_id, ":", label).as_str());
    let mut f: Vec<(String, Json)> = Vec::new();
    f.push(say("new_hypothesis_id", id.as_str()));
    f.push(say("parent_hypothesis_id", hypothesis_id));
    f.push(say("actor", actor));
    assert(entries(f@) =~= seq![
        said("new_hypothesis_id"@, id@),
        said("parent_hypothesis_id"@, hypothesis_id@),
        said("actor"@, actor@),
    ]);
    let log = log_action("duplicate_hypothesis", &object(f));
    (id, log)
}

/// What the log says of a hypothesis that was computed again.
pub open spec fn recompute_detail(
    hypothesis_id: Seq<char>,
    run_id: Seq<char>,
    candidate_id: Seq<char>,
    clock_version: Seq<char>,
) -> JsonView {
    object_of(
        seq![
            said("hypothesis_id"@, hypothesis_id),
            said("run_id"@, run_id),
            said("candidate_id"@, candidate_id),
            said("clock_version"@, clock_version),
        ],
    )
}

/// Logs that a hypothesis was computed again.
pub fn log_recompute(
    hypothesis_id: &str,
    run_id: &str,
    candidate_id: &str,
    clock_version: &str,
) -> (r: LogEntry)
    ensures
        r.action@ == "recompute_hypothesis"@,
        r.detail@ == json_text(
            written(recompute_detail(hypothesis_id@, run_id@, candidate_id@, clock_version@)),
        ),
        r.log_id@ == content_id("recompute_hypothesis"@, r.detail@),
{
    let mut f: Vec<(String, Json)> = Vec::new();
    f.push(say("hypothesis_id", hypothesis_id));
    f.push(say("run_id", run_id));
    f.push(say("candidate_id", candidate_id));
    f.push(say("clock_version", clock_version));
    assert(entries(f@) =~= seq![
        said("hypothesis_id"@, hypothesis_id@),
        said("run_id"@, run_id@),
        said("candidate_id"@, candidate_id@),
        said("clock_version"@, clock_version@),
    ]);
    log_action("recompute_hypothesis", &object(f))
}

/// A number of a field as a 64-bit integer, where it is one.
pub open spec fn int_field(v: JsonView, name: Seq<char>) -> Option<int> {
    match field(v, name) {
        Some(JsonView::Number(t)) => crate::decimal::integer(t),
        _ => None,
    }
}

/// The text of a number in a field, where it is a number.
pub open spec fn number_field(v: JsonView, name: Seq<char>) -> Option<Seq<char>> {
    match field(v, name) {
        Some(JsonView::Number(t)) => Some(t),
        _ => None,
    }
}

/// A number of a field as a 64-bit integer, where it is one.
fn get_int(j: &Json, name: &str) -> (r: Option<i64>)
    ensures
        match r {
            Some(n) => int_field(j@, name@) == Some(n as int),
            None => int_field(j@, name@) is None,
        },
{
    match get(j, name) {
        Some(Json::Number(t)) => crate::decimal::parse_i64(t.as_str()),
        _ => None,
    }
}

/// The text of a number in a field, where it is a number.
fn get_number(j: &Json, name: &str) -> (r: Option<String>)
    ensures
        match r {
            Some(t) => number_field(j@, name@) == Some(t@),
            None => number_field(j@, name@) is None,
        },
{
    match get(j, name) {
        Some(Json::Number(t)) => Some(t.clone()),
        _ => None,
    }
}

/// A candidate as a row of the store. A score that is no number is left out.
#[derive(Debug, Clone)]
pub struct CandidateRow {
    pub candidate_id: String,
    pub event_key: String,
    pub rank: i64,
    pub score: Option<String>,
    pub status: String,
    pub solution_json: String,
}

/// What a candidate lacks for a row, if anything.
pub open spec fn row_error(v: JsonView) -> Option<Seq<char>> {
    if text_field(v, "candidate_id"@) is None {
        Some("candidate missing candidate_id"@)
    } else if text_field(v, "event_key"@) is None {
        Some("candidate missing event_key"@)
    } else if int_field(v, "rank"@) is None {
        Some("candidate missing rank"@)
    } else {
        None
    }
}

/// The row of a candidate.
pub open spec fn row_of(v: JsonView, r: CandidateRow) -> bool {
    &&& text_field(v, "candidate_id"@) == Some(r.candidate_id@)
    &&& text_field(v, "event_key"@) == Some(r.event_key@)
    &&& int_field(v, "rank"@) == Some(r.rank as int)
    &&& match r.score {
        Some(t) => number_field(v, "score"@) == Some(t@),
        None => number_field(v, "score"@) is None,
    }
    &&& r.status@ == match text_field(v, "status"@) {
        Some(s) => s,
        None => "underdetermined"@,
    }
    &&& r.solution_json@ == json_text(written(v))
}

/// The row of a candidate, or what it lacks.
pub fn candidate_row(j: &Json) -> (r: Result<CandidateRow, String>)
    requires
        tidy(j@),
    ensures
        match r {
            Ok(row) => row_error(j@) is None && row_of(j@, row),
            Err(m) => row_error(j@) == Some(m@),
        },
{
    let candidate_id = match get_text(j, "candidate_id") {
        Some(t) => t.clone(),
        None => {
            return Err("candidate missing candidate_id".to_owned());
        },
    };
    let event_key = match get_text(j, "event_key") {
        Some(t) => t.clone(),
        None => {
            return Err("candidate missing event_key".to_owned());
        },
    };
    let rank: i64 = match get_int(j, "rank") {
        Some(n) => n,
        None => {
            return Err("candidate missing rank".to_owned());
        },
    };
    let status = match get_text(j, "status") {
        Some(t) => t.clone(),
        None => "underdetermined".to_owned(),
    };
    Ok(
        CandidateRow {
            candidate_id,
            event_key,
            rank,
            score: get_number(j, "score"),
            status,
            solution_json: render_json(j),
        },
    )
}

/// An arrival of a candidate as a row of the store. Numbers that are not there
/// are left out.
#[derive(Debug, Clone)]
pub struct PickRow {
    pub pick_id: String,
    pub accepted: bool,
    pub locked: bool,
    pub residual_seconds: Option<String>,
    pub contribution: Option<String>,
    pub reason: Option<String>,
}

/// A text or none.
pub open spec fn optional(t: Option<String>) -> Option<Seq<char>> {
    match t {
        Some(s) => Some(s@),
        None => None,
    }
}

/// The row of an arrival.
pub open spec fn pick_row_of(v: JsonView, accepted: bool, r: PickRow) -> bool {
    &&& r.pick_id@ == match text_field(v, "pick_id"@) {
        Some(t) => t,
        None => "unknown"@,
    }
    &&& r.accepted == accepted
    &&& r.locked == match crate::json::as_bool(field(v, "locked"@)) {
        Some(b) => b,
        None => false,
    }
    &&& optional(r.residual_seconds) == number_field(v, "residual_seconds"@)
    &&& optional(r.contribution) == number_field(v, "contribution"@)
    &&& optional(r.reason) == text_field(v, "reason"@)
}

/// The row of an arrival.
pub fn candidate_pick_row(j: &Json, accepted: bool) -> (r: PickRow)
    ensures
        pick_row_of(j@, accepted, r),
{
    let pick_id = match get_text(j, "pick_id") {
        Some(t) => t.clone(),
        None => "unknown".to_owned(),
    };
    let locked = match get_bool(j, "locked") {
        Some(b) => b,
        None => false,
    };
    let reason = match get_text(j, "reason") {
        Some(t) => Some(t.clone()),
        None => None,
    };
    PickRow {
        pick_id,
        accepted,
        locked,
        residual_seconds: get_number(j, "residual_seconds"),
        contribution: get_number(j, "contribution"),
        reason,
    }
}

/// Whether a candidate is the best of an event.
pub open spec fn leads(v: JsonView, event_key: Seq<char>) -> bool {
    text_field(v, "event_key"@) == Some(event_key) && int_field(v, "rank"@) == Some(1int)
}

/// The best candidate of an event among the first `n`.
pub open spec fn leader(all: Seq<Json>, event_key: Seq<char>, n: int) -> Option<JsonView>
    decreases n,
{
    if n <= 0 {
        None
    } else {
        match leader(all, event_key, n - 1) {
            Some(v) => Some(v),
            None => if leads(all[n - 1]@, event_key) {
                Some(all[n - 1]@)
            } else {
                None
            },
        }
    }
}

/// Whether a candidate is the best of an event.
fn is_leader(j: &Json, event_key: &str) -> (r: bool)
    ensures
        r == leads(j@, event_key@),
{
    let right = match get_text(j, "event_key") {
        Some(t) => same(t.as_str(), event_key),
        None => false,
    };
    let first = match get_int(j, "rank") {
        Some(n) => n == 1,
        None => false,
    };
    right && first
}

/// The id of the best candidate of an event among those of a run.
pub fn recomputed_candidate(solutions: &Vec<Json>, event_key: &str) -> (r: Result<String, String>)
    ensures
        match leader(solutions@, event_key@, solutions@.len() as int) {
            None => r matches Err(m) && m@ == "recomputed event candidate missing"@,
            Some(v) => match text_field(v, "candidate_id"@) {
                Some(id) => r matches Ok(t) && t@ == id,
                None => r matches Err(m) && m@ == "candidate missing candidate_id"@,
            },
        },
{
    let mut i: usize = 0;
    while i < solutions.len()
        invariant
            i <= solutions@.len(),
            leader(solutions@, event_key@, i as int) is None,
        decreases solutions@.len() - i,
    {
        let j = &solutions[i];
        if is_leader(j, event_key) {
            proof {
                leader_stays(solutions@, event_key@, i + 1);
            }
            return match get_text(j, "candidate_id") {
                Some(t) => Ok(t.clone()),
                None => Err("candidate missing candidate_id".to_owned()),
            };
        }
        i += 1;
    }
    Err("recomputed event candidate missing".to_owned())
}

/// The first of the best stays the first.
proof fn leader_stays(all: Seq<Json>, event_key: Seq<char>, n: int)
    requires
        0 <= n <= all.len(),
        leader(all, event_key, n) is Some,
    ensures
        leader(all, event_key, all.len() as int) == leader(all, event_key, n),
    decreases all.len() - n,
{
    if n < all.len() {
        leader_stays(all, event_key, n + 1);
    }
}

/// Whether an event is in a scope. An empty scope holds all events.
pub open spec fn scoped(scope: Seq<Seq<char>>, event_key: Seq<char>) -> bool {
    scope.len() == 0 || scope.contains(event_key)
}

/// Whether an event is in a scope.
pub fn in_scope(scope: &Vec<String>, event_key: &str) -> (r: bool)
    ensures
        r == scoped(views(scope@), event_key@),
{
    assert(views(scope@).len() == scope@.len());
    scope.len() == 0 || member(scope, event_key)
}

} // verus!

//! The interface of the window solver: where a request goes, what it asks the
//! store to do, and what it is answered.
use vstd::prelude::*;

use crate::decimal::{integer, parse_i64};
use crate::http::{query_field, query_value, response_text, write_response, Request};
use crate::json::{
    as_bool, entries, field, get, get_bool, get_text, json_parse, json_pretty, object, object_of,
    parse_json, render_pretty, text_field, tidy, written, Json, JsonView,
};
use crate::service::text_or;
use crate::store::{optional, said};
use crate::text::{concat2, same};

verus! {

/// The line that lets any page read an answer.
pub open spec fn any_origin() -> Seq<char> {
    "Access-Control-Allow-Origin: *\r\n"@
}

/// An answer.
pub fn response(status: &str, content_type: &str, body: &str) -> (r: String)
    ensures
        r@ == response_text(status@, content_type@, any_origin(), body@),
{
    write_response(status, content_type, "Access-Control-Allow-Origin: *\r\n", body)
}

/// An answer with a JSON value.
pub open spec fn json_answer(status: Seq<char>, v: JsonView) -> Seq<char> {
    response_text(
        status,
        "application/json; charset=utf-8"@,
        any_origin(),
        json_pretty(written(v)),
    )
}

/// Answers with a JSON value.
pub fn json_response(value: &Json, status: &str) -> (r: String)
    requires
        tidy(value@),
    ensures
        r@ == json_answer(status@, value@),
{
    let text = render_pretty(value);
    response(status, "application/json; charset=utf-8", text.as_str())
}

/// The status of a refusal.
pub open spec fn refusal_status(code: u16) -> Seq<char> {
    if code == 404 {
        "404 Not Found"@
    } else {
        "400 Bad Request"@
    }
}

/// A refusal: its reason and its code.
pub open spec fn refusal_answer(message: Seq<char>, code: u16) -> Seq<char> {
    json_answer(refusal_status(code), object_of(seq![said("error"@, message)]))
}

/// Refuses a request.
pub fn error(message: &str, code: u16) -> (r: String)
    ensures
        r@ == refusal_answer(message@, code),
{
    let mut f: Vec<(String, Json)> = Vec::new();
    f.push(("error".to_owned(), Json::Text(message.to_owned())));
    assert(entries(f@) =~= seq![said("error"@, message@)]);
    let status = if code == 404 {
        "404 Not Found"
    } else {
        "400 Bad Request"
    };
    json_response(&object(f), status)
}

/// Why a request is refused.
#[derive(Debug, Clone)]
pub struct Refusal {
    pub message: String,
    pub code: u16,
}

/// A station and the text of the number given for it.
#[derive(Debug, Clone)]
pub struct Offset {
    pub station: String,
    pub number: String,
}

/// What a request asks the store to do.
#[derive(Debug)]
pub enum Action {
    Import { jsonl: String },
    Lock { hypothesis: String, observation: String, event_key: Option<String> },
    Unlock { hypothesis: String, observation: String },
    Noise { observation: String, enabled: bool },
    Correction { version: String, parent: String, note: String, offsets: Vec<Offset> },
    Recompute { hypothesis: String, correction: Option<String>, event_key: Option<String> },
}

/// What is said of a field that is not there or is no text.
pub open spec fn missing_text(name: Seq<char>) -> Seq<char> {
    "missing string field "@ + name
}

/// The text of a field that has to be there.
pub fn json_string(value: &Json, name: &str) -> (r: Result<String, Refusal>)
    ensures
        match text_field(value@, name@) {
            Some(t) => r matches Ok(s) && s@ == t,
            None => r matches Err(e) && e.message@ == missing_text(name@) && e.code == 400,
        },
{
    match get_text(value, name) {
        Some(t) => Ok(t.clone()),
        None => Err(Refusal { message: concat2("missing string field ", name), code: 400 }),
    }
}

/// The text of a field, where it has one.
fn maybe_string(value: &Json, name: &str) -> (r: Option<String>)
    ensures
        optional(r) == text_field(value@, name@),
{
    match get_text(value, name) {
        Some(t) => Some(t.clone()),
        None => None,
    }
}

/// The text of a field, or another where it has none.
fn string_or(value: &Json, name: &str, other: &str) -> (r: String)
    ensures
        r@ == text_or(text_field(value@, name@), other@),
{
    match get_text(value, name) {
        Some(t) => t.clone(),
        None => other.to_owned(),
    }
}

/// Whether the first `n` entries are numbers.
pub open spec fn all_numbers(o: Seq<(Seq<char>, JsonView)>) -> bool {
    forall|i: int| 0 <= i < o.len() ==> (#[trigger] o[i]).1 is Number
}

/// The offsets of an object of numbers.
pub open spec fn offsets_of(o: Seq<(Seq<char>, JsonView)>, v: Seq<Offset>) -> bool {
    &&& v.len() == o.len()
    &&& forall|i: int|
        0 <= i < v.len() ==> (#[trigger] v[i]).station@ == o[i].0 && o[i].1 == JsonView::Number(
            v[i].number@,
        )
}

/// The offsets in a body: none where they are not an object, refused where one
/// of them is no number.
pub open spec fn offsets_asked(v: JsonView, r: Result<Vec<Offset>, Refusal>) -> bool {
    match field(v, "offsets_s"@) {
        Some(JsonView::Object(o)) => if all_numbers(o) {
            r matches Ok(s) && offsets_of(o, s@)
        } else {
            r matches Err(e) && e.message@ == "offsets_s must contain numbers"@ && e.code == 400
        },
        _ => r matches Ok(s) && s@.len() == 0,
    }
}

/// The offsets in a body.
fn read_offsets(value: &Json) -> (r: Result<Vec<Offset>, Refusal>)
    ensures
        offsets_asked(value@, r),
{
    let mut r: Vec<Offset> = Vec::new();
    match get(value, "offsets_s") {
        Some(f) => match f {
            Json::Object(o) => {
                let ghost all = f@->Object_0;
                let mut i: usize = 0;
                while i < o.len()
                    invariant
                        i <= o@.len(),
                        *f == Json::Object(*o),
                        all == f@->Object_0,
                        r@.len() == i,
                        forall|k: int|
                            0 <= k < i ==> (#[trigger] r@[k]).station@ == all[k].0 && all[k].1
                                == JsonView::Number(r@[k].number@),
                        field(value@, "offsets_s"@) == Some(f@),
                    decreases o@.len() - i,
                {
                    let item = &o[i];
                    assert(all[i as int] == (o@[i as int].0@, o@[i as int].1@));
                    match &item.1 {
                        Json::Number(t) => {
                            r.push(Offset { station: item.0.clone(), number: t.clone() });
                        },
                        _ => {
                            assert(!(all[i as int].1 is Number));
                            return Err(
                                Refusal {
                                    message: "offsets_s must contain numbers".to_owned(),
                                    code: 400,
                                },
                            );
                        },
                    }
                    i += 1;
                }
                assert(all_numbers(all)) by {
                    assert forall|k: int| 0 <= k < all.len() implies (#[trigger] all[k]).1 is Number by {
                        assert(all[k].1 == JsonView::Number(r@[k].number@));
                    }
                }
                Ok(r)
            },
            _ => Ok(r),
        },
        None => Ok(r),
    }
}

/// A request that is refused for lack of a text.
pub open spec fn lacks(r: Result<Action, Refusal>, name: Seq<char>) -> bool {
    r matches Err(e) && e.message@ == missing_text(name) && e.code == 400
}

/// What a request asks the store to do, by its path and its body.
pub open spec fn action_asked(path: Seq<char>, v: JsonView, r: Result<Action, Refusal>) -> bool {
    let hypothesis = text_field(v, "hypothesis_id"@);
    let observation = text_field(v, "observation_id"@);
    let event = text_field(v, "event_key"@);
    if path == "/api/import"@ {
        match text_field(v, "jsonl"@) {
            Some(t) => r matches Ok(Action::Import { jsonl }) && jsonl@ == t,
            None => lacks(r, "jsonl"@),
        }
    } else if path == "/api/lock"@ {
        if hypothesis is None {
            lacks(r, "hypothesis_id"@)
        } else if observation is None {
            lacks(r, "observation_id"@)
        } else {
            r matches Ok(Action::Lock { hypothesis: h, observation: o, event_key: k }) && Some(h@)
                == hypothesis && Some(o@) == observation && optional(k) == event
        }
    } else if path == "/api/unlock"@ {
        if hypothesis is None {
            lacks(r, "hypothesis_id"@)
        } else if observation is None {
            lacks(r, "observation_id"@)
        } else {
            r matches Ok(Action::Unlock { hypothesis: h, observation: o }) && Some(h@)
                == hypothesis && Some(o@) == observation
        }
    } else if path == "/api/noise"@ {
        if observation is None {
            lacks(r, "observation_id"@)
        } else {
            r matches Ok(Action::Noise { observation: o, enabled }) && Some(o@) == observation
                && enabled == match as_bool(field(v, "noise"@)) {
                Some(b) => b,
                None => true,
            }
        }
    } else if path == "/api/corrections"@ {
        match text_field(v, "version"@) {
            None => lacks(r, "version"@),
            Some(version) => match field(v, "offsets_s"@) {
                Some(JsonView::Object(o)) => if all_numbers(o) {
                    correction_is(r, v, version) && offsets_of(o, r->Ok_0->offsets@)
                } else {
                    r matches Err(e) && e.message@ == "offsets_s must contain numbers"@ && e.code
                        == 400
                },
                _ => correction_is(r, v, version) && r->Ok_0->offsets@.len() == 0,
            },
        }
    } else if path == "/api/recompute"@ {
        if hypothesis is None {
            lacks(r, "hypothesis_id"@)
        } else {
            r matches Ok(Action::Recompute { hypothesis: h, correction, event_key }) && Some(h@)
                == hypothesis && optional(correction) == text_field(v, "correction_version"@)
                && optional(event_key) == event
        }
    } else {
        r matches Err(e) && e.message@ == "unknown POST endpoint"@ && e.code == 404
    }
}

/// A correction with a version, and its parent and note.
pub open spec fn correction_is(
    r: Result<Action, Refusal>,
    v: JsonView,
    version: Seq<char>,
) -> bool {
    r matches Ok(Action::Correction { version: n, parent, note, offsets: _ }) && n@ == version
        && parent@ == text_or(text_field(v, "parent_version"@), "v1"@) && note@ == text_or(
        text_field(v, "note"@),
        "user correction"@,
    )
}

/// What a request asks the store to do, by its path and its body.
pub fn decode_action(path: &str, json: &Json) -> (r: Result<Action, Refusal>)
    ensures
        action_asked(path@, json@, r),
{
    if same(path, "/api/import") {
        match json_string(json, "jsonl") {
            Ok(jsonl) => Ok(Action::Import { jsonl }),
            Err(e) => Err(e),
        }
    } else if same(path, "/api/lock") {
        let hypothesis = match json_string(json, "hypothesis_id") {
            Ok(t) => t,
            Err(e) => {
                return Err(e);
            },
        };
        let observation = match json_string(json, "observation_id") {
            Ok(t) => t,
            Err(e) => {
                return Err(e);
            },
        };
        let event_key = maybe_string(json, "event_key");
        Ok(Action::Lock { hypothesis, observation, event_key })
    } else if same(path, "/api/unlock") {
        let hypothesis = match json_string(json, "hypothesis_id") {
            Ok(t) => t,
            Err(e) => {
                return Err(e);
            },
        };
        let observation = match json_string(json, "observation_id") {
            Ok(t) => t,
            Err(e) => {
                return Err(e);
            },
        };
        Ok(Action::Unlock { hypothesis, observation })
    } else if same(path, "/api/noise") {
        let observation = match json_string(json, "observation_id") {
            Ok(t) => t,
            Err(e) => {
                return Err(e);
            },
        };
        let enabled = match get_bool(json, "noise") {
            Some(b) => b,
            None => true,
        };
        Ok(Action::Noise { observation, enabled })
    } else if same(path, "/api/corrections") {
        let version = match json_string(json, "version") {
            Ok(t) => t,
            Err(e) => {
                return Err(e);
            },
        };
        let parent = string_or(json, "parent_version", "v1");
        let note = string_or(json, "note", "user correction");
        match read_offsets(json) {
            Ok(offsets) => Ok(Action::Correction { version, parent, note, offsets }),
            Err(e) => Err(e),
        }
    } else if same(path, "/api/recompute") {
        let hypothesis = match json_string(json, "hypothesis_id") {
            Ok(t) => t,
            Err(e) => {
                return Err(e);
            },
        };
        let correction = maybe_string(json, "correction_version");
        let event_key = maybe_string(json, "event_key");
        Ok(Action::Recompute { hypothesis, correction, event_key })
    } else {
        Err(Refusal { message: "unknown POST endpoint".to_owned(), code: 404 })
    }
}

/// The body of a request; an empty object where it has none.
pub open spec fn body_text(r: Request) -> Seq<char> {
    match r.body {
        Some(b) => b@,
        None => "{}"@,
    }
}

/// The JSON value in the body of a request.
pub fn body_json(request: &Request) -> (r: Result<Json, Refusal>)
    ensures
        match json_parse(body_text(*request)) {
            Ok(v) => r matches Ok(j) && j@ == v && tidy(j@),
            Err(m) => r matches Err(e) && e.message@ == m && e.code == 400,
        },
{
    let parsed = match &request.body {
        Some(b) => parse_json(b.as_str()),
        None => parse_json("{}"),
    };
    match parsed {
        Ok(j) => Ok(j),
        Err(message) => Err(Refusal { message, code: 400 }),
    }
}

/// Reads what a request asks the store to do. A body that is no JSON is
/// refused, whatever the path.
pub fn read_action(request: &Request) -> (r: Result<Action, Refusal>)
    ensures
        match json_parse(body_text(*request)) {
            Ok(v) => action_asked(request.path@, v, r),
            Err(m) => r matches Err(e) && e.message@ == m && e.code == 400,
        },
{
    match body_json(request) {
        Ok(j) => decode_action(request.path.as_str(), &j),
        Err(e) => Err(e),
    }
}

/// One thing that the store does.
#[derive(Debug)]
pub enum Step {
    Import { jsonl: String },
    SetLock { hypothesis: String, observation: String, event_key: Option<String>, locked: bool },
    SetNoise { observation: String, enabled: bool },
    SetCorrection { hypothesis: String, version: String },
    CreateCorrection { version: String, parent: String, note: String, offsets: Vec<Offset> },
    Recompute { hypothesis: String, correction: Option<String>, event_key: Option<String> },
}

/// A step that computes a hypothesis again.
pub open spec fn recomputes(
    s: Step,
    hypothesis: Seq<char>,
    correction: Option<Seq<char>>,
    event: Option<Seq<char>>,
) -> bool {
    s matches Step::Recompute { hypothesis: h, correction: c, event_key: e } && h@ == hypothesis
        && optional(c) == correction && optional(e) == event
}

/// What an action is answered with, where all its steps succeed.
#[derive(Debug, Clone, Copy, PartialEq, Eq, Structural)]
pub enum Reply {
    /// That it is done.
    Done,
    /// What the import came to.
    Summary,
    /// What the computation came to.
    Solution,
}

/// What an action is answered with.
pub open spec fn replied(a: Action) -> Reply {
    match a {
        Action::Import { .. } => Reply::Summary,
        Action::Recompute { .. } => Reply::Solution,
        _ => Reply::Done,
    }
}

/// What an action is answered with.
pub fn reply_of(action: &Action) -> (r: Reply)
    ensures
        r == replied(*action),
{
    match action {
        Action::Import { .. } => Reply::Summary,
        Action::Recompute { .. } => Reply::Solution,
        _ => Reply::Done,
    }
}

/// What the store does for an action, in order.
pub open spec fn steps_for(a: Action, s: Seq<Step>) -> bool {
    match a {
        Action::Import { jsonl } => s.len() == 1 && (s[0] matches Step::Import { jsonl: j } && j@
            == jsonl@),
        Action::Lock { hypothesis, observation, event_key } => s.len() == 2 && (
        s[0] matches Step::SetLock { hypothesis: h, observation: o, event_key: e, locked } && h@
            == hypothesis@ && o@ == observation@ && optional(e) == optional(event_key) && locked)
            && recomputes(s[1], hypothesis@, None, optional(event_key)),
        Action::Unlock { hypothesis, observation } => s.len() == 2 && (
        s[0] matches Step::SetLock { hypothesis: h, observation: o, event_key: e, locked } && h@
            == hypothesis@ && o@ == observation@ && e is None && !locked) && recomputes(
            s[1],
            hypothesis@,
            None,
            None,
        ),
        Action::Noise { observation, enabled } => s.len() == 3 && (s[0] matches Step::SetNoise {
            observation: o,
            enabled: b,
        } && o@ == observation@ && b == enabled) && recomputes(s[1], "H-A"@, None, None)
            && recomputes(s[2], "H-B"@, None, None),
        Action::Correction { version, parent, note, offsets } => s.len() == 1 && (
        s[0] matches Step::CreateCorrection { version: v, parent: p, note: n, offsets: f } && v@
            == version@ && p@ == parent@ && n@ == note@ && f == offsets),
        Action::Recompute { hypothesis, correction, event_key } => {
            let last = s.len() - 1;
            &&& s.len() == if correction is Some {
                2int
            } else {
                1int
            }
            &&& correction is Some ==> (s[0] matches Step::SetCorrection {
                hypothesis: h,
                version: v,
            } && h@ == hypothesis@ && Some(v@) == optional(correction))
            &&& recomputes(s[last], hypothesis@, optional(correction), optional(event_key))
        },
    }
}

/// A text or none, again.
fn copy(t: &Option<String>) -> (r: Option<String>)
    ensures
        optional(r) == optional(*t),
        r is Some == t is Some,
{
    match t {
        Some(s) => Some(s.clone()),
        None => None,
    }
}

/// What the store does for an action, in order.
pub fn plan_steps(action: Action) -> (r: Vec<Step>)
    ensures
        steps_for(action, r@),
{
    let mut r: Vec<Step> = Vec::new();
    match action {
        Action::Import { jsonl } => {
            r.push(Step::Import { jsonl });
        },
        Action::Lock { hypothesis, observation, event_key } => {
            let again = copy(&event_key);
            let h = hypothesis.clone();
            r.push(Step::SetLock { hypothesis: h, observation, event_key, locked: true });
            r.push(Step::Recompute { hypothesis, correction: None, event_key: again });
        },
        Action::Unlock { hypothesis, observation } => {
            let h = hypothesis.clone();
            r.push(Step::SetLock { hypothesis: h, observation, event_key: None, locked: false });
            r.push(Step::Recompute { hypothesis, correction: None, event_key: None });
        },
        Action::Noise { observation, enabled } => {
            r.push(Step::SetNoise { observation, enabled });
            r.push(
                Step::Recompute { hypothesis: "H-A".to_owned(), correction: None, event_key: None },
            );
            r.push(
                Step::Recompute { hypothesis: "H-B".to_owned(), correction: None, event_key: None },
            );
        },
        Action::Correction { version, parent, note, offsets } => {
            r.push(Step::CreateCorrection { version, parent, note, offsets });
        },
        Action::Recompute { hypothesis, correction, event_key } => {
            if let Some(version) = &correction {
                r.push(
                    Step::SetCorrection {
                        hypothesis: hypothesis.clone(),
                        version: version.clone(),
                    },
                );
            }
            r.push(Step::Recompute { hypothesis, correction, event_key });
        },
    }
    r
}

/// Where a request goes.
#[derive(Debug, Clone, Copy, PartialEq, Eq, Structural)]
pub enum WebRoute {
    Page,
    Script,
    State,
    Sets,
    OneSet(i64),
    SetWithoutId,
    Action,
    Unknown,
}

/// The set that a target asks for.
pub open spec fn asked_set(target: Seq<char>) -> Option<int> {
    match query_value(target, "id"@) {
        Some(t) => integer(t),
        None => None,
    }
}

/// Where a request goes.
pub open spec fn web_route_of(q: Request) -> WebRoute {
    if q.method@ == "GET"@ {
        if q.path@ == "/"@ {
            WebRoute::Page
        } else if q.path@ == "/app.js"@ {
            WebRoute::Script
        } else if q.path@ == "/api/state"@ {
            WebRoute::State
        } else if q.path@ == "/api/sets"@ {
            WebRoute::Sets
        } else if q.path@ == "/api/set"@ {
            match asked_set(q.target@) {
                Some(n) => WebRoute::OneSet(n as i64),
                None => WebRoute::SetWithoutId,
            }
        } else {
            WebRoute::Unknown
        }
    } else if q.method@ == "POST"@ {
        WebRoute::Action
    } else {
        WebRoute::Unknown
    }
}

/// Where a request goes.
pub fn web_route(q: &Request) -> (r: WebRoute)
    ensures
        r == web_route_of(*q),
{
    if same(q.method.as_str(), "GET") {
        let path = q.path.as_str();
        if same(path, "/") {
            WebRoute::Page
        } else if same(path, "/app.js") {
            WebRoute::Script
        } else if same(path, "/api/state") {
            WebRoute::State
        } else if same(path, "/api/sets") {
            WebRoute::Sets
        } else if same(path, "/api/set") {
            match query_field(q.target.as_str(), "id") {
                Some(t) => match parse_i64(t.as_str()) {
                    Some(n) => WebRoute::OneSet(n),
                    None => WebRoute::SetWithoutId,
                },
                None => WebRoute::SetWithoutId,
            }
        } else {
            WebRoute::Unknown
        }
    } else if same(q.method.as_str(), "POST") {
        WebRoute::Action
    } else {
        WebRoute::Unknown
    }
}

} // verus!

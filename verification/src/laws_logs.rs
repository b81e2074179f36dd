//! Laws of what is kept: what runs and candidates are known by, and what the log
//! says of each change.
use vstd::prelude::*;

use crate::association::Blueprint;
use crate::candidate::{bare_identity, clock_numbers, placed_identity, Place};
use crate::json::{field, json_text, object_of, record, text_array, written, JsonView};
use crate::laws_requests::{entries_are_found, last_of_name, objects_have_the_last_values};
use crate::store::{
    batch_detail, duplicate_detail, freeze_detail, maybe_text, recompute_detail, run_detail,
    run_identity, said, status_detail,
};

verus! {

/// A field of an object whose name is not given again has its value.
pub proof fn fields_have_their_values(fields: Seq<(Seq<char>, JsonView)>, k: int)
    requires
        last_of_name(fields, k),
    ensures
        field(object_of(fields), fields[k].0) == Some(fields[k].1),
{
    objects_have_the_last_values(fields, k);
    let o = record(fields);
    let i = choose|i: int| 0 <= i < o.len() && o[i] == fields[k];
    entries_are_found(o, i);
}

/// The fields of an object whose names all differ have their values.
proof fn all_fields_have_their_values(fields: Seq<(Seq<char>, JsonView)>)
    requires
        forall|i: int, j: int|
            0 <= i < j < fields.len() ==> (#[trigger] fields[i]).0 != (#[trigger] fields[j]).0,
    ensures
        forall|k: int|
            0 <= k < fields.len() ==> field(object_of(fields), (#[trigger] fields[k]).0) == Some(
                fields[k].1,
            ),
{
    assert forall|k: int| 0 <= k < fields.len() implies field(
        object_of(fields),
        (#[trigger] fields[k]).0,
    ) == Some(fields[k].1) by {
        assert(last_of_name(fields, k));
        fields_have_their_values(fields, k);
    }
}

/// A run is known by the version of the clocks, the scope, the reason and the
/// candidates.
pub proof fn runs_are_known_by_what_made_them(
    version: Seq<char>,
    scope: Seq<Seq<char>>,
    reason: Seq<char>,
    candidates: JsonView,
)
    ensures
        ({
            let v = run_identity(version, scope, reason, candidates);
            &&& field(v, "clock_version"@) == Some(JsonView::Text(version))
            &&& field(v, "scope"@) == Some(JsonView::Text(json_text(written(text_array(scope)))))
            &&& field(v, "rationale"@) == Some(JsonView::Text(reason))
            &&& field(v, "candidates"@) == Some(candidates)
        }),
{
    reveal_strlit("clock_version");
    reveal_strlit("scope");
    reveal_strlit("rationale");
    reveal_strlit("candidates");
    assert("clock_version"@.len() == 13 && "scope"@.len() == 5);
    assert("rationale"@.len() == 9 && "candidates"@.len() == 10);
    let fields = seq![
        said("clock_version"@, version),
        said("scope"@, json_text(written(text_array(scope)))),
        said("rationale"@, reason),
        ("candidates"@, candidates),
    ];
    all_fields_have_their_values(fields);
    assert(fields[0].0 == "clock_version"@);
    assert(fields[1].0 == "scope"@);
    assert(fields[2].0 == "rationale"@);
    assert(fields[3].0 == "candidates"@);
}

/// A candidate with a place is known by its event, where it was sought from, the
/// station that it does without, its place, its time and its clocks.
pub proof fn places_are_known_by_what_made_them(b: Blueprint, seed: Seq<char>, p: Place)
    ensures
        ({
            let v = placed_identity(b, seed, p);
            &&& field(v, "event"@) == Some(JsonView::Text(b.event_key@))
            &&& field(v, "seed"@) == Some(JsonView::Number(seed))
            &&& field(v, "omitted"@) == Some(match b.omitted_station {
                    Some(t) => JsonView::Text(t@),
                    None => JsonView::Null,
                })
            &&& field(v, "x"@) == Some(JsonView::Number(p.x_number@))
            &&& field(v, "y"@) == Some(JsonView::Number(p.y_number@))
            &&& field(v, "origin"@) == Some(JsonView::Number(p.origin_number@))
            &&& field(v, "clocks"@) == Some(JsonView::Array(clock_numbers(p.clocks@)))
        }),
{
    reveal_strlit("event");
    reveal_strlit("seed");
    reveal_strlit("omitted");
    reveal_strlit("x");
    reveal_strlit("y");
    reveal_strlit("origin");
    reveal_strlit("clocks");
    assert("event"@.len() == 5 && "seed"@.len() == 4);
    assert("omitted"@.len() == 7 && "x"@.len() == 1);
    assert("y"@.len() == 1 && "origin"@.len() == 6);
    assert("clocks"@.len() == 6);
    assert("x"@[0] == 'x' && "y"@[0] == 'y');
    assert("origin"@[0] == 'o' && "clocks"@[0] == 'c');
    let fields = seq![
        said("event"@, b.event_key@),
        ("seed"@, JsonView::Number(seed)),
        ("omitted"@, maybe_text(b.omitted_station)),
        ("x"@, JsonView::Number(p.x_number@)),
        ("y"@, JsonView::Number(p.y_number@)),
        ("origin"@, JsonView::Number(p.origin_number@)),
        ("clocks"@, JsonView::Array(clock_numbers(p.clocks@))),
    ];
    all_fields_have_their_values(fields);
    assert(fields[0].0 == "event"@);
    assert(fields[1].0 == "seed"@);
    assert(fields[2].0 == "omitted"@);
    assert(fields[3].0 == "x"@);
    assert(fields[4].0 == "y"@);
    assert(fields[5].0 == "origin"@);
    assert(fields[6].0 == "clocks"@);
}

/// A candidate without a place is known by its event, where it was sought from
/// and the station that it does without.
pub proof fn bare_candidates_are_known_by_what_made_them(b: Blueprint, seed: Seq<char>)
    ensures
        ({
            let v = bare_identity(b, seed);
            &&& field(v, "event"@) == Some(JsonView::Text(b.event_key@))
            &&& field(v, "rank"@) == Some(JsonView::Number("0"@))
            &&& field(v, "status"@) == Some(JsonView::Text("underdetermined"@))
            &&& field(v, "seed"@) == Some(JsonView::Number(seed))
            &&& field(v, "omitted"@) == Some(match b.omitted_station {
                    Some(t) => JsonView::Text(t@),
                    None => JsonView::Null,
                })
        }),
{
    reveal_strlit("event");
    reveal_strlit("rank");
    reveal_strlit("status");
    reveal_strlit("seed");
    reveal_strlit("omitted");
    assert("event"@.len() == 5 && "rank"@.len() == 4);
    assert("status"@.len() == 6 && "seed"@.len() == 4);
    assert("omitted"@.len() == 7);
    assert("rank"@[0] == 'r' && "seed"@[0] == 's');
    let fields = seq![
        said("event"@, b.event_key@),
        ("rank"@, JsonView::Number("0"@)),
        said("status"@, "underdetermined"@),
        ("seed"@, JsonView::Number(seed)),
        ("omitted"@, maybe_text(b.omitted_station)),
    ];
    all_fields_have_their_values(fields);
    assert(fields[0].0 == "event"@);
    assert(fields[1].0 == "rank"@);
    assert(fields[2].0 == "status"@);
    assert(fields[3].0 == "seed"@);
    assert(fields[4].0 == "omitted"@);
}

/// The log says which pick has which status for which event, and who gave it.
pub proof fn changes_of_status_are_logged(
    pick: Seq<char>,
    status: Seq<char>,
    event: Option<String>,
    actor: Seq<char>,
)
    ensures
        ({
            let v = status_detail(pick, status, event, actor);
            &&& field(v, "pick_id"@) == Some(JsonView::Text(pick))
            &&& field(v, "status"@) == Some(JsonView::Text(status))
            &&& field(v, "locked_event"@) == Some(match event {
                    Some(t) => JsonView::Text(t@),
                    None => JsonView::Null,
                })
            &&& field(v, "actor"@) == Some(JsonView::Text(actor))
        }),
{
    reveal_strlit("pick_id");
    reveal_strlit("status");
    reveal_strlit("locked_event");
    reveal_strlit("actor");
    assert("pick_id"@.len() == 7 && "status"@.len() == 6);
    assert("locked_event"@.len() == 12 && "actor"@.len() == 5);
    let fields = seq![
        said("pick_id"@, pick),
        said("status"@, status),
        ("locked_event"@, maybe_text(event)),
        said("actor"@, actor),
    ];
    all_fields_have_their_values(fields);
    assert(fields[0].0 == "pick_id"@);
    assert(fields[1].0 == "status"@);
    assert(fields[2].0 == "locked_event"@);
    assert(fields[3].0 == "actor"@);
}

/// The log says which candidate of which event was frozen, as which hypothesis,
/// under which label and by whom.
pub proof fn frozen_hypotheses_are_logged(
    hypothesis: Seq<char>,
    candidate: Seq<char>,
    event: Seq<char>,
    label: Seq<char>,
    actor: Seq<char>,
)
    ensures
        ({
            let v = freeze_detail(hypothesis, candidate, event, label, actor);
            &&& field(v, "hypothesis_id"@) == Some(JsonView::Text(hypothesis))
            &&& field(v, "candidate_id"@) == Some(JsonView::Text(candidate))
            &&& field(v, "event_key"@) == Some(JsonView::Text(event))
            &&& field(v, "label"@) == Some(JsonView::Text(label))
            &&& field(v, "actor"@) == Some(JsonView::Text(actor))
        }),
{
    reveal_strlit("hypothesis_id");
    reveal_strlit("candidate_id");
    reveal_strlit("event_key");
    reveal_strlit("label");
    reveal_strlit("actor");
    assert("hypothesis_id"@.len() == 13 && "candidate_id"@.len() == 12);
    assert("event_key"@.len() == 9 && "label"@.len() == 5);
    assert("actor"@.len() == 5);
    assert("label"@[0] == 'l' && "actor"@[0] == 'a');
    let fields = seq![
        said("hypothesis_id"@, hypothesis),
        said("candidate_id"@, candidate),
        said("event_key"@, event),
        said("label"@, label),
        said("actor"@, actor),
    ];
    all_fields_have_their_values(fields);
    assert(fields[0].0 == "hypothesis_id"@);
    assert(fields[1].0 == "candidate_id"@);
    assert(fields[2].0 == "event_key"@);
    assert(fields[3].0 == "label"@);
    assert(fields[4].0 == "actor"@);
}

/// The log says which hypothesis was made from which, and by whom.
pub proof fn twin_hypotheses_are_logged(new: Seq<char>, parent: Seq<char>, actor: Seq<char>)
    ensures
        ({
            let v = duplicate_detail(new, parent, actor);
            &&& field(v, "new_hypothesis_id"@) == Some(JsonView::Text(new))
            &&& field(v, "parent_hypothesis_id"@) == Some(JsonView::Text(parent))
            &&& field(v, "actor"@) == Some(JsonView::Text(actor))
        }),
{
    reveal_strlit("new_hypothesis_id");
    reveal_strlit("parent_hypothesis_id");
    reveal_strlit("actor");
    assert("new_hypothesis_id"@.len() == 17 && "parent_hypothesis_id"@.len() == 20);
    assert("actor"@.len() == 5);
    let fields = seq![
        said("new_hypothesis_id"@, new),
        said("parent_hypothesis_id"@, parent),
        said("actor"@, actor),
    ];
    all_fields_have_their_values(fields);
    assert(fields[0].0 == "new_hypothesis_id"@);
    assert(fields[1].0 == "parent_hypothesis_id"@);
    assert(fields[2].0 == "actor"@);
}

/// The log says which hypothesis was computed again in which run, to which
/// candidate and with which version of the clocks.
pub proof fn computations_are_logged(
    hypothesis: Seq<char>,
    run: Seq<char>,
    candidate: Seq<char>,
    version: Seq<char>,
)
    ensures
        ({
            let v = recompute_detail(hypothesis, run, candidate, version);
            &&& field(v, "hypothesis_id"@) == Some(JsonView::Text(hypothesis))
            &&& field(v, "run_id"@) == Some(JsonView::Text(run))
            &&& field(v, "candidate_id"@) == Some(JsonView::Text(candidate))
            &&& field(v, "clock_version"@) == Some(JsonView::Text(version))
        }),
{
    reveal_strlit("hypothesis_id");
    reveal_strlit("run_id");
    reveal_strlit("candidate_id");
    reveal_strlit("clock_version");
    assert("hypothesis_id"@.len() == 13 && "run_id"@.len() == 6);
    assert("candidate_id"@.len() == 12 && "clock_version"@.len() == 13);
    assert("hypothesis_id"@[0] == 'h' && "clock_version"@[0] == 'c');
    let fields = seq![
        said("hypothesis_id"@, hypothesis),
        said("run_id"@, run),
        said("candidate_id"@, candidate),
        said("clock_version"@, version),
    ];
    all_fields_have_their_values(fields);
    assert(fields[0].0 == "hypothesis_id"@);
    assert(fields[1].0 == "run_id"@);
    assert(fields[2].0 == "candidate_id"@);
    assert(fields[3].0 == "clock_version"@);
}

/// The log says of a run its id, the version of the clocks and the scope.
pub proof fn runs_are_logged(run: Seq<char>, version: Seq<char>, scope: Seq<Seq<char>>)
    ensures
        ({
            let v = run_detail(run, version, scope);
            &&& field(v, "run_id"@) == Some(JsonView::Text(run))
            &&& field(v, "clock_version"@) == Some(JsonView::Text(version))
            &&& field(v, "scope"@) == Some(text_array(scope))
        }),
{
    reveal_strlit("run_id");
    reveal_strlit("clock_version");
    reveal_strlit("scope");
    assert("run_id"@.len() == 6 && "clock_version"@.len() == 13);
    assert("scope"@.len() == 5);
    let fields = seq![
        said("run_id"@, run),
        said("clock_version"@, version),
        ("scope"@, text_array(scope)),
    ];
    all_fields_have_their_values(fields);
    assert(fields[0].0 == "run_id"@);
    assert(fields[1].0 == "clock_version"@);
    assert(fields[2].0 == "scope"@);
}

/// The log says of a batch its id and its hash, and that it is no repetition.
pub proof fn batches_are_logged(id: Seq<char>, hash: Seq<char>)
    ensures
        ({
            let v = batch_detail(id, hash);
            &&& field(v, "batch_id"@) == Some(JsonView::Text(id))
            &&& field(v, "hash"@) == Some(JsonView::Text(hash))
            &&& field(v, "duplicated"@) == Some(JsonView::Bool(false))
        }),
{
    reveal_strlit("batch_id");
    reveal_strlit("hash");
    reveal_strlit("duplicated");
    assert("batch_id"@.len() == 8 && "hash"@.len() == 4);
    assert("duplicated"@.len() == 10);
    let fields = seq![
        said("batch_id"@, id),
        said("hash"@, hash),
        ("duplicated"@, JsonView::Bool(false)),
    ];
    all_fields_have_their_values(fields);
    assert(fields[0].0 == "batch_id"@);
    assert(fields[1].0 == "hash"@);
    assert(fields[2].0 == "duplicated"@);
}

} // verus!

//! Laws of what is asked for: the arguments of the program, the bodies of
//! requests and the rows that are stored.
use vstd::prelude::*;

use crate::args::{behind, database_path, demo_path, invoked};
use crate::http::Request;
use crate::json::{as_bool, field, text_field, text_list, JsonView};
use crate::laws_store::options_are_behind_their_names;
use crate::service::{
    duplicate_asked, freeze_asked, import_asked, recompute_asked, solve_asked, status_asked,
    ImportRequest, LabelRequest, RecomputeRequest, SolveRequest, StatusRequest,
};
use crate::store::{
    int_field, number_field, optional, pick_row_of, row_error, row_of, CandidateRow, PickRow,
};
use crate::text::views;
use crate::web::{
    action_asked, asked_set, refusal_status, replied, web_route_of, Action, Refusal, Reply,
    WebRoute,
};

verus! {

/// A body to import needs its content; its source has a name where none is given.
pub proof fn imports_need_their_content(v: JsonView, r: Result<ImportRequest, String>)
    requires
        import_asked(v, r),
    ensures
        r is Ok <==> text_field(v, "content"@) is Some,
        r matches Err(m) ==> m@ == "missing content"@,
        r matches Ok(q) ==> {
            &&& text_field(v, "content"@) == Some(q.content@)
            &&& text_field(v, "source_name"@) matches Some(t) ==> q.source_name@ == t
            &&& text_field(v, "source_name"@) is None ==> q.source_name@ == "api-import"@
        },
{
}

/// The status of a pick becomes one of three words, and nothing else is taken.
pub proof fn picks_have_one_of_three_statuses(v: JsonView, r: Result<StatusRequest, String>)
    requires
        status_asked(v, r),
    ensures
        r is Ok <==> text_field(v, "pick_id"@) is Some && (text_field(v, "status"@) == Some(
            "active"@,
        ) || text_field(v, "status"@) == Some("locked"@) || text_field(v, "status"@) == Some(
            "noise"@,
        )),
        r matches Ok(q) ==> text_field(v, "pick_id"@) == Some(q.pick_id@) && text_field(
            v,
            "status"@,
        ) == Some(q.status@) && text_field(v, "locked_event"@) == match q.locked_event {
            Some(e) => Some(e@),
            None => None,
        },
        text_field(v, "pick_id"@) is None ==> (r matches Err(m) && m@ == "missing pick_id"@),
        text_field(v, "pick_id"@) is Some && text_field(v, "status"@) is None ==> (r matches Err(m)
            && m@ == "missing status"@),
{
}

/// What to solve has a version of the clocks and a reason, also where the body
/// gives none.
pub proof fn solutions_have_a_version_and_a_reason(v: JsonView, q: SolveRequest)
    requires
        solve_asked(v, q),
    ensures
        text_field(v, "clock_version"@) matches Some(t) ==> q.clock_version@ == t,
        text_field(v, "clock_version"@) is None ==> q.clock_version@ == "clock-v1"@,
        text_field(v, "rationale"@) matches Some(t) ==> q.rationale@ == t,
        text_field(v, "rationale"@) is None ==> q.rationale@ == "user_requested_recompute"@,
        views(q.scope@) == text_list(v, "scope"@),
{
}

/// A candidate is frozen, and a hypothesis set beside another, under the label
/// that is given, or under one that tells the two apart.
pub proof fn hypotheses_are_labelled(
    v: JsonView,
    frozen: Result<LabelRequest, String>,
    twin: Result<LabelRequest, String>,
)
    requires
        freeze_asked(v, frozen),
        duplicate_asked(v, twin),
    ensures
        frozen is Ok <==> text_field(v, "candidate_id"@) is Some,
        frozen matches Ok(q) ==> text_field(v, "candidate_id"@) == Some(q.id@),
        twin is Ok <==> text_field(v, "hypothesis_id"@) is Some,
        twin matches Ok(q) ==> text_field(v, "hypothesis_id"@) == Some(q.id@),
        text_field(v, "label"@) matches Some(t) ==> (frozen matches Ok(q) ==> q.label@ == t) && (
        twin matches Ok(q) ==> q.label@ == t),
        text_field(v, "label"@) is None ==> (frozen matches Ok(q) ==> q.label@ == "frozen"@) && (
        twin matches Ok(q) ==> q.label@ == "parallel"@),
{
}

/// A hypothesis is computed again with the version of the clocks that is given.
pub proof fn hypotheses_are_computed_again(v: JsonView, r: Result<RecomputeRequest, String>)
    requires
        recompute_asked(v, r),
    ensures
        r is Ok <==> text_field(v, "hypothesis_id"@) is Some,
        r matches Ok(q) ==> text_field(v, "hypothesis_id"@) == Some(q.hypothesis_id@) && text_field(
            v,
            "clock_version"@,
        ) == match q.clock_version {
            Some(c) => Some(c@),
            None => None,
        },
{
}

/// A candidate has a row exactly where it has an id, an event and a rank; one of
/// no status is underdetermined.
pub proof fn candidates_have_rows(v: JsonView, r: CandidateRow)
    ensures
        row_error(v) is None <==> text_field(v, "candidate_id"@) is Some && text_field(
            v,
            "event_key"@,
        ) is Some && int_field(v, "rank"@) is Some,
        row_of(v, r) ==> {
            &&& row_error(v) is None
            &&& text_field(v, "candidate_id"@) == Some(r.candidate_id@)
            &&& text_field(v, "event_key"@) == Some(r.event_key@)
            &&& int_field(v, "rank"@) == Some(r.rank as int)
            &&& r.score is Some <==> field(v, "score"@) is Some && field(
                v,
                "score"@,
            )->0 is Number
            &&& r.score matches Some(t) ==> field(v, "score"@) == Some(JsonView::Number(t@))
            &&& text_field(v, "status"@) matches Some(t) ==> r.status@ == t
            &&& text_field(v, "status"@) is None ==> r.status@ == "underdetermined"@
        },
{
}

/// The row of an arrival says whether it was accepted, and what is known of it.
pub proof fn arrivals_have_rows(v: JsonView, accepted: bool, r: PickRow)
    requires
        pick_row_of(v, accepted, r),
    ensures
        r.accepted <==> accepted,
        text_field(v, "pick_id"@) matches Some(t) ==> r.pick_id@ == t,
        text_field(v, "pick_id"@) is None ==> r.pick_id@ == "unknown"@,
        r.locked <==> as_bool(field(v, "locked"@)) == Some(true),
        r.residual_seconds matches Some(t) ==> number_field(v, "residual_seconds"@) == Some(t@),
        r.residual_seconds is None ==> number_field(v, "residual_seconds"@) is None,
        r.contribution matches Some(t) ==> number_field(v, "contribution"@) == Some(t@),
        r.contribution is None ==> number_field(v, "contribution"@) is None,
        r.reason matches Some(t) ==> text_field(v, "reason"@) == Some(t@),
        r.reason is None ==> text_field(v, "reason"@) is None,
{
}

/// The options of the program differ from each other and from what asks for
/// help.
pub proof fn options_are_told_apart()
    ensures
        "--listen"@ != "--db"@ && "--listen"@ != "--database"@ && "--listen"@ != "--demo"@,
        "--listen"@ != "--help"@ && "--listen"@ != "-h"@,
        "--db"@ != "--help"@ && "--db"@ != "-h"@,
        "--database"@ != "--help"@ && "--database"@ != "-h"@,
        "--demo"@ != "--help"@ && "--demo"@ != "-h"@,
{
    reveal_strlit("--listen");
    reveal_strlit("--db");
    reveal_strlit("--database");
    reveal_strlit("--demo");
    reveal_strlit("--help");
    reveal_strlit("-h");
    assert("--listen"@[2] == 'l' && "--database"@[2] == 'd' && "--demo"@[2] == 'd');
    assert("--help"@[2] == 'h' && "-h"@.len() == 2);
    assert("--listen"@.len() == 8 && "--database"@.len() == 10);
    assert("--db"@.len() == 4 && "--demo"@.len() == 6 && "--help"@.len() == 6);
}

/// Whether arguments are options from a place on, each with a value behind it.
pub open spec fn all_options(args: Seq<Seq<char>>, i: int) -> bool {
    (args.len() - i) % 2 == 0 && forall|j: int|
        i <= j < args.len() && (j - i) % 2 == 0 ==> #[trigger] args[j] == "--listen"@ || args[j]
            == "--db"@ || args[j] == "--database"@ || args[j] == "--demo"@
}

/// Where every argument is an option with a value, the program serves at the
/// last address that is given, or else at the one that it has.
pub proof fn last_address_counts(args: Seq<Seq<char>>, i: int, own: Seq<char>, k: int)
    requires
        0 <= i <= args.len(),
        all_options(args, i),
        forall|j: int|
            k < j < args.len() && i <= j && (j - i) % 2 == 0 ==> #[trigger] args[j] != "--listen"@,
    ensures
        k < i ==> invoked(args, i, own) == Ok::<Option<Seq<char>>, Seq<char>>(Some(own)),
        i <= k < args.len() && (k - i) % 2 == 0 && args[k] == "--listen"@ ==> invoked(args, i, own)
            == Ok::<Option<Seq<char>>, Seq<char>>(Some(args[k + 1])),
    decreases args.len() - i,
{
    options_are_told_apart();
    if i < args.len() {
        assert((i - i) % 2 == 0);
        assert(i + 1 < args.len());
        let next = if args[i] == "--listen"@ {
            args[i + 1]
        } else {
            own
        };
        assert forall|j: int|
            i + 2 <= j < args.len() && (j - (i + 2)) % 2 == 0 implies #[trigger] args[j]
            == "--listen"@ || args[j] == "--db"@ || args[j] == "--database"@ || args[j]
            == "--demo"@ by {
            assert((j - i) % 2 == 0);
        }
        assert forall|j: int|
            k < j < args.len() && i + 2 <= j && (j - (i + 2)) % 2 == 0 implies #[trigger] args[j]
            != "--listen"@ by {
            assert((j - i) % 2 == 0);
        }
        last_address_counts(args, i + 2, next, k);
        assert(invoked(args, i, own) == invoked(args, i + 2, next));
    }
}

/// The first argument that is no option is help, which ends it, or unknown; an
/// option at the end lacks its value.
pub proof fn other_arguments_are_not_taken(args: Seq<Seq<char>>, i: int, own: Seq<char>)
    requires
        0 <= i < args.len(),
    ensures
        args[i] == "--help"@ || args[i] == "-h"@ ==> invoked(args, i, own) == Ok::<
            Option<Seq<char>>,
            Seq<char>,
        >(None),
        args[i] != "--help"@ && args[i] != "-h"@ && args[i] != "--listen"@ && args[i] != "--db"@
            && args[i] != "--database"@ && args[i] != "--demo"@ ==> invoked(args, i, own) == Err::<
            Option<Seq<char>>,
            Seq<char>,
        >("unknown argument "@ + args[i]),
        i + 1 == args.len() && (args[i] == "--listen"@ || args[i] == "--db"@ || args[i]
            == "--database"@ || args[i] == "--demo"@) ==> invoked(args, i, own) is Err,
{
    options_are_told_apart();
}

/// An option that no argument names has no value.
pub proof fn unnamed_options_have_no_value(
    args: Seq<Seq<char>>,
    i: int,
    name: Seq<char>,
    other: Seq<char>,
)
    requires
        0 <= i,
        forall|j: int| i <= j < args.len() - 1 ==> #[trigger] args[j] != name && args[j] != other,
    ensures
        behind(args, i, name, other) is None,
    decreases args.len() - i,
{
    if i + 1 < args.len() {
        assert(args[i] != name && args[i] != other);
        unnamed_options_have_no_value(args, i + 1, name, other);
    }
}

/// The database and the input to start from are where the arguments say, or at
/// their usual places where none says so.
pub proof fn paths_are_given_or_usual(args: Seq<Seq<char>>, k: int)
    ensures
        0 <= k < args.len() - 1 && (args[k] == "--db"@ || args[k] == "--database"@) && (forall|j: int|
            0 <= j < k ==> #[trigger] args[j] != "--db"@ && args[j] != "--database"@)
            ==> database_path(args) == args[k + 1],
        (forall|j: int|
            0 <= j < args.len() - 1 ==> #[trigger] args[j] != "--db"@ && args[j] != "--database"@)
            ==> database_path(args) == "data/local.sqlite"@,
        0 <= k < args.len() - 1 && args[k] == "--demo"@ && (forall|j: int|
            0 <= j < k ==> #[trigger] args[j] != "--demo"@) ==> demo_path(args) == args[k + 1],
        (forall|j: int| 0 <= j < args.len() - 1 ==> #[trigger] args[j] != "--demo"@) ==> demo_path(
            args,
        ) == "data/demo.jsonl"@,
{
    if 0 <= k < args.len() - 1 && (args[k] == "--db"@ || args[k] == "--database"@) && (forall|
        j: int,
    |
        0 <= j < k ==> #[trigger] args[j] != "--db"@ && args[j] != "--database"@) {
        options_are_behind_their_names(args, 0, "--db"@, "--database"@, k);
    }
    if forall|j: int|
        0 <= j < args.len() - 1 ==> #[trigger] args[j] != "--db"@ && args[j] != "--database"@ {
        unnamed_options_have_no_value(args, 0, "--db"@, "--database"@);
    }
    if 0 <= k < args.len() - 1 && args[k] == "--demo"@ && (forall|j: int|
        0 <= j < k ==> #[trigger] args[j] != "--demo"@) {
        options_are_behind_their_names(args, 0, "--demo"@, "--demo"@, k);
    }
    if forall|j: int| 0 <= j < args.len() - 1 ==> #[trigger] args[j] != "--demo"@ {
        unnamed_options_have_no_value(args, 0, "--demo"@, "--demo"@);
    }
}

/// What is read goes where its path says, what is posted is an action whatever
/// its path, and nothing else goes anywhere.
pub proof fn pages_are_told_by_method_and_path(q: Request)
    ensures
        web_route_of(q) == WebRoute::Action <==> q.method@ == "POST"@,
        web_route_of(q) == WebRoute::Page <==> q.method@ == "GET"@ && q.path@ == "/"@,
        web_route_of(q) == WebRoute::Script <==> q.method@ == "GET"@ && q.path@ == "/app.js"@,
        web_route_of(q) == WebRoute::State <==> q.method@ == "GET"@ && q.path@ == "/api/state"@,
        web_route_of(q) == WebRoute::Sets <==> q.method@ == "GET"@ && q.path@ == "/api/sets"@,
        web_route_of(q) is OneSet <==> q.method@ == "GET"@ && q.path@ == "/api/set"@ && asked_set(
            q.target@,
        ) is Some,
        web_route_of(q) == WebRoute::SetWithoutId <==> q.method@ == "GET"@ && q.path@ == "/api/set"@
            && asked_set(q.target@) is None,
{
    reveal_strlit("GET");
    reveal_strlit("POST");
    reveal_strlit("/");
    reveal_strlit("/app.js");
    reveal_strlit("/api/state");
    reveal_strlit("/api/sets");
    reveal_strlit("/api/set");
    assert("GET"@.len() == 3 && "POST"@.len() == 4);
    assert("/"@.len() == 1 && "/app.js"@.len() == 7 && "/api/state"@.len() == 10);
    assert("/api/sets"@.len() == 9 && "/api/set"@.len() == 8);
}

/// An action is refused with one of two answers: that nothing is there, or that
/// it was badly asked.
pub proof fn refusals_have_two_answers(code: u16)
    ensures
        refusal_status(404) == "404 Not Found"@,
        code != 404 ==> refusal_status(code) == "400 Bad Request"@,
{
}

/// A pick is noise unless the body says that it is not; a lock and its release
/// name a hypothesis and an observation.
pub proof fn actions_are_of_their_bodies(path: Seq<char>, v: JsonView, r: Result<Action, Refusal>)
    requires
        action_asked(path, v, r),
    ensures
        path == "/api/import"@ ==> (r is Ok <==> text_field(v, "jsonl"@) is Some),
        path == "/api/lock"@ || path == "/api/unlock"@ ==> (r is Ok <==> text_field(
            v,
            "hypothesis_id"@,
        ) is Some && text_field(v, "observation_id"@) is Some),
        path == "/api/noise"@ ==> (r is Ok <==> text_field(v, "observation_id"@) is Some),
        path == "/api/recompute"@ ==> (r is Ok <==> text_field(v, "hypothesis_id"@) is Some),
        r matches Ok(Action::Import { jsonl }) ==> path == "/api/import"@ && text_field(v, "jsonl"@)
            == Some(jsonl@),
        r matches Ok(Action::Lock { hypothesis, observation, event_key }) ==> path == "/api/lock"@
            && text_field(v, "hypothesis_id"@) == Some(hypothesis@) && text_field(
            v,
            "observation_id"@,
        ) == Some(observation@) && text_field(v, "event_key"@) == optional(event_key),
        r matches Ok(Action::Unlock { hypothesis, observation }) ==> path == "/api/unlock"@
            && text_field(v, "hypothesis_id"@) == Some(hypothesis@) && text_field(
            v,
            "observation_id"@,
        ) == Some(observation@),
        r matches Ok(Action::Noise { observation, enabled }) ==> path == "/api/noise"@
            && text_field(v, "observation_id"@) == Some(observation@) && (enabled <==> as_bool(
            field(v, "noise"@),
        ) != Some(false)),
        r matches Ok(Action::Recompute { hypothesis, correction, event_key }) ==> path
            == "/api/recompute"@ && text_field(v, "hypothesis_id"@) == Some(hypothesis@)
            && text_field(v, "correction_version"@) == optional(correction) && text_field(
            v,
            "event_key"@,
        ) == optional(event_key),
        r matches Ok(Action::Correction { version, parent, note, offsets }) ==> {
            &&& path == "/api/corrections"@
            &&& text_field(v, "version"@) == Some(version@)
            &&& text_field(v, "parent_version"@) matches Some(t) ==> parent@ == t
            &&& text_field(v, "parent_version"@) is None ==> parent@ == "v1"@
            &&& text_field(v, "note"@) matches Some(t) ==> note@ == t
            &&& text_field(v, "note"@) is None ==> note@ == "user correction"@
            &&& forall|i: int|
                0 <= i < offsets@.len() ==> (field(v, "offsets_s"@) matches Some(JsonView::Object(o))
                    && o[i].0 == (#[trigger] offsets@[i]).station@ && o[i].1 == JsonView::Number(
                    offsets@[i].number@,
                ))
        },
        r matches Err(e) ==> (e.code == 404 || e.code == 400),
{
    reveal_strlit("/api/import");
    reveal_strlit("/api/lock");
    reveal_strlit("/api/unlock");
    reveal_strlit("/api/noise");
    reveal_strlit("/api/recompute");
    reveal_strlit("/api/corrections");
    assert("/api/import"@.len() == 11 && "/api/lock"@.len() == 9 && "/api/unlock"@.len() == 11);
    assert("/api/noise"@.len() == 10 && "/api/recompute"@.len() == 14);
    assert("/api/corrections"@.len() == 16);
    assert("/api/import"@[5] == 'i' && "/api/unlock"@[5] == 'u');
}

/// An import is answered with what it came to, a computation with its solution,
/// and everything else with that it is done.
pub proof fn actions_are_answered(a: Action)
    ensures
        replied(a) == Reply::Summary <==> a is Import,
        replied(a) == Reply::Solution <==> a is Recompute,
        replied(a) == Reply::Done <==> a is Lock || a is Unlock || a is Noise || a is Correction,
{
}

} // verus!

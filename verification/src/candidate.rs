//! The candidates of the network solver: what is reported of a hypothesis
//! once it was fitted, or could not be.
use vstd::prelude::*;

use crate::association::Blueprint;
use crate::digest::{content_id, stable_id};
use crate::epoch::{format_epoch, millis, writable, written as time_written};
use crate::json::{
    entries, json_text, object, object_of, render_json, tidy, written, Json, JsonView,
};
use crate::network::SolveContext;
use crate::network_fit::{round_milli, CandidatePick};
use crate::order::sorted;
use crate::ranking::{
    conditional, doubtful, doubts_are_doubtful, finalize_ranking, kept, network_status, on_edge,
    p_arrivals, phase_tally, place_notes, place_warnings,
};
use crate::store::{maybe_text, said};
use crate::text::views;

verus! {

/// The clock of a station as a fit has it, in billionths of a second. The
/// first station is the reference.
#[derive(Debug, Clone)]
pub struct ClockEstimate {
    pub station_id: String,
    pub estimated_residual_seconds: i128,
    pub sigma_seconds: Option<i128>,
    pub reference: bool,
}

/// The depth of every candidate: places are in the plane.
pub const DEPTH_KM: i64 = 0;

/// A place where an event may be, and how sure that is. Its number tells which
/// fit it comes from. Coordinates, residuals and sigmas are billionths, rounded
/// to a thousandth; the covariance is in billionths. The score is held as JSON
/// writes it, and as a key that orders as it does.
#[derive(Debug, Clone)]
pub struct Candidate {
    pub number: usize,
    pub candidate_id: String,
    pub event_key: String,
    pub rank: usize,
    pub score: String,
    pub score_key: i64,
    pub status: String,
    pub x_km: Option<i128>,
    pub y_km: Option<i128>,
    pub depth_km: i64,
    pub origin_time: Option<String>,
    pub station_count: usize,
    pub p_count: usize,
    pub s_count: usize,
    pub azimuth_gap: Option<u64>,
    pub rms_residual_seconds: Option<i128>,
    pub warnings: Vec<String>,
    pub covariance_labels: Vec<String>,
    pub covariance: Vec<Vec<i128>>,
    pub clock_estimates: Vec<ClockEstimate>,
    pub accepted_picks: Vec<CandidatePick>,
    pub rejected_picks: Vec<CandidatePick>,
}

/// The clock of one station in a fit: its residual and sigma in billionths,
/// and the residual as the text of its number.
#[derive(Debug, Clone)]
pub struct SlotClock {
    pub residual: i64,
    pub sigma: Option<i64>,
    pub number: String,
}

/// Where a fit puts an event: in billionths and nanoseconds, and as the texts
/// of the numbers. The gap in azimuth is in thousandths of a degree. There is
/// no misfit where the fit uses no arrival. The clocks are in the order of the
/// stations. The covariance of all parameters is a square matrix in billionths,
/// row by row; the first three are the coordinates and the time.
#[derive(Debug, Clone)]
pub struct Place {
    pub x: i64,
    pub y: i64,
    pub origin: i128,
    pub x_number: String,
    pub y_number: String,
    pub origin_number: String,
    pub azimuth_gap: Option<u64>,
    pub rms: Option<i64>,
    pub clocks: Vec<SlotClock>,
    pub covariance: Vec<i128>,
    pub side: usize,
}

impl Place {
    /// Whether a place can be reported for a number of stations: each has a
    /// clock, the time can be written, and the covariance has its parts.
    pub open spec fn wf(&self, stations: nat) -> bool {
        &&& self.clocks@.len() >= stations
        &&& writable(self.origin as int)
        &&& self.side >= 3
        &&& self.covariance@.len() == self.side * self.side
    }
}

/// What is known of a fitted hypothesis besides its place.
#[derive(Debug, Clone)]
pub struct Fitted {
    pub number: usize,
    pub stations: Vec<usize>,
    pub warnings: Vec<String>,
    pub accepted: Vec<CandidatePick>,
    pub rejected: Vec<CandidatePick>,
    pub score: String,
    pub score_key: i64,
    pub seed_number: String,
}

/// What came of fitting a hypothesis.
#[derive(Debug, Clone)]
pub struct Outcome {
    pub fitted: Fitted,
    pub place: Option<Place>,
}

impl Outcome {
    /// Whether an outcome can be reported: each station is one of the context,
    /// and the place has what it takes.
    pub open spec fn fits(&self, context: SolveContext) -> bool {
        &&& match self.place {
            Some(p) => p.wf(self.fitted.stations@.len()),
            None => true,
        }
        &&& forall|i: int|
            0 <= i < self.fitted.stations@.len() ==> (#[trigger] self.fitted.stations@[i])
                < context.stations@.len()
    }
}

/// What a candidate without a place is known by.
pub open spec fn bare_identity(b: Blueprint, seed: Seq<char>) -> JsonView {
    object_of(
        seq![
            said("event"@, b.event_key@),
            ("rank"@, JsonView::Number("0"@)),
            said("status"@, "underdetermined"@),
            ("seed"@, JsonView::Number(seed)),
            ("omitted"@, maybe_text(b.omitted_station)),
        ],
    )
}

/// The numbers of some clocks.
pub open spec fn clock_numbers(v: Seq<SlotClock>) -> Seq<JsonView> {
    v.map_values(|c: SlotClock| JsonView::Number(c.number@))
}

/// What a candidate with a place is known by.
pub open spec fn placed_identity(b: Blueprint, seed: Seq<char>, p: Place) -> JsonView {
    object_of(
        seq![
            said("event"@, b.event_key@),
            ("seed"@, JsonView::Number(seed)),
            ("omitted"@, maybe_text(b.omitted_station)),
            ("x"@, JsonView::Number(p.x_number@)),
            ("y"@, JsonView::Number(p.y_number@)),
            ("origin"@, JsonView::Number(p.origin_number@)),
            ("clocks"@, JsonView::Array(clock_numbers(p.clocks@))),
        ],
    )
}

/// A text or nothing, as JSON.
fn omitted_json(t: &Option<String>) -> (r: Json)
    ensures
        r@ == maybe_text(*t),
        tidy(r@),
{
    match t {
        Some(s) => Json::Text(s.clone()),
        None => Json::Null,
    }
}

/// The id of a candidate without a place.
fn bare_id(b: &Blueprint, seed: &str) -> (r: String)
    ensures
        r@ == content_id("candidate"@, json_text(written(bare_identity(*b, seed@)))),
{
    let mut f: Vec<(String, Json)> = Vec::new();
    f.push(("event".to_owned(), Json::Text(b.event_key.clone())));
    f.push(("rank".to_owned(), Json::Number("0".to_owned())));
    f.push(("status".to_owned(), Json::Text("underdetermined".to_owned())));
    f.push(("seed".to_owned(), Json::Number(seed.to_owned())));
    f.push(("omitted".to_owned(), omitted_json(&b.omitted_station)));
    assert(entries(f@) =~= seq![
        said("event"@, b.event_key@),
        ("rank"@, JsonView::Number("0"@)),
        said("status"@, "underdetermined"@),
        ("seed"@, JsonView::Number(seed@)),
        ("omitted"@, maybe_text(b.omitted_station)),
    ]);
    let text = render_json(&object(f));
    stable_id("candidate", text.as_str())
}

/// The numbers of some clocks, as JSON.
fn clocks_json(v: &Vec<SlotClock>) -> (r: Json)
    ensures
        r@ == JsonView::Array(clock_numbers(v@)),
        tidy(r@),
{
    let mut a: Vec<Json> = Vec::new();
    let mut i: usize = 0;
    while i < v.len()
        invariant
            i <= v@.len(),
            a@.len() == i,
            forall|k: int| 0 <= k < i ==> (#[trigger] a@[k])@ == JsonView::Number(v@[k].number@),
        decreases v@.len() - i,
    {
        a.push(Json::Number(v[i].number.clone()));
        i += 1;
    }
    let j = Json::Array(a);
    assert(j@->Array_0 =~= clock_numbers(v@));
    assert forall|i: int| 0 <= i < j@->Array_0.len() implies tidy(#[trigger] j@->Array_0[i]) by {
        assert(a@[i]@ == JsonView::Number(v@[i].number@));
    }
    j
}

/// The id of a candidate with a place.
fn placed_id(b: &Blueprint, seed: &str, p: &Place) -> (r: String)
    ensures
        r@ == content_id("candidate"@, json_text(written(placed_identity(*b, seed@, *p)))),
{
    let mut f: Vec<(String, Json)> = Vec::new();
    f.push(("event".to_owned(), Json::Text(b.event_key.clone())));
    f.push(("seed".to_owned(), Json::Number(seed.to_owned())));
    f.push(("omitted".to_owned(), omitted_json(&b.omitted_station)));
    f.push(("x".to_owned(), Json::Number(p.x_number.clone())));
    f.push(("y".to_owned(), Json::Number(p.y_number.clone())));
    f.push(("origin".to_owned(), Json::Number(p.origin_number.clone())));
    f.push(("clocks".to_owned(), clocks_json(&p.clocks)));
    assert(entries(f@) =~= seq![
        said("event"@, b.event_key@),
        ("seed"@, JsonView::Number(seed@)),
        ("omitted"@, maybe_text(b.omitted_station)),
        ("x"@, JsonView::Number(p.x_number@)),
        ("y"@, JsonView::Number(p.y_number@)),
        ("origin"@, JsonView::Number(p.origin_number@)),
        ("clocks"@, JsonView::Array(clock_numbers(p.clocks@))),
    ]);
    let text = render_json(&object(f));
    stable_id("candidate", text.as_str())
}

/// What is carried over from a hypothesis to its candidate.
pub open spec fn carried(b: Blueprint, f: Fitted, c: Candidate) -> bool {
    &&& c.number == f.number
    &&& c.event_key@ == b.event_key@
    &&& c.rank == 0
    &&& c.score@ == f.score@
    &&& c.score_key == f.score_key
    &&& c.depth_km == DEPTH_KM
    &&& c.accepted_picks == f.accepted
    &&& c.rejected_picks == f.rejected
}

/// What the rows and columns of a covariance are.
pub open spec fn labels() -> Seq<Seq<char>> {
    seq!["x_km"@, "y_km"@, "origin_seconds"@]
}

/// Whether a matrix is the part of a square matrix, given row by row, that is
/// about its first three parameters.
pub open spec fn is_block(full: Seq<i128>, side: int, m: Seq<Vec<i128>>) -> bool {
    &&& m.len() == 3
    &&& forall|i: int| 0 <= i < 3 ==> (#[trigger] m[i])@.len() == 3
    &&& forall|i: int, j: int|
        0 <= i < 3 && 0 <= j < 3 ==> #[trigger] m[i]@[j] == full[i * side + j]
}

/// Three numbers in a row.
fn three_from(full: &Vec<i128>, start: usize) -> (r: Vec<i128>)
    requires
        start + 3 <= full@.len(),
    ensures
        r@.len() == 3,
        forall|j: int| 0 <= j < 3 ==> #[trigger] r@[j] == full@[start + j],
{
    let n: usize = full.len();
    assert(start + 3 <= n);
    let mut r: Vec<i128> = Vec::new();
    r.push(full[start]);
    r.push(full[start + 1]);
    r.push(full[start + 2]);
    r
}

/// The part of a square matrix, given row by row, that is about its first three
/// parameters.
pub fn covariance_block(full: &Vec<i128>, side: usize) -> (r: Vec<Vec<i128>>)
    requires
        side >= 3,
        full@.len() == side * side,
    ensures
        is_block(full@, side as int, r@),
{
    let n: usize = full.len();
    proof {
        let s = side as int;
        assert(3 * s <= s * s) by (nonlinear_arith)
            requires
                s >= 3,
        ;
        assert(3 * side <= n);
    }
    let mut r: Vec<Vec<i128>> = Vec::new();
    r.push(three_from(full, 0));
    r.push(three_from(full, side));
    r.push(three_from(full, 2 * side));
    assert forall|i: int, j: int| 0 <= i < 3 && 0 <= j < 3 implies #[trigger] r@[i]@[j]
        == full@[i * side + j] by {
        if i == 0 {
            assert(0 * side == 0) by (nonlinear_arith);
        } else if i == 1 {
            assert(1 * side == side) by (nonlinear_arith);
        }
    }
    r
}

/// What the rows and columns of a covariance are.
fn covariance_labels() -> (r: Vec<String>)
    ensures
        views(r@) == labels(),
{
    let mut r: Vec<String> = Vec::new();
    r.push("x_km".to_owned());
    r.push("y_km".to_owned());
    r.push("origin_seconds".to_owned());
    assert(views(r@) =~= labels());
    r
}

/// The candidate of a hypothesis without a fit: no coordinates are made up for
/// it.
pub open spec fn bare(b: Blueprint, f: Fitted, c: Candidate) -> bool {
    &&& carried(b, f, c)
    &&& c.candidate_id@ == content_id(
        "candidate"@,
        json_text(written(bare_identity(b, f.seed_number@))),
    )
    &&& c.status@ == "underdetermined"@
    &&& c.x_km is None
    &&& c.y_km is None
    &&& c.origin_time is None
    &&& c.station_count == 0
    &&& c.p_count == 0
    &&& c.s_count == 0
    &&& c.azimuth_gap is None
    &&& c.rms_residual_seconds is None
    &&& c.warnings == f.warnings
    &&& c.covariance_labels@.len() == 0
    &&& c.covariance@.len() == 0
    &&& c.clock_estimates@.len() == 0
}

/// A number of billionths, rounded to a thousandth.
pub open spec fn rounded(v: int) -> int {
    millis(v) * 1_000_000
}

/// The clock that a candidate tells of a station.
pub open spec fn estimated(
    context: SolveContext,
    station: usize,
    clock: SlotClock,
    slot: int,
    e: ClockEstimate,
) -> bool {
    &&& e.station_id@ == context.stations@[station as int].station_id@
    &&& e.estimated_residual_seconds == rounded(clock.residual as int)
    &&& e.reference == (slot == 0)
    &&& match e.sigma_seconds {
        Some(s) => slot > 0 && clock.sigma is Some && s == rounded(clock.sigma->0 as int),
        None => slot == 0 || clock.sigma is None,
    }
}

/// The candidate of a hypothesis with a fit.
pub open spec fn placed(
    context: SolveContext,
    b: Blueprint,
    f: Fitted,
    p: Place,
    c: Candidate,
) -> bool {
    let notes = views(f.warnings@) + place_notes(
        context.model,
        p.x as int,
        p.y as int,
        p.azimuth_gap,
    );
    &&& carried(b, f, c)
    &&& c.candidate_id@ == content_id(
        "candidate"@,
        json_text(written(placed_identity(b, f.seed_number@, p))),
    )
    &&& views(c.warnings@) == notes
    &&& c.status@ == if conditional(notes) {
        "conditional"@
    } else {
        "reliable"@
    }
    &&& c.x_km == Some(rounded(p.x as int) as i128)
    &&& c.y_km == Some(rounded(p.y as int) as i128)
    &&& match c.origin_time {
        Some(t) => time_written(millis(p.origin as int), t@),
        None => false,
    }
    &&& c.station_count == f.stations@.len()
    &&& c.p_count == p_arrivals(f.accepted@)
    &&& c.p_count + c.s_count == f.accepted@.len()
    &&& c.azimuth_gap == p.azimuth_gap
    &&& c.rms_residual_seconds == match p.rms {
        Some(v) => Some(rounded(v as int) as i128),
        None => None,
    }
    &&& views(c.covariance_labels@) == labels()
    &&& is_block(p.covariance@, p.side as int, c.covariance@)
    &&& c.clock_estimates@.len() == f.stations@.len()
    &&& forall|i: int|
        0 <= i < f.stations@.len() ==> estimated(
            context,
            f.stations@[i],
            p.clocks@[i],
            i,
            #[trigger] c.clock_estimates@[i],
        )
}

/// The clocks that a candidate tells of.
fn clock_estimates(context: &SolveContext, stations: &Vec<usize>, clocks: &Vec<SlotClock>) -> (r:
    Vec<ClockEstimate>)
    requires
        clocks@.len() >= stations@.len(),
        forall|i: int| 0 <= i < stations@.len() ==> (#[trigger] stations@[i]) < context.stations@.len(),
    ensures
        r@.len() == stations@.len(),
        forall|i: int|
            0 <= i < stations@.len() ==> estimated(
                *context,
                stations@[i],
                clocks@[i],
                i,
                #[trigger] r@[i],
            ),
{
    let mut r: Vec<ClockEstimate> = Vec::new();
    let mut i: usize = 0;
    while i < stations.len()
        invariant
            i <= stations@.len(),
            clocks@.len() >= stations@.len(),
            forall|k: int|
                0 <= k < stations@.len() ==> (#[trigger] stations@[k]) < context.stations@.len(),
            r@.len() == i,
            forall|k: int|
                0 <= k < i ==> estimated(
                    *context,
                    stations@[k],
                    clocks@[k],
                    k,
                    #[trigger] r@[k],
                ),
        decreases stations@.len() - i,
    {
        let sigma_seconds: Option<i128> = if i == 0 {
            None
        } else {
            match clocks[i].sigma {
                Some(s) => Some(round_milli(s as i128)),
                None => None,
            }
        };
        r.push(
            ClockEstimate {
                station_id: context.stations[stations[i]].station_id.clone(),
                estimated_residual_seconds: round_milli(clocks[i].residual as i128),
                sigma_seconds,
                reference: i == 0,
            },
        );
        i += 1;
    }
    r
}

/// Reports a hypothesis: with its place where it has one.
pub fn into_candidate(
    context: &SolveContext,
    blueprint: &Blueprint,
    fitted: Fitted,
    place: Option<Place>,
) -> (r: Candidate)
    requires
        match place {
            Some(p) => p.wf(fitted.stations@.len()),
            None => true,
        },
        forall|i: int|
            0 <= i < fitted.stations@.len() ==> (#[trigger] fitted.stations@[i])
                < context.stations@.len(),
    ensures
        match place {
            None => bare(*blueprint, fitted, r),
            Some(p) => placed(*context, *blueprint, fitted, p, r),
        },
{
    match place {
        None => Candidate {
            number: fitted.number,
            candidate_id: bare_id(blueprint, fitted.seed_number.as_str()),
            event_key: blueprint.event_key.clone(),
            rank: 0,
            score: fitted.score,
            score_key: fitted.score_key,
            status: "underdetermined".to_owned(),
            x_km: None,
            y_km: None,
            depth_km: DEPTH_KM,
            origin_time: None,
            station_count: 0,
            p_count: 0,
            s_count: 0,
            azimuth_gap: None,
            rms_residual_seconds: None,
            warnings: fitted.warnings,
            covariance_labels: Vec::new(),
            covariance: Vec::new(),
            clock_estimates: Vec::new(),
            accepted_picks: fitted.accepted,
            rejected_picks: fitted.rejected,
        },
        Some(p) => {
            let candidate_id = placed_id(blueprint, fitted.seed_number.as_str(), &p);
            let warnings = place_warnings(
                &context.model,
                p.x,
                p.y,
                p.azimuth_gap,
                fitted.warnings,
            );
            let status = network_status(&warnings);
            let (p_count, s_count) = phase_tally(&fitted.accepted);
            let estimates = clock_estimates(context, &fitted.stations, &p.clocks);
            Candidate {
                number: fitted.number,
                candidate_id,
                event_key: blueprint.event_key.clone(),
                rank: 0,
                score: fitted.score,
                score_key: fitted.score_key,
                status: status.to_owned(),
                x_km: Some(round_milli(p.x as i128)),
                y_km: Some(round_milli(p.y as i128)),
                depth_km: DEPTH_KM,
                origin_time: Some(format_epoch(p.origin)),
                station_count: fitted.stations.len(),
                p_count,
                s_count,
                azimuth_gap: p.azimuth_gap,
                rms_residual_seconds: match p.rms {
                    Some(v) => Some(round_milli(v as i128)),
                    None => None,
                },
                warnings,
                covariance_labels: covariance_labels(),
                covariance: covariance_block(&p.covariance, p.side),
                clock_estimates: estimates,
                accepted_picks: fitted.accepted,
                rejected_picks: fitted.rejected,
            }
        },
    }
}

/// The parameter of a fit that holds the clock of a station slot: the
/// reference has none, nor has a slot beyond the parameters of the fit.
pub open spec fn slot_parameter(slot: int, dimension: int) -> Option<int> {
    if slot > 0 && slot + 2 < dimension {
        Some(slot + 2)
    } else {
        None
    }
}

/// The parameter of a fit that holds the clock of a station slot.
pub fn clock_parameter(slot: usize, dimension: usize) -> (r: Option<usize>)
    ensures
        match r {
            Some(p) => slot_parameter(slot as int, dimension as int) == Some(p as int),
            None => slot_parameter(slot as int, dimension as int) is None,
        },
        match r {
            Some(p) => slot > 0 && p == slot + 2 && p < dimension,
            None => slot == 0 || slot + 2 >= dimension,
        },
{
    if slot > 0 && dimension > 2 && slot < dimension - 2 {
        Some(slot + 2)
    } else {
        None
    }
}

/// What is reported of a hypothesis.
pub open spec fn reported(
    context: SolveContext,
    b: Blueprint,
    o: Outcome,
    c: Candidate,
) -> bool {
    match o.place {
        None => bare(b, o.fitted, c),
        Some(p) => placed(context, b, o.fitted, p, c),
    }
}

/// Reports the hypotheses of a network, given what came of fitting each, and
/// keeps the best of each event.
pub fn report_candidates(
    context: &SolveContext,
    blueprints: &Vec<Blueprint>,
    outcomes: Vec<Outcome>,
) -> (r: Vec<Candidate>)
    requires
        outcomes@.len() == blueprints@.len(),
        forall|i: int| 0 <= i < outcomes@.len() ==> (#[trigger] outcomes@[i]).fits(*context),
    ensures
        exists|all: Seq<Candidate>|
            all.len() == outcomes@.len() && r@ == kept(sorted(all)) && forall|i: int|
                0 <= i < all.len() ==> reported(
                    *context,
                    blueprints@[i],
                    outcomes@[i],
                    #[trigger] all[i],
                ),
{
    let ghost whole = outcomes@;
    let n: usize = outcomes.len();
    let mut rest = outcomes;
    let mut all: Vec<Candidate> = Vec::new();
    let mut i: usize = 0;
    assert(whole.skip(0) =~= whole);
    while rest.len() > 0
        invariant
            n == whole.len(),
            i <= n,
            whole.len() == blueprints@.len(),
            forall|k: int| 0 <= k < whole.len() ==> (#[trigger] whole[k]).fits(*context),
            rest@ == whole.skip(i as int),
            all@.len() == i,
            forall|k: int|
                0 <= k < i ==> reported(*context, blueprints@[k], whole[k], #[trigger] all@[k]),
        decreases rest@.len(),
    {
        let o = rest.remove(0);
        assert(o == whole[i as int]);
        assert(rest@ =~= whole.skip(i + 1));
        assert(whole[i as int].fits(*context));
        all.push(into_candidate(context, &blueprints[i], o.fitted, o.place));
        i += 1;
    }
    let ghost listed = all@;
    let r = finalize_ranking(all);
    assert(r@ == kept(sorted(listed)));
    r
}

/// A candidate has coordinates exactly when it is not underdetermined.
pub proof fn no_made_up_coordinates(
    context: SolveContext,
    b: Blueprint,
    f: Fitted,
    place: Option<Place>,
    c: Candidate,
)
    requires
        match place {
            None => bare(b, f, c),
            Some(p) => placed(context, b, f, p, c),
        },
    ensures
        c.status@ == "underdetermined"@ <==> c.x_km is None,
        c.x_km is None <==> c.y_km is None,
        c.x_km is None <==> c.origin_time is None,
        c.x_km is None <==> c.covariance@.len() == 0,
        c.x_km is None <==> c.covariance_labels@.len() == 0,
        c.x_km is None ==> c.azimuth_gap is None && c.rms_residual_seconds is None,
        c.depth_km == 0,
{
    reveal_strlit("underdetermined");
    reveal_strlit("conditional");
    reveal_strlit("reliable");
    assert("underdetermined"@.len() == 15);
    assert("conditional"@.len() == 11);
    assert("reliable"@.len() == 8);
    assert(views(c.covariance_labels@).len() == c.covariance_labels@.len());
}

/// A candidate that is said to lie outside the velocity model, or that lies on
/// its edge, is conditional.
pub proof fn places_outside_are_conditional(
    context: SolveContext,
    b: Blueprint,
    f: Fitted,
    p: Place,
    c: Candidate,
)
    requires
        placed(context, b, f, p, c),
        views(f.warnings@).contains("solution_outside_velocity_model"@) || on_edge(
            context.model,
            p.x as int,
            p.y as int,
        ),
    ensures
        c.status@ == "conditional"@,
{
    let said = views(f.warnings@);
    let notes = said + place_notes(context.model, p.x as int, p.y as int, p.azimuth_gap);
    doubts_are_doubtful();
    if said.contains("solution_outside_velocity_model"@) {
        let i = choose|i: int|
            0 <= i < said.len() && said[i] == "solution_outside_velocity_model"@;
        assert(doubtful(notes[i]));
    } else {
        assert(notes.last() == "solution_on_velocity_model_boundary"@);
        assert(doubtful(notes[notes.len() - 1]));
    }
}

/// A reliable candidate has no warning of a place outside or on the edge of the
/// velocity model, of a wide gap, or of too little to determine it.
pub proof fn reliable_candidates_are_unquestioned(
    context: SolveContext,
    b: Blueprint,
    f: Fitted,
    p: Place,
    c: Candidate,
)
    requires
        placed(context, b, f, p, c),
        c.status@ == "reliable"@,
    ensures
        !views(c.warnings@).contains("solution_outside_velocity_model"@),
        !views(c.warnings@).contains("solution_on_velocity_model_boundary"@),
        !views(c.warnings@).contains("azimuthal_gap_greater_than_180_degrees"@),
        !views(c.warnings@).contains("no_positive_degrees_of_freedom"@),
        !views(c.warnings@).contains("fewer_than_three_stations"@),
        !views(c.warnings@).contains("fewer_than_three_p_arrivals"@),
        !views(c.warnings@).contains("shared_clock_bias_not_identifiable_single_event"@),
        !views(c.warnings@).contains("shared_clock_bias_not_identifiable"@),
        !views(c.warnings@).contains("shared_clock_joint_hessian_rank_deficient"@),
{
    reveal_strlit("conditional");
    reveal_strlit("reliable");
    assert("conditional"@.len() == 11);
    assert("reliable"@.len() == 8);
    doubts_are_doubtful();
    let notes = views(c.warnings@);
    assert forall|i: int| 0 <= i < notes.len() implies !doubtful(#[trigger] notes[i]) by {}
}

} // verus!

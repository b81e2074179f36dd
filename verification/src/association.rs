//! Which arrivals go with which event: the hypotheses to be fitted, and the
//! arrivals that each of them takes or leaves.
use vstd::prelude::*;

use crate::decimal::{padded, padded_text};
use crate::model::Phase;
use crate::network::{
    centers, cluster_centers, corrected, make_observations, observations_are, observations_wf,
    order_bad, phase_order_bad, placed_below, seeds, EventLock, Pick, PickObservation, PickStatus,
    SolveContext, PHASE_GAP, SEED_GAP,
};
use crate::order::{distinct, names};
use crate::text::{concat2, same, views};

verus! {

/// A hypothesis: an event that starts at a time, with all stations or without
/// one of them.
#[derive(Debug, Clone)]
pub struct Blueprint {
    pub event_key: String,
    pub seed_time: i128,
    pub omitted_station: Option<String>,
}

/// The contents of a [`Blueprint`].
#[verifier::ext_equal]
pub struct Plan {
    pub event_key: Seq<char>,
    pub seed_time: int,
    pub omitted_station: Option<Seq<char>>,
}

impl View for Blueprint {
    type V = Plan;

    open spec fn view(&self) -> Plan {
        Plan {
            event_key: self.event_key@,
            seed_time: self.seed_time as int,
            omitted_station: match self.omitted_station {
                Some(s) => Some(s@),
                None => None,
            },
        }
    }
}

/// The contents of a list of hypotheses.
pub open spec fn plans(v: Seq<Blueprint>) -> Seq<Plan> {
    v.map_values(|b: Blueprint| b@)
}

/// The distance between two times.
pub open spec fn apart(a: int, b: int) -> int {
    if a < b {
        b - a
    } else {
        a - b
    }
}

/// The stations of the P arrivals in use near a time, in the order of the
/// observations.
pub open spec fn near_stations(
    picks: Seq<Pick>,
    v: Seq<PickObservation>,
    seed_time: int,
) -> Seq<Seq<char>>
    decreases v.len(),
{
    if v.len() == 0 {
        Seq::empty()
    } else {
        let rest = near_stations(picks, v.drop_last(), seed_time);
        let o = v.last();
        if seeds(picks, o) && apart(o.observed_epoch as int, seed_time) <= SEED_GAP {
            rest.push(picks[o.pick_index as int].station_id@)
        } else {
            rest
        }
    }
}

/// The stations of the P arrivals in use near a time, each once, in rising
/// order.
pub fn station_set_for_cluster(
    picks: &Vec<Pick>,
    observations: &Vec<PickObservation>,
    seed_time: i128,
) -> (r: Vec<String>)
    requires
        corrected(seed_time as int),
        forall|i: int|
            0 <= i < observations@.len() ==> (#[trigger] observations@[i]).pick_index < picks@.len()
                && corrected(observations@[i].observed_epoch as int),
    ensures
        views(r@) == names(near_stations(picks@, observations@, seed_time as int)),
{
    let mut ids: Vec<String> = Vec::new();
    let mut i: usize = 0;
    assert(observations@.take(0) =~= Seq::<PickObservation>::empty());
    assert(views(ids@) =~= Seq::<Seq<char>>::empty());
    while i < observations.len()
        invariant
            i <= observations@.len(),
            corrected(seed_time as int),
            forall|j: int|
                0 <= j < observations@.len() ==> (#[trigger] observations@[j]).pick_index
                    < picks@.len() && corrected(observations@[j].observed_epoch as int),
            views(ids@) == near_stations(picks@, observations@.take(i as int), seed_time as int),
        decreases observations@.len() - i,
    {
        let o: PickObservation = observations[i];
        let ghost before = ids@;
        assert(observations@.take(i + 1).drop_last() =~= observations@.take(i as int));
        assert(observations@[i as int].pick_index < picks@.len());
        let pick = &picks[o.pick_index];
        let dt: i128 = if o.observed_epoch < seed_time {
            seed_time - o.observed_epoch
        } else {
            o.observed_epoch - seed_time
        };
        if pick.phase == Phase::P && pick.status != PickStatus::Noise && dt <= SEED_GAP {
            ids.push(pick.station_id.clone());
            assert(views(ids@) =~= views(before).push(pick.station_id@));
        }
        i += 1;
    }
    assert(observations@.take(i as int) =~= observations@);
    distinct(&ids)
}

/// The key of the event with a number, counted from one.
pub open spec fn network_event_key(number: nat) -> Seq<char> {
    "event-"@ + padded(number, 3)
}

/// The hypotheses of one event: with all stations, then without each.
pub open spec fn variants(key: Seq<char>, seed: int, stations: Seq<Seq<char>>) -> Seq<Plan> {
    seq![Plan { event_key: key, seed_time: seed, omitted_station: None }] + stations.map_values(
        |s: Seq<char>| Plan { event_key: key, seed_time: seed, omitted_station: Some(s) },
    )
}

/// The hypotheses of the first `n` events.
pub open spec fn plans_below(
    picks: Seq<Pick>,
    v: Seq<PickObservation>,
    seeds: Seq<i128>,
    n: int,
) -> Seq<Plan>
    decreases n,
{
    if n <= 0 {
        Seq::empty()
    } else {
        plans_below(picks, v, seeds, n - 1) + variants(
            network_event_key(n as nat),
            seeds[n - 1] as int,
            names(near_stations(picks, v, seeds[n - 1] as int)),
        )
    }
}

/// Adds the hypotheses of one event.
fn add_variants(r: &mut Vec<Blueprint>, key: &String, seed: i128, stations: &Vec<String>)
    ensures
        plans(final(r)@) == plans(old(r)@) + variants(key@, seed as int, views(stations@)),
{
    let ghost start = plans(r@);
    let ghost all = variants(key@, seed as int, views(stations@));
    r.push(Blueprint { event_key: key.clone(), seed_time: seed, omitted_station: None });
    let mut i: usize = 0;
    while i < stations.len()
        invariant
            i <= stations@.len(),
            all == variants(key@, seed as int, views(stations@)),
            r@.len() == start.len() + 1 + i,
            forall|k: int| 0 <= k < start.len() ==> (#[trigger] r@[k])@ == start[k],
            forall|k: int|
                start.len() <= k < r@.len() ==> (#[trigger] r@[k])@ == all[k - start.len()],
        decreases stations@.len() - i,
    {
        let b = Blueprint {
            event_key: key.clone(),
            seed_time: seed,
            omitted_station: Some(stations[i].clone()),
        };
        assert(views(stations@)[i as int] == stations@[i as int]@);
        assert(b@ == all[i + 1]);
        r.push(b);
        i += 1;
    }
    assert(plans(r@) =~= start + all);
}

/// The hypotheses to be fitted.
pub fn blueprints(
    picks: &Vec<Pick>,
    observations: &Vec<PickObservation>,
    seeds: &Vec<i128>,
) -> (r: Vec<Blueprint>)
    requires
        forall|i: int| 0 <= i < seeds@.len() ==> corrected((#[trigger] seeds@[i]) as int),
        forall|i: int|
            0 <= i < observations@.len() ==> (#[trigger] observations@[i]).pick_index < picks@.len()
                && corrected(observations@[i].observed_epoch as int),
    ensures
        plans(r@) == plans_below(picks@, observations@, seeds@, seeds@.len() as int),
{
    let mut r: Vec<Blueprint> = Vec::new();
    let n: usize = seeds.len();
    let mut i: usize = 0;
    assert(plans(r@) =~= Seq::<Plan>::empty());
    while i < n
        invariant
            i <= n,
            n == seeds@.len(),
            forall|j: int| 0 <= j < seeds@.len() ==> corrected((#[trigger] seeds@[j]) as int),
            forall|j: int|
                0 <= j < observations@.len() ==> (#[trigger] observations@[j]).pick_index
                    < picks@.len() && corrected(observations@[j].observed_epoch as int),
            plans(r@) == plans_below(picks@, observations@, seeds@, i as int),
        decreases n - i,
    {
        let seed: i128 = seeds[i];
        assert(corrected(seeds@[i as int] as int));
        let stations = station_set_for_cluster(picks, observations, seed);
        let key = concat2("event-", padded_text((i + 1) as u64, 3).as_str());
        add_variants(&mut r, &key, seed, &stations);
        i += 1;
    }
    r
}

/// The event that a pick is locked to, if it is.
pub open spec fn locked_to(locks: Seq<EventLock>, id: Seq<char>) -> Option<Seq<char>>
    decreases locks.len(),
{
    if locks.len() == 0 {
        None
    } else if locks[0].pick_id@ == id {
        Some(locks[0].event_key@)
    } else {
        locked_to(locks.drop_first(), id)
    }
}

/// The event that a pick is locked to.
fn lock_of<'a>(locks: &'a Vec<EventLock>, id: &str) -> (r: Option<&'a str>)
    ensures
        match r {
            Some(key) => locked_to(locks@, id@) == Some(key@),
            None => locked_to(locks@, id@) is None,
        },
{
    let mut i: usize = 0;
    assert(locks@.skip(0) =~= locks@);
    while i < locks.len()
        invariant
            i <= locks@.len(),
            locked_to(locks@, id@) == locked_to(locks@.skip(i as int), id@),
        decreases locks@.len() - i,
    {
        let ghost t = locks@.skip(i as int);
        assert(t[0] == locks@[i as int]);
        if same(locks[i].pick_id.as_str(), id) {
            return Some(locks[i].event_key.as_str());
        }
        assert(t.drop_first() =~= locks@.skip(i + 1));
        i += 1;
    }
    None
}

/// Whether an arrival is at a time at which a phase of an event can be.
pub open spec fn in_window(phase: Phase, dt: int) -> bool {
    match phase {
        Phase::P => -SEED_GAP <= dt <= SEED_GAP,
        Phase::S => 0 <= dt <= PHASE_GAP,
    }
}

/// Whether a hypothesis takes an observation.
pub open spec fn takes(context: SolveContext, b: Plan, o: PickObservation) -> bool {
    let pick = context.picks@[o.pick_index as int];
    if pick.status == PickStatus::Noise {
        false
    } else {
        match locked_to(context.locks@, pick.pick_id@) {
            Some(key) => key == b.event_key,
            None => b.omitted_station != Some(pick.station_id@) && in_window(
                pick.phase,
                o.observed_epoch - b.seed_time,
            ),
        }
    }
}

/// Why a hypothesis leaves an observation, if it does.
pub open spec fn leaves(context: SolveContext, b: Plan, o: PickObservation) -> Option<Seq<char>> {
    let picks = context.picks@;
    let pick = picks[o.pick_index as int];
    if pick.status == PickStatus::Noise {
        Some("marked_as_noise"@)
    } else if order_bad(picks, pick.pick_id@, picks.len() as int) {
        Some("s_arrival_before_station_p"@)
    } else if takes(context, b, o) {
        None
    } else if locked_to(context.locks@, pick.pick_id@) is Some {
        Some("locked_to_other_candidate"@)
    } else if b.omitted_station == Some(pick.station_id@) {
        Some("omitted_by_alternative_hypothesis"@)
    } else {
        Some("outside_association_window"@)
    }
}

/// Whether a station is the one that a hypothesis does without.
fn omits(b: &Blueprint, station: &str) -> (r: bool)
    ensures
        r == (b@.omitted_station == Some(station@)),
{
    match &b.omitted_station {
        Some(s) => same(s.as_str(), station),
        None => false,
    }
}

/// Whether a hypothesis takes an observation.
pub fn assigned_to_blueprint(
    context: &SolveContext,
    blueprint: &Blueprint,
    obs: &PickObservation,
) -> (r: bool)
    requires
        corrected(blueprint.seed_time as int),
        corrected(obs.observed_epoch as int),
        obs.pick_index < context.picks@.len(),
    ensures
        r == takes(*context, blueprint@, *obs),
{
    let pick = &context.picks[obs.pick_index];
    if pick.status == PickStatus::Noise {
        return false;
    }
    match lock_of(&context.locks, pick.pick_id.as_str()) {
        Some(key) => same(key, blueprint.event_key.as_str()),
        None => {
            let dt: i128 = obs.observed_epoch - blueprint.seed_time;
            !omits(blueprint, pick.station_id.as_str()) && match pick.phase {
                Phase::P => dt >= -SEED_GAP && dt <= SEED_GAP,
                Phase::S => dt >= 0 && dt <= PHASE_GAP,
            }
        },
    }
}

/// Why a hypothesis leaves an observation, if it does.
pub fn leave_reason(
    context: &SolveContext,
    blueprint: &Blueprint,
    obs: &PickObservation,
) -> (r: Option<&'static str>)
    requires
        context.wf(),
        corrected(blueprint.seed_time as int),
        corrected(obs.observed_epoch as int),
        obs.pick_index < context.picks@.len(),
    ensures
        match r {
            Some(reason) => leaves(*context, blueprint@, *obs) == Some(reason@),
            None => leaves(*context, blueprint@, *obs) is None,
        },
{
    let pick = &context.picks[obs.pick_index];
    if pick.status == PickStatus::Noise {
        Some("marked_as_noise")
    } else if phase_order_bad(&context.picks, pick.pick_id.as_str()) {
        Some("s_arrival_before_station_p")
    } else if assigned_to_blueprint(context, blueprint, obs) {
        None
    } else if lock_of(&context.locks, pick.pick_id.as_str()).is_some() {
        Some("locked_to_other_candidate")
    } else if omits(blueprint, pick.station_id.as_str()) {
        Some("omitted_by_alternative_hypothesis")
    } else {
        Some("outside_association_window")
    }
}

/// An observation that a hypothesis leaves, and why.
#[derive(Debug, Clone)]
pub struct LeftPick {
    pub observation: PickObservation,
    pub reason: String,
}

/// The contents of a [`LeftPick`].
pub open spec fn left(l: LeftPick) -> (PickObservation, Seq<char>) {
    (l.observation, l.reason@)
}

/// The contents of a list of observations that were left.
pub open spec fn all_left(v: Seq<LeftPick>) -> Seq<(PickObservation, Seq<char>)> {
    v.map_values(|l: LeftPick| left(l))
}

/// The observations that a hypothesis takes.
pub open spec fn taken(context: SolveContext, b: Plan, v: Seq<PickObservation>) -> Seq<
    PickObservation,
>
    decreases v.len(),
{
    if v.len() == 0 {
        v
    } else {
        let rest = taken(context, b, v.drop_last());
        if leaves(context, b, v.last()) is None {
            rest.push(v.last())
        } else {
            rest
        }
    }
}

/// The observations that a hypothesis leaves, with the reasons.
pub open spec fn untaken(context: SolveContext, b: Plan, v: Seq<PickObservation>) -> Seq<
    (PickObservation, Seq<char>),
>
    decreases v.len(),
{
    if v.len() == 0 {
        Seq::empty()
    } else {
        let rest = untaken(context, b, v.drop_last());
        match leaves(context, b, v.last()) {
            Some(reason) => rest.push((v.last(), reason)),
            None => rest,
        }
    }
}

/// Sorts the observations into those that a hypothesis takes and those that
/// it leaves.
pub fn triage(
    context: &SolveContext,
    blueprint: &Blueprint,
    observations: &Vec<PickObservation>,
) -> (r: (Vec<PickObservation>, Vec<LeftPick>))
    requires
        context.wf(),
        corrected(blueprint.seed_time as int),
        observations_wf(*context, observations@),
    ensures
        r.0@ == taken(*context, blueprint@, observations@),
        all_left(r.1@) == untaken(*context, blueprint@, observations@),
        observations_wf(*context, r.0@),
{
    let mut assigned: Vec<PickObservation> = Vec::new();
    let mut rejected: Vec<LeftPick> = Vec::new();
    let mut i: usize = 0;
    assert(observations@.take(0) =~= Seq::<PickObservation>::empty());
    assert(all_left(rejected@) =~= Seq::<(PickObservation, Seq<char>)>::empty());
    while i < observations.len()
        invariant
            i <= observations@.len(),
            context.wf(),
            corrected(blueprint.seed_time as int),
            observations_wf(*context, observations@),
            assigned@ == taken(*context, blueprint@, observations@.take(i as int)),
            all_left(rejected@) == untaken(*context, blueprint@, observations@.take(i as int)),
            observations_wf(*context, assigned@),
        decreases observations@.len() - i,
    {
        let o: PickObservation = observations[i];
        let ghost before = rejected@;
        assert(observations@.take(i + 1).drop_last() =~= observations@.take(i as int));
        assert(observations@[i as int].pick_index < context.picks@.len());
        match leave_reason(context, blueprint, &o) {
            Some(reason) => {
                let item = LeftPick { observation: o, reason: reason.to_owned() };
                rejected.push(item);
                assert(all_left(rejected@) =~= all_left(before).push(left(item)));
            },
            None => {
                assigned.push(o);
            },
        }
        i += 1;
    }
    assert(observations@.take(i as int) =~= observations@);
    (assigned, rejected)
}

/// A hypothesis either takes an observation or leaves it for one reason: none
/// is lost.
pub proof fn triage_loses_nothing(context: SolveContext, b: Plan, v: Seq<PickObservation>)
    ensures
        taken(context, b, v).len() + untaken(context, b, v).len() == v.len(),
    decreases v.len(),
{
    if v.len() > 0 {
        triage_loses_nothing(context, b, v.drop_last());
    }
}

/// A pick that is locked to an event, and neither noise nor out of order, is
/// taken by every hypothesis of that event and by no other.
pub proof fn locked_picks_follow_their_event(
    context: SolveContext,
    b: Plan,
    o: PickObservation,
    key: Seq<char>,
)
    requires
        locked_to(context.locks@, context.picks@[o.pick_index as int].pick_id@) == Some(key),
        context.picks@[o.pick_index as int].status != PickStatus::Noise,
        !order_bad(
            context.picks@,
            context.picks@[o.pick_index as int].pick_id@,
            context.picks@.len() as int,
        ),
    ensures
        leaves(context, b, o) is None <==> b.event_key == key,
{
}

/// The hypotheses start at the times of their events.
proof fn plans_start_with_events(
    picks: Seq<Pick>,
    v: Seq<PickObservation>,
    seeds: Seq<i128>,
    n: int,
)
    requires
        0 <= n <= seeds.len(),
        forall|i: int| 0 <= i < seeds.len() ==> corrected((#[trigger] seeds[i]) as int),
    ensures
        forall|i: int|
            0 <= i < plans_below(picks, v, seeds, n).len() ==> corrected(
                (#[trigger] plans_below(picks, v, seeds, n)[i]).seed_time,
            ),
    decreases n,
{
    if n > 0 {
        plans_start_with_events(picks, v, seeds, n - 1);
        let before = plans_below(picks, v, seeds, n - 1);
        let all = plans_below(picks, v, seeds, n);
        assert(corrected(seeds[n - 1] as int));
        assert forall|i: int| 0 <= i < all.len() implies corrected((#[trigger] all[i]).seed_time) by {
            if i < before.len() {
                assert(all[i] == before[i]);
            } else {
                assert(all[i].seed_time == seeds[n - 1]);
            }
        }
    }
}

/// Whether these are the observations of a context and the hypotheses to be
/// fitted to them.
pub open spec fn network_planned(
    context: SolveContext,
    observations: Seq<PickObservation>,
    hypotheses: Seq<Blueprint>,
) -> bool {
    let seeds = centers(context.picks@, observations);
    &&& observations_are(
        context,
        placed_below(context, context.picks@.len() as int),
        observations,
    )
    &&& observations_wf(context, observations)
    &&& plans(hypotheses) == plans_below(context.picks@, observations, seeds, seeds.len() as int)
    &&& forall|i: int|
        0 <= i < hypotheses.len() ==> corrected((#[trigger] hypotheses[i]).seed_time as int)
}

/// The observations of a context and the hypotheses to be fitted to them.
pub fn plan_network(context: &SolveContext) -> (r: (Vec<PickObservation>, Vec<Blueprint>))
    requires
        context.wf(),
    ensures
        network_planned(*context, r.0@, r.1@),
{
    let observations = make_observations(context);
    assert forall|i: int| 0 <= i < observations@.len() implies (
    #[trigger] observations@[i]).pick_index < context.picks@.len() && corrected(
        observations@[i].observed_epoch as int,
    ) by {}
    let seeds = cluster_centers(&context.picks, &observations);
    let list = blueprints(&context.picks, &observations, &seeds);
    proof {
        plans_start_with_events(context.picks@, observations@, seeds@, seeds@.len() as int);
        assert forall|i: int| 0 <= i < list@.len() implies corrected(
            (#[trigger] list@[i]).seed_time as int,
        ) by {
            assert(plans(list@)[i].seed_time == list@[i].seed_time);
        }
    }
    (observations, list)
}

/// Every event is first tried with all its stations.
pub proof fn first_plan_omits_nothing(
    picks: Seq<Pick>,
    v: Seq<PickObservation>,
    seeds: Seq<i128>,
    n: int,
)
    requires
        0 < n <= seeds.len(),
    ensures
        ({
            let before = plans_below(picks, v, seeds, n - 1).len();
            let all = plans_below(picks, v, seeds, n);
            all[before as int] == (Plan {
                event_key: network_event_key(n as nat),
                seed_time: seeds[n - 1] as int,
                omitted_station: None,
            }) && all.len() == before + 1 + names(
                near_stations(picks, v, seeds[n - 1] as int),
            ).len()
        }),
{
}

} // verus!

//! Locating one event: which picks take part, which parameters are solved
//! for, and how the fits that come back are judged and ranked.
use vstd::prelude::*;

use crate::cluster::climbing;
use crate::decimal::{whole, whole_text};
use crate::model::{
    find_lock, find_model, find_station, lock_ids, model_versions, pick_ids, station_ids,
    LayerRecord, Phase, Pick, SolverInput, UNIT,
};
use crate::order::{distinct, names, rising};
use crate::solver_types::{
    reject, rejection, rejections, EventWindow, Observation, RejectedPick, Rejection,
};
use crate::text::{concat2, concat3, same, views};

verus! {

/// The top of a velocity model.
pub open spec fn model_top(layers: Seq<LayerRecord>) -> int {
    if layers.len() == 0 {
        0
    } else {
        layers[0].depth_top_m as int
    }
}

/// The bottom of a velocity model.
pub open spec fn model_bottom(layers: Seq<LayerRecord>) -> int {
    if layers.len() == 0 {
        0
    } else {
        layers.last().depth_bottom_m as int
    }
}

/// Whether a depth is outside a velocity model by more than a metre.
pub open spec fn outside(layers: Seq<LayerRecord>, depth: int) -> bool {
    depth + UNIT < model_top(layers) || depth - UNIT > model_bottom(layers)
}

/// Whether a layer reaches down to a depth, within a metre.
pub open spec fn reaches(layer: LayerRecord, depth: int) -> bool {
    depth <= layer.depth_bottom_m + UNIT
}

/// The layer at a depth: the first that reaches down to it, else the last.
pub open spec fn layer_at(layers: Seq<LayerRecord>, depth: int, from: int) -> int
    decreases layers.len() - from,
{
    if from >= layers.len() - 1 || reaches(layers[from], depth) {
        from
    } else {
        layer_at(layers, depth, from + 1)
    }
}

/// The speed of a phase in a layer.
pub open spec fn layer_speed(layer: LayerRecord, phase: Phase) -> i64 {
    match phase {
        Phase::P => layer.vp_m_s,
        Phase::S => layer.pub_vs_m_s,
    }
}

/// What is said of a depth outside the model.
pub open spec fn outside_text(layers: Seq<LayerRecord>, depth: int) -> Seq<char> {
    "source depth "@ + whole(depth) + " m is outside velocity model ["@ + whole(model_top(layers))
        + ", "@ + whole(model_bottom(layers)) + "] m"@
}

/// The speed of a phase at a depth. A model without layers has no speed at
/// any depth that it does not refuse.
pub fn velocity(layers: &Vec<LayerRecord>, depth: i64, phase: Phase) -> (r: Result<i64, String>)
    requires
        layers@.len() > 0 || outside(layers@, depth as int),
    ensures
        match r {
            Ok(v) => !outside(layers@, depth as int) && v == layer_speed(
                layers@[layer_at(layers@, depth as int, 0)],
                phase,
            ),
            Err(m) => outside(layers@, depth as int) && m@ == outside_text(layers@, depth as int),
        },
{
    let n: usize = layers.len();
    let top: i64 = if n == 0 {
        0
    } else {
        layers[0].depth_top_m
    };
    let bottom: i64 = if n == 0 {
        0
    } else {
        layers[n - 1].depth_bottom_m
    };
    let d: i128 = depth as i128;
    if d + (UNIT as i128) < top as i128 || d - (UNIT as i128) > bottom as i128 {
        let from = concat2("source depth ", whole_text(depth).as_str());
        let start = concat3(
            from.as_str(),
            " m is outside velocity model [",
            whole_text(top).as_str(),
        );
        let both = concat3(start.as_str(), ", ", whole_text(bottom).as_str());
        return Err(concat2(both.as_str(), "] m"));
    }
    let mut i: usize = 0;
    while i < n - 1 && d > layers[i].depth_bottom_m as i128 + UNIT as i128
        invariant
            n == layers@.len(),
            n > 0,
            i <= n - 1,
            d == depth,
            layer_at(layers@, depth as int, 0) == layer_at(layers@, depth as int, i as int),
        decreases n - i,
    {
        i += 1;
    }
    Ok(
        match phase {
            Phase::P => layers[i].vp_m_s,
            Phase::S => layers[i].pub_vs_m_s,
        },
    )
}

/// The layer at a depth inside the model reaches down to it, and none above
/// does.
pub proof fn layer_at_is_first(layers: Seq<LayerRecord>, depth: int, from: int)
    requires
        0 <= from < layers.len(),
        depth - UNIT <= model_bottom(layers),
    ensures
        from <= layer_at(layers, depth, from) < layers.len(),
        reaches(layers[layer_at(layers, depth, from)], depth),
        forall|i: int|
            from <= i < layer_at(layers, depth, from) ==> !reaches(#[trigger] layers[i], depth),
    decreases layers.len() - from,
{
    if from >= layers.len() - 1 || reaches(layers[from], depth) {
    } else {
        layer_at_is_first(layers, depth, from + 1);
    }
}

/// Why a pick cannot take part in locating an event, if it cannot.
pub open spec fn missing(input: SolverInput, pick: Pick) -> Option<Seq<char>> {
    if !station_ids(input.stations@).contains(pick.station_id@) {
        Some("station record is missing"@)
    } else if !model_versions(input.models@).contains(pick.model_version@) {
        Some("velocity model version is missing"@)
    } else {
        None
    }
}

/// The picks that can take part.
pub open spec fn usable(input: SolverInput, ids: Seq<usize>) -> Seq<usize>
    decreases ids.len(),
{
    if ids.len() == 0 {
        ids
    } else {
        let rest = usable(input, ids.drop_last());
        if missing(input, input.picks@[ids.last() as int]) is None {
            rest.push(ids.last())
        } else {
            rest
        }
    }
}

/// The picks that cannot take part, with the reasons.
pub open spec fn unusable(input: SolverInput, ids: Seq<usize>) -> Seq<Rejection>
    decreases ids.len(),
{
    if ids.len() == 0 {
        Seq::empty()
    } else {
        let rest = unusable(input, ids.drop_last());
        let pick = input.picks@[ids.last() as int];
        match missing(input, pick) {
            Some(reason) => rest.push(rejection(pick, reason)),
            None => rest,
        }
    }
}

/// The pick at a position, with its station.
pub open spec fn observed(input: SolverInput, k: usize, o: Observation) -> bool {
    &&& o.pick == input.picks@[k as int]
    &&& input.stations@.contains(o.station)
    &&& o.station.id@ == o.pick.station_id@
    &&& o.locked == lock_ids(input.locked@).contains(o.pick.id@)
}

/// The picks at some positions, with their stations.
pub open spec fn all_observed(input: SolverInput, ids: Seq<usize>, v: Seq<Observation>) -> bool {
    &&& v.len() == ids.len()
    &&& forall|i: int| 0 <= i < ids.len() ==> observed(input, #[trigger] ids[i], v[i])
}

/// The picks of a list of observations.
pub open spec fn observed_ids(v: Seq<Observation>) -> Seq<Seq<char>> {
    v.map_values(|o: Observation| o.pick.id@)
}

/// The stations of a list of observations.
pub open spec fn observed_stations(v: Seq<Observation>) -> Seq<Seq<char>> {
    v.map_values(|o: Observation| o.pick.station_id@)
}

/// The usable picks are some of those given, in their order.
proof fn usable_climbs(input: SolverInput, ids: Seq<usize>)
    requires
        climbing(ids),
    ensures
        climbing(usable(input, ids)),
        usable(input, ids).len() <= ids.len(),
        forall|i: int|
            0 <= i < usable(input, ids).len() ==> ids.contains(#[trigger] usable(input, ids)[i]),
    decreases ids.len(),
{
    if ids.len() > 0 {
        let t = ids.drop_last();
        let u = usable(input, t);
        let r = usable(input, ids);
        assert(climbing(t)) by {
            assert forall|i: int, j: int| 0 <= i < j < t.len() implies (#[trigger] t[i])
                < (#[trigger] t[j]) by {
                assert(ids[i] < ids[j]);
            }
        }
        usable_climbs(input, t);
        assert forall|i: int| 0 <= i < r.len() implies ids.contains(#[trigger] r[i]) by {
            if i < u.len() {
                assert(r[i] == u[i]);
                let k = choose|k: int| 0 <= k < t.len() && t[k] == u[i];
                assert(ids[k] == r[i]);
            } else {
                assert(ids[ids.len() - 1] == r[i]);
            }
        }
        assert forall|i: int, j: int| 0 <= i < j < r.len() implies (#[trigger] r[i]) < (
        #[trigger] r[j]) by {
            if j < u.len() {
                assert(u[i] < u[j]);
            } else {
                assert(r[i] == u[i]);
                let k = choose|k: int| 0 <= k < t.len() && t[k] == u[i];
                assert(ids[k] < ids[ids.len() - 1]);
            }
        }
    }
}

/// Observations of picks in rising order have their ids in rising order.
proof fn observed_rise(input: SolverInput, ids: Seq<usize>, v: Seq<Observation>)
    requires
        input.wf(),
        climbing(ids),
        forall|i: int| 0 <= i < ids.len() ==> (#[trigger] ids[i]) < input.picks@.len(),
        all_observed(input, ids, v),
    ensures
        rising(observed_ids(v)),
{
    let names = observed_ids(v);
    let all = pick_ids(input.picks@);
    assert forall|i: int, j: int| 0 <= i < j < names.len() implies crate::order::text_lt(
        #[trigger] names[i],
        #[trigger] names[j],
    ) by {
        assert(ids[i] < ids[j]);
        assert(observed(input, ids[i], v[i]) && observed(input, ids[j], v[j]));
        assert(names[i] == all[ids[i] as int] && names[j] == all[ids[j] as int]);
    }
}

/// The observations of a window, in the order of their ids, and the picks
/// that cannot take part.
pub fn gather(input: &SolverInput, window: &EventWindow) -> (r: (
    Vec<Observation>,
    Vec<RejectedPick>,
))
    requires
        input.wf(),
        climbing(window.picks@),
        forall|i: int|
            0 <= i < window.picks@.len() ==> (#[trigger] window.picks@[i]) < input.picks@.len(),
    ensures
        all_observed(*input, usable(*input, window.picks@), r.0@),
        rising(observed_ids(r.0@)),
        rejections(r.1@) == unusable(*input, window.picks@),
{
    let mut observations: Vec<Observation> = Vec::new();
    let mut rejected: Vec<RejectedPick> = Vec::new();
    let ghost ids = window.picks@;
    assert(ids.take(0) =~= Seq::<usize>::empty());
    assert(rejections(rejected@) =~= Seq::<Rejection>::empty());
    let mut i: usize = 0;
    while i < window.picks.len()
        invariant
            i <= ids.len(),
            ids == window.picks@,
            forall|j: int| 0 <= j < ids.len() ==> (#[trigger] ids[j]) < input.picks@.len(),
            all_observed(*input, usable(*input, ids.take(i as int)), observations@),
            rejections(rejected@) == unusable(*input, ids.take(i as int)),
        decreases ids.len() - i,
    {
        let k: usize = window.picks[i];
        let pick = &input.picks[k];
        let ghost before = rejected@;
        let ghost seen = observations@;
        let ghost t = ids.take(i + 1);
        assert(t.drop_last() =~= ids.take(i as int));
        assert(t.last() == k);
        match find_station(&input.stations, pick.station_id.as_str()) {
            None => {
                let item = reject(pick, "station record is missing");
                rejected.push(item);
                assert(rejections(rejected@) =~= rejections(before).push(item@));
            },
            Some(s) => {
                assert(station_ids(input.stations@)[s as int] == pick.station_id@);
                match find_model(&input.models, pick.model_version.as_str()) {
                    None => {
                        let item = reject(pick, "velocity model version is missing");
                        rejected.push(item);
                        assert(rejections(rejected@) =~= rejections(before).push(item@));
                    },
                    Some(m) => {
                        assert(model_versions(input.models@)[m as int] == pick.model_version@);
                        let locked = match find_lock(&input.locked, pick.id.as_str()) {
                            Some(l) => {
                                assert(lock_ids(input.locked@)[l as int] == pick.id@);
                                true
                            },
                            None => false,
                        };
                        let o = Observation {
                            pick: pick.clone(),
                            station: input.stations[s].clone(),
                            locked,
                        };
                        observations.push(o);
                        proof {
                            let u = usable(*input, ids.take(i as int));
                            assert(usable(*input, t) == u.push(k));
                            assert(observed(*input, k, o));
                            assert forall|j: int| 0 <= j < u.push(k).len() implies observed(
                                *input,
                                #[trigger] u.push(k)[j],
                                observations@[j],
                            ) by {
                                if j < u.len() {
                                    assert(observed(*input, u[j], seen[j]));
                                }
                            }
                        }
                    },
                }
            },
        }
        i += 1;
    }
    proof {
        assert(ids.take(i as int) =~= ids);
        usable_climbs(*input, ids);
        let u = usable(*input, ids);
        assert forall|j: int| 0 <= j < u.len() implies (#[trigger] u[j]) < input.picks@.len() by {
            assert(ids.contains(u[j]));
        }
        observed_rise(*input, u, observations@);
    }
    (observations, rejected)
}

/// The stations of the observations, in rising order.
pub fn station_list(observations: &Vec<Observation>) -> (r: Vec<String>)
    ensures
        views(r@) == names(observed_stations(observations@)),
{
    let mut all: Vec<String> = Vec::new();
    let mut i: usize = 0;
    while i < observations.len()
        invariant
            i <= observations@.len(),
            all@.len() == i,
            forall|j: int|
                0 <= j < i ==> (#[trigger] all@[j])@ == observations@[j].pick.station_id@,
        decreases observations@.len() - i,
    {
        all.push(observations[i].pick.station_id.clone());
        i += 1;
    }
    assert(views(all@) =~= observed_stations(observations@));
    distinct(&all)
}

/// The position of the velocity model of the first observation.
pub fn model_layers(input: &SolverInput, observations: &Vec<Observation>) -> (r: Option<usize>)
    ensures
        match r {
            Some(m) => observations@.len() > 0 && m < input.models@.len()
                && input.models@[m as int].version@ == observations@[0].pick.model_version@,
            None => observations@.len() == 0 || !model_versions(input.models@).contains(
                observations@[0].pick.model_version@,
            ),
        },
{
    if observations.len() == 0 {
        None
    } else {
        find_model(&input.models, observations[0].pick.model_version.as_str())
    }
}

/// How many observations are of a phase.
pub open spec fn phase_count(v: Seq<Observation>, phase: Phase) -> nat
    decreases v.len(),
{
    if v.len() == 0 {
        0
    } else {
        phase_count(v.drop_last(), phase) + if v.last().pick.phase == phase {
            1nat
        } else {
            0nat
        }
    }
}

/// How many observations there are of each phase that occurs.
#[derive(Debug, Clone, Copy)]
pub struct PhaseCount {
    pub phase: Phase,
    pub count: usize,
}

/// The counts of the phases that occur, P before S.
pub open spec fn phase_counts_of(v: Seq<Observation>) -> Seq<PhaseCount> {
    let p = phase_count(v, Phase::P);
    let s = phase_count(v, Phase::S);
    let first = if p > 0 {
        seq![PhaseCount { phase: Phase::P, count: p as usize }]
    } else {
        Seq::empty()
    };
    if s > 0 {
        first.push(PhaseCount { phase: Phase::S, count: s as usize })
    } else {
        first
    }
}

/// Counts the observations of each phase.
pub fn phase_counts(observations: &Vec<Observation>) -> (r: Vec<PhaseCount>)
    ensures
        r@ == phase_counts_of(observations@),
        phase_count(observations@, Phase::P) + phase_count(observations@, Phase::S)
            == observations@.len(),
{
    let mut p: usize = 0;
    let mut s: usize = 0;
    let n: usize = observations.len();
    let mut i: usize = 0;
    assert(observations@.take(0) =~= Seq::<Observation>::empty());
    while i < n
        invariant
            n == observations@.len(),
            i <= n,
            p == phase_count(observations@.take(i as int), Phase::P),
            s == phase_count(observations@.take(i as int), Phase::S),
            p + s == i,
        decreases n - i,
    {
        assert(observations@.take(i + 1).drop_last() =~= observations@.take(i as int));
        match observations[i].pick.phase {
            Phase::P => {
                p += 1;
            },
            Phase::S => {
                s += 1;
            },
        }
        i += 1;
    }
    assert(observations@.take(i as int) =~= observations@);
    let mut r: Vec<PhaseCount> = Vec::new();
    if p > 0 {
        r.push(PhaseCount { phase: Phase::P, count: p });
    }
    if s > 0 {
        r.push(PhaseCount { phase: Phase::S, count: s });
    }
    assert(r@ =~= phase_counts_of(observations@));
    r
}

/// The names of the parameters: the source, the origin time and the clock
/// bias of each station but the first, which the others are measured against.
pub open spec fn parameters(stations: Seq<Seq<char>>) -> Seq<Seq<char>> {
    seq!["x_m"@, "y_m"@, "depth_m"@, "origin_time"@] + stations.skip(1).map_values(
        |s: Seq<char>| "bias:"@ + s,
    )
}

/// The names of the parameters of an event at the given stations.
pub fn parameter_names(stations: &Vec<String>) -> (r: Result<Vec<String>, String>)
    ensures
        match r {
            Ok(v) => stations@.len() > 0 && views(v@) == parameters(views(stations@)),
            Err(m) => stations@.len() == 0 && m@ == "empty event"@,
        },
{
    if stations.len() == 0 {
        return Err("empty event".to_owned());
    }
    let mut r: Vec<String> = Vec::new();
    r.push("x_m".to_owned());
    r.push("y_m".to_owned());
    r.push("depth_m".to_owned());
    r.push("origin_time".to_owned());
    let ghost all = parameters(views(stations@));
    let n: usize = stations.len();
    let mut i: usize = 1;
    while i < n
        invariant
            1 <= i <= n,
            n == stations@.len(),
            all == parameters(views(stations@)),
            r@.len() == 3 + i,
            forall|j: int| 0 <= j < r@.len() ==> (#[trigger] r@[j])@ == all[j],
        decreases n - i,
    {
        r.push(concat2("bias:", stations[i].as_str()));
        assert(views(stations@).skip(1)[i - 1] == stations@[i as int]@);
        i += 1;
    }
    assert(views(r@) =~= all);
    Ok(r)
}

/// The parameter that holds the clock bias of a station: none for the first
/// station, nor for one that takes no part.
pub fn bias_parameter(stations: &Vec<String>, station: &str) -> (r: Option<usize>)
    requires
        stations@.len() + 3 <= usize::MAX,
    ensures
        match r {
            Some(k) => 4 <= k < 3 + stations@.len() && stations@[k - 3]@ == station@ && forall|j: int|
                0 <= j < k - 3 ==> (#[trigger] stations@[j])@ != station@,
            None => (stations@.len() > 0 && stations@[0]@ == station@) || !views(
                stations@,
            ).contains(station@),
        },
{
    let mut i: usize = 0;
    while i < stations.len()
        invariant
            i <= stations@.len(),
            stations@.len() + 3 <= usize::MAX,
            forall|j: int| 0 <= j < i ==> (#[trigger] stations@[j])@ != station@,
        decreases stations@.len() - i,
    {
        if same(stations[i].as_str(), station) {
            return if i == 0 {
                None
            } else {
                Some(i + 3)
            };
        }
        i += 1;
    }
    assert(forall|j: int| 0 <= j < stations@.len() ==> views(stations@)[j] == stations@[j]@);
    None
}

/// The parameter of a station's bias bears the station's name.
pub proof fn bias_parameter_is_named(stations: Seq<Seq<char>>, i: int)
    requires
        0 < i < stations.len(),
    ensures
        parameters(stations).len() == stations.len() + 3,
        parameters(stations)[i + 3] == "bias:"@ + stations[i],
{
    assert(stations.skip(1)[i - 1] == stations[i]);
}

} // verus!

use pairwise_gsb::cluster::{cluster_picks, connected_time_same_station, link};
use pairwise_gsb::fits::{
    candidate_status, covariance_warnings, fit_warnings, hold_reason, locate_window, make_fit,
    rank_candidates, status_order, status_text, supports_fit, underdetermined_candidate,
    CovarianceSummary, Fit, Location, PickAssignment, Prediction, SourceSigma, Status,
};
use pairwise_gsb::geometry::{azimuth_gap, azimuthal_gap, local_origin, mean, spread};
use pairwise_gsb::locator::{
    bias_parameter, gather, model_layers, parameter_names, phase_counts, station_list, velocity,
};
use pairwise_gsb::mean::Mean;
use pairwise_gsb::model::{LayerRecord, Lock, Model, Phase, Pick, SolverInput, Station};
use pairwise_gsb::planner::{list_rejections, plan_windows};
use pairwise_gsb::precheck::{effective_pick_ids, station_phase_precheck};
use pairwise_gsb::seeds::candidate_seeds;
use pairwise_gsb::solve::{solve, SolverResultSet};
use pairwise_gsb::solver_types::{phase_name, reject, EventWindow, Observation, RejectedPick};
use pairwise_gsb::windows::assign_locked_picks;

const EARTH_M: f64 = 6_371_008.8;

fn unit(value: f64) -> i64 {
    (value * 1e9).round() as i64
}

fn project_xy(latitude: f64, longitude: f64, origin_lat: f64, origin_lon: f64) -> (f64, f64) {
    let lat0 = origin_lat.to_radians();
    let x = EARTH_M * (longitude.to_radians() - origin_lon.to_radians()) * lat0.cos();
    let y = EARTH_M * (latitude.to_radians() - lat0);
    (x, y)
}

fn model() -> Vec<LayerRecord> {
    let layer = |top: f64, bottom: f64, vp: f64, vs: f64| LayerRecord {
        depth_top_m: unit(top),
        depth_bottom_m: unit(bottom),
        vp_m_s: unit(vp),
        pub_vs_m_s: unit(vs),
    };
    vec![layer(0.0, 5000.0, 5500.0, 3180.0), layer(5000.0, 15000.0, 6100.0, 3530.0)]
}

fn station(id: &str, lat: f64, lon: f64, lat0: f64, lon0: f64) -> Station {
    let (x, y) = project_xy(lat, lon, lat0, lon0);
    Station {
        id: id.to_string(),
        latitude: unit(lat),
        longitude: unit(lon),
        elevation_m: 0,
        x: unit(x),
        y: unit(y),
    }
}

fn pick(id: &str, station_id: &str, phase: Phase, time: f64) -> Pick {
    Pick {
        id: id.to_string(),
        related_id: None,
        station_id: station_id.to_string(),
        phase,
        raw_time: unit(time),
        corrected_time: unit(time),
        uncertainty_s: unit(0.08),
        confidence: unit(0.95),
        source: "auto".to_string(),
        model_version: "vm".to_string(),
    }
}

fn sufficient_input() -> SolverInput {
    let origin_lat = 35.0;
    let origin_lon = 1.0;
    let coords = [
        ("S1", 35.01, 1.00),
        ("S2", 35.00, 1.02),
        ("S3", 34.99, 1.01),
        ("S4", 34.99, 0.99),
        ("S5", 35.01, 0.99),
    ];
    let mut stations = vec![];
    let mut picks = vec![];
    for (id, lat, lon) in coords {
        stations.push(station(id, lat, lon, origin_lat, origin_lon));
        let (x, y) = project_xy(lat, lon, origin_lat, origin_lon);
        let range = (x.powi(2) + y.powi(2) + 8000.0_f64.powi(2)).sqrt();
        picks.push(pick(&format!("{id}-P"), id, Phase::P, range / 6100.0));
        picks.push(pick(&format!("{id}-S"), id, Phase::S, range / 3530.0));
    }
    SolverInput {
        stations,
        models: vec![Model { version: "vm".to_string(), layers: model() }],
        picks,
        corrections: vec![],
        locked: vec![],
    }
}

fn names(v: &[&str]) -> Vec<String> {
    v.iter().map(|s| s.to_string()).collect()
}

fn covariance(names: Vec<String>) -> CovarianceSummary {
    CovarianceSummary {
        positive_definite: true,
        rank: names.len(),
        condition_number: Some(1000),
        source_sigma: SourceSigma {
            x_m: unit(500.0) as u64,
            y_m: unit(500.0) as u64,
            depth_m: unit(500.0) as u64,
            origin_time_s: unit(0.1) as u64,
        },
        correlations: vec![0; names.len().saturating_sub(4)],
        parameter_names: names,
    }
}

/// A fit that puts the source of `sufficient_input` at a depth below the
/// middle of the stations.
fn fit_at(observations: &Vec<Observation>, number: usize, depth: f64, score: i64) -> Fit {
    let predictions: Vec<Prediction> = observations
        .iter()
        .map(|o| {
            let (x, y) = (o.station.x as f64 / 1e9, o.station.y as f64 / 1e9);
            let speed = match o.pick.phase {
                Phase::P => 6100.0,
                Phase::S => 3530.0,
            };
            let range = (x.powi(2) + y.powi(2) + depth.powi(2)).sqrt();
            Prediction {
                residual_s: o.pick.corrected_time - unit(range / speed),
                weight: 900_000_000,
            }
        })
        .collect();
    let stations = station_list(observations);
    let location = Location {
        number,
        score,
        rms: 0,
        x: 0,
        y: 0,
        depth: unit(depth),
        origin_time: 0,
        azimuthal_gap: unit(100.0) as u64,
        biases: vec![],
        covariance: covariance(parameter_names(&stations).unwrap()),
    };
    make_fit(observations, &predictions, location)
}

fn fits_of(input: &SolverInput) -> Vec<Fit> {
    let (windows, _) = plan_windows(input).unwrap();
    let (observations, rejected) = gather(input, &windows[0]);
    assert!(rejected.is_empty());
    vec![
        fit_at(&observations, 0, 9000.0, 5),
        fit_at(&observations, 1, 8000.0, 9),
        fit_at(&observations, 2, 2000.0, 1),
        fit_at(&observations, 3, 7000.0, 4),
    ]
}

fn solved(input: &SolverInput) -> SolverResultSet {
    solve(input, vec![Ok(fits_of(input))]).unwrap()
}

#[test]
fn deterministic_solution_keeps_three_candidates() {
    let input = sufficient_input();
    let fits = fits_of(&input);
    let first = format!("{:?}", solved(&input));
    let second = format!("{:?}", solved(&input));
    assert_eq!(first, second);
    let result = solved(&input);
    assert_eq!(result.events.len(), 1);
    assert!(result.events[0].candidates.len() >= 3);
    assert_eq!(result.events[0].candidates[0].rank, 1);
    let number = result.events[0].candidates[0].fit.unwrap();
    let depth = fits[number].depth as f64 / 1e9;
    assert!((depth - 8000.0).abs() < 500.0);
    let order: Vec<Option<usize>> = result.events[0].candidates.iter().map(|c| c.fit).collect();
    assert_eq!(order, vec![Some(1), Some(0), Some(3)]);
    assert!(result.events[0].candidates.iter().all(|c| c.status == Status::Located));
    assert!(result.rejected.is_empty());
    assert_eq!(result.events[0].event_key, "event-01");
    assert_eq!(result.events[0].label, "E1");
    assert_eq!(result.events[0].station_count, 5);
    assert_eq!(result.events[0].pick_count, 10);
    assert_eq!(result.events[0].azimuthal_gap, unit(100.0) as u64);
}

#[test]
fn rejects_too_few_stations_without_inventing_location() {
    let mut input = sufficient_input();
    for id in ["S3", "S4", "S5"] {
        input.stations.retain(|s| s.id != id);
        input.picks.retain(|p| p.station_id != id);
    }
    let error = solve(&input, vec![]).unwrap_err();
    assert!(error.contains("at least three stations"));
}

#[test]
fn gaps_are_the_widest_angles_without_a_station() {
    let turn = |v: &[f64]| v.iter().map(|d| unit(*d) as u64).collect::<Vec<u64>>();
    assert_eq!(azimuthal_gap(vec![]), unit(360.0) as u64);
    assert_eq!(azimuthal_gap(turn(&[10.0])), unit(360.0) as u64);
    assert_eq!(azimuthal_gap(turn(&[350.0, 10.0, 100.0])), unit(250.0) as u64);
    assert_eq!(azimuthal_gap(turn(&[90.0, 0.0, 270.0, 180.0])), unit(90.0) as u64);
    assert_eq!(azimuth_gap(turn(&[10.0])), None);
    assert_eq!(azimuth_gap(turn(&[0.0, 120.0004])), Some(240_000));
    assert_eq!(azimuth_gap(turn(&[0.0, 179.9994])), Some(180_001));
}

#[test]
fn the_middle_of_stations() {
    let stations = sufficient_input().stations;
    assert_eq!(local_origin(&stations), (unit(35.0), unit(1.002)));
    assert_eq!(local_origin(&vec![]), (0, 0));
    assert_eq!(mean(&vec![1, 2, -6]), -1);
    assert_eq!(spread(&vec![0, -unit(3000.0)], 5), 5 + unit(3000.0) as i128);
    assert_eq!(spread(&vec![0], 5), unit(1000.0) as i128);
}

#[test]
fn fits_start_below_stations_and_around_their_middle() {
    let input = sufficient_input();
    let (windows, _) = plan_windows(&input).unwrap();
    let (observations, _) = gather(&input, &windows[0]);
    let seeds = candidate_seeds(&observations, &input.models[0].layers);
    assert_eq!(seeds.len(), 8);
    let first = &input.stations[0];
    assert_eq!((seeds[0].x, seeds[0].y), (first.x as i128, first.y as i128));
    assert_eq!((seeds[0].depth, seeds[1].depth), (unit(3750.0), unit(11250.0)));
    assert_eq!(seeds[2].x, input.stations[1].x as i128);
    let two = observations[..2].to_vec();
    let few = candidate_seeds(&two, &input.models[0].layers);
    let depths: Vec<i64> = few.iter().map(|s| s.depth).collect();
    assert_eq!(depths, vec![unit(3750.0), unit(11250.0), unit(5250.0), unit(12750.0)]);
    let shallow = vec![LayerRecord {
        depth_top_m: 0,
        depth_bottom_m: unit(800.0),
        vp_m_s: 2,
        pub_vs_m_s: 1,
    }];
    let close = candidate_seeds(&two, &shallow);
    assert_eq!(close.len(), 1);
    assert_eq!(close[0].depth, unit(500.0));
}

#[test]
fn each_error_of_an_input() {
    let mut input = sufficient_input();
    input.models[0].layers.clear();
    assert_eq!(solve(&input, vec![]).unwrap_err(), "velocity model has no layers");
    input.models.clear();
    assert_eq!(solve(&input, vec![]).unwrap_err(), "at least one velocity model is required");
}

#[test]
fn a_fit_that_failed_stops_the_solver() {
    let input = sufficient_input();
    let error = solve(&input, vec![Err("no inverse".to_string())]).unwrap_err();
    assert_eq!(error, "no inverse");
    let (windows, _) = plan_windows(&input).unwrap();
    let (observations, _) = gather(&input, &windows[0]);
    let mut rejected: Vec<RejectedPick> = vec![];
    let r = locate_window(&windows[0], &observations, Err("bad".to_string()), &mut rejected);
    assert_eq!(r.unwrap_err(), "bad");
    assert_eq!(rejected.len(), 10);
    assert!(rejected.iter().all(|p| p.reason == "bad"));
    let few = observations[..1].to_vec();
    let mut rejected: Vec<RejectedPick> = vec![];
    let r = locate_window(&windows[0], &few, Err("bad".to_string()), &mut rejected).unwrap();
    assert_eq!(r.candidates[2].warnings, names(&["fewer than two usable observations"]));
    assert_eq!(r.azimuthal_gap, unit(360.0) as u64);
}

#[test]
fn a_solution_without_fits_is_filled_up() {
    let input = sufficient_input();
    let result = solve(&input, vec![]).unwrap();
    assert_eq!(result.events[0].candidates.len(), 3);
    for (i, c) in result.events[0].candidates.iter().enumerate() {
        assert_eq!(c.rank, i + 1);
        assert_eq!(c.status, Status::Underdetermined);
        assert!(c.fit.is_none());
        assert_eq!(
            c.warnings,
            names(&["velocity model bounds produced fewer than three distinct local solutions"])
        );
    }
    assert_eq!(result.rejected.len(), 10);
    assert!(result
        .rejected
        .iter()
        .all(|r| r.reason == "arrival residual exceeds every candidate's support threshold"));
}

#[test]
fn manual_picks_replace_those_that_they_relate_to() {
    let mut picks = sufficient_input().picks;
    picks[1].source = "manual".to_string();
    picks[1].related_id = Some("S1-P".to_string());
    picks[3].related_id = Some("S2-P".to_string());
    assert_eq!(effective_pick_ids(&picks), vec![1, 2, 3, 4, 5, 6, 7, 8, 9]);
}

#[test]
fn arrivals_of_a_station_that_cannot_be_are_dropped() {
    let picks = vec![
        pick("a", "A", Phase::P, 0.0),
        pick("b", "A", Phase::P, 0.499),
        pick("c", "B", Phase::S, 0.0),
        pick("d", "B", Phase::P, 0.4),
        pick("e", "C", Phase::P, 0.0),
        pick("f", "C", Phase::S, 0.5),
        pick("g", "D", Phase::P, 0.0),
        pick("h", "D", Phase::S, 0.49),
        pick("i", "E", Phase::S, 0.0),
        pick("j", "E", Phase::P, 0.5),
    ];
    let ids: Vec<usize> = (0..picks.len()).collect();
    let (kept, dropped) = station_phase_precheck(&picks, &ids);
    assert_eq!(kept, vec![4, 5, 8, 9]);
    assert_eq!(dropped, vec![0, 1, 2, 3, 6, 7]);
}

#[test]
fn picks_are_linked_by_time_and_station() {
    assert!(connected_time_same_station(0, unit(0.5)));
    assert!(!connected_time_same_station(0, unit(0.499_999_999)));
    assert!(connected_time_same_station(0, unit(60.0)));
    assert!(!connected_time_same_station(0, unit(60.0) + 1));
    let p = |station: &str, phase: Phase, t: f64| pick("x", station, phase, t);
    assert!(link(&p("A", Phase::P, 0.0), &p("B", Phase::P, 12.0)));
    assert!(!link(&p("A", Phase::P, 0.0), &p("B", Phase::P, 12.1)));
    assert!(!link(&p("A", Phase::P, 0.0), &p("A", Phase::P, 1.0)));
    assert!(link(&p("A", Phase::P, 0.0), &p("A", Phase::S, 1.0)));
    assert!(!link(&p("A", Phase::P, 0.0), &p("A", Phase::S, 0.1)));
}

#[test]
fn clusters_are_chains_of_links() {
    let picks = vec![
        pick("a", "A", Phase::P, 100.0),
        pick("b", "B", Phase::P, 0.0),
        pick("c", "C", Phase::P, 11.0),
        pick("d", "D", Phase::P, 22.0),
        pick("e", "E", Phase::P, 103.0),
    ];
    let clusters = cluster_picks(&picks, &vec![0, 1, 2, 3, 4]);
    let members: Vec<Vec<usize>> = clusters.into_iter().map(|c| c.members).collect();
    assert_eq!(members, vec![vec![1, 2, 3], vec![0, 4]]);
}

#[test]
fn windows_are_planned_in_the_order_of_their_start() {
    let mut input = sufficient_input();
    input.picks = vec![
        pick("a", "S1", Phase::P, 100.0),
        pick("b", "S2", Phase::P, 101.0),
        pick("c", "S1", Phase::P, 0.0),
        pick("d", "S2", Phase::P, 1.0),
        pick("e", "S3", Phase::P, 500.0),
        pick("f", "S4", Phase::P, 0.5),
        pick("g", "S4", Phase::P, 0.6),
    ];
    let (windows, rejected) = plan_windows(&input).unwrap();
    let got: Vec<(&str, &str, Vec<usize>, i64, i64, (i128, u64))> = windows
        .iter()
        .map(|w| {
            (
                w.key.as_str(),
                w.label.as_str(),
                w.picks.clone(),
                w.min_time,
                w.max_time,
                (w.centroid_time.sum(), w.centroid_time.terms()),
            )
        })
        .collect();
    assert_eq!(
        got,
        vec![
            ("event-01", "E1", vec![2, 3], 0, unit(1.0), (1_000_000_000, 2)),
            ("event-02", "E2", vec![0, 1], unit(100.0), unit(101.0), (201_000_000_000, 2)),
        ]
    );
    let reasons: Vec<(&str, &str)> = rejected
        .iter()
        .map(|r| (r.observation_id.as_str(), r.reason.as_str()))
        .collect();
    assert_eq!(
        reasons,
        vec![
            ("f", "impossible P/S ordering or duplicate-phase interval at this station"),
            ("g", "impossible P/S ordering or duplicate-phase interval at this station"),
            ("e", "does not form a multi-station event window"),
        ]
    );
}

#[test]
fn locked_picks_move_to_their_event() {
    let picks = vec![
        pick("a", "A", Phase::P, 0.0),
        pick("b", "B", Phase::P, 1.0),
        pick("c", "C", Phase::P, 50.0),
        pick("d", "D", Phase::P, 51.0),
        pick("e", "E", Phase::P, 200.0),
    ];
    let window = |key: &str, ids: Vec<usize>, low: f64, high: f64| EventWindow {
        key: key.to_string(),
        label: "L".to_string(),
        picks: ids,
        min_time: unit(low),
        max_time: unit(high),
        centroid_time: Mean::new((unit(low) + unit(high)) as i128, 2),
    };
    let lock = |id: &str, key: &str| Lock {
        pick_id: id.to_string(),
        event_key: key.to_string(),
    };
    let windows = || {
        vec![
            window("event-01", vec![0, 1], 0.0, 1.0),
            window("event-02", vec![2, 3], 50.0, 51.0),
        ]
    };
    let mut rejected: Vec<RejectedPick> = vec![];
    let locks = vec![lock("a", "event-02"), lock("e", "gone"), lock("x", "event-01")];
    let r = assign_locked_picks(&picks, &locks, windows(), &mut rejected);
    assert_eq!(r[0].picks, vec![1]);
    assert_eq!(r[1].picks, vec![0, 2, 3, 4]);
    assert_eq!((r[1].min_time, r[1].max_time), (0, unit(200.0)));
    assert!(rejected.is_empty());
    let none = assign_locked_picks(&picks, &locks[1..2].to_vec(), vec![], &mut rejected);
    assert!(none.is_empty());
    assert_eq!(
        rejected[0].reason,
        "locked anchor event gone does not exist in this candidate set"
    );
}

#[test]
fn rejections_are_listed_once() {
    let picks = sufficient_input().picks;
    let list = list_rejections(vec![
        reject(&picks[1], "b"),
        reject(&picks[0], "b"),
        reject(&picks[1], "a"),
        reject(&picks[1], "b"),
    ]);
    let got: Vec<(&str, &str, &str, &str)> = list
        .iter()
        .map(|r| {
            (
                r.observation_id.as_str(),
                r.station_id.as_str(),
                r.phase.as_str(),
                r.reason.as_str(),
            )
        })
        .collect();
    assert_eq!(
        got,
        vec![("S1-P", "S1", "P", "b"), ("S1-S", "S1", "S", "a"), ("S1-S", "S1", "S", "b")]
    );
    assert_eq!(phase_name(Phase::S), "S");
}

#[test]
fn every_pick_is_used_or_rejected() {
    let mut input = sufficient_input();
    input.picks.push(pick("X", "S9", Phase::P, 2.0));
    input.picks.push(pick("Y", "S5", Phase::P, 900.0));
    let result = solve(&input, vec![Ok(fits_of_known(&input))]).unwrap();
    let rejected: Vec<(&str, &str)> = result
        .rejected
        .iter()
        .map(|r| (r.observation_id.as_str(), r.reason.as_str()))
        .collect();
    assert_eq!(
        rejected,
        vec![
            ("X", "station record is missing"),
            ("Y", "does not form a multi-station event window"),
        ]
    );
    assert_eq!(result.events[0].pick_count, 10);
}

#[test]
fn a_window_that_locks_leave_with_one_pick_is_not_located() {
    let mut input = sufficient_input();
    input.picks.push(pick("Y", "S4", Phase::P, 900.0));
    input.picks.push(pick("Z", "S5", Phase::P, 901.0));
    let (windows, _) = plan_windows(&input).unwrap();
    assert_eq!(windows.len(), 2);
    assert_eq!(windows[1].picks, vec![10, 11]);
    input.locked.push(Lock { pick_id: "Y".to_string(), event_key: "event-01".to_string() });
    let (windows, rejected) = plan_windows(&input).unwrap();
    assert_eq!(windows.len(), 1);
    assert!(windows[0].picks.contains(&10));
    assert!(!windows[0].picks.contains(&11));
    assert!(rejected.is_empty());
}

fn fits_of_known(input: &SolverInput) -> Vec<Fit> {
    let (windows, _) = plan_windows(input).unwrap();
    let (observations, _) = gather(input, &windows[0]);
    vec![fit_at(&observations, 0, 8000.0, 1)]
}

#[test]
fn observations_of_unknown_models_are_left_out() {
    let mut input = sufficient_input();
    input.picks[0].model_version = "none".to_string();
    input.locked.push(Lock { pick_id: "S1-S".to_string(), event_key: "event-01".to_string() });
    let (windows, _) = plan_windows(&input).unwrap();
    let (observations, rejected) = gather(&input, &windows[0]);
    assert_eq!(rejected[0].reason, "velocity model version is missing");
    assert_eq!(observations.len(), 9);
    assert!(observations[0].locked && !observations[1].locked);
    assert_eq!(observations[0].phase_name(), "S");
    assert_eq!(station_list(&observations), names(&["S1", "S2", "S3", "S4", "S5"]));
    let counts: Vec<(Phase, usize)> =
        phase_counts(&observations).iter().map(|c| (c.phase, c.count)).collect();
    assert_eq!(counts, vec![(Phase::P, 4), (Phase::S, 5)]);
    assert_eq!(model_layers(&input, &observations), Some(0));
    assert_eq!(model_layers(&input, &vec![]), None);
}

#[test]
fn speeds_are_those_of_the_layer() {
    let layers = model();
    assert_eq!(velocity(&layers, unit(-1.0), Phase::P).unwrap(), unit(5500.0));
    assert_eq!(velocity(&layers, unit(5001.0), Phase::S).unwrap(), unit(3180.0));
    assert_eq!(velocity(&layers, unit(5001.0) + 1, Phase::S).unwrap(), unit(3530.0));
    assert_eq!(velocity(&layers, unit(15001.0), Phase::P).unwrap(), unit(6100.0));
    assert_eq!(
        velocity(&layers, unit(15002.5), Phase::P).unwrap_err(),
        "source depth 15002 m is outside velocity model [0, 15000] m"
    );
    assert_eq!(
        velocity(&vec![], unit(-2.0), Phase::P).unwrap_err(),
        "source depth -2 m is outside velocity model [0, 0] m"
    );
}

#[test]
fn biases_have_parameters_but_for_the_first_station() {
    let stations = names(&["A", "B", "C"]);
    assert_eq!(
        parameter_names(&stations).unwrap(),
        names(&["x_m", "y_m", "depth_m", "origin_time", "bias:B", "bias:C"])
    );
    assert_eq!(parameter_names(&vec![]).unwrap_err(), "empty event");
    assert_eq!(bias_parameter(&stations, "A"), None);
    assert_eq!(bias_parameter(&stations, "C"), Some(5));
    assert_eq!(bias_parameter(&stations, "X"), None);
}

#[test]
fn a_pick_supports_a_fit_within_two_seconds() {
    assert!(supports_fit(false, unit(2.0)));
    assert!(supports_fit(false, -unit(2.0) - 1));
    assert!(!supports_fit(false, unit(2.0) + 2));
    assert!(supports_fit(true, unit(9.0)));
}

fn assignment(station: &str, residual: f64, weight: u64, locked: bool) -> PickAssignment {
    PickAssignment {
        observation_id: format!("{station}-P"),
        station_id: station.to_string(),
        phase: Phase::P,
        corrected_time: 0,
        residual_s: Some(unit(residual)),
        uncertainty_s: 1,
        confidence: 1,
        weight,
        locked,
        source: "auto".to_string(),
    }
}

fn good_fit() -> Fit {
    Fit {
        number: 0,
        score: 0,
        rms: 0,
        x: 0,
        y: 0,
        depth: 0,
        origin_time: 0,
        azimuthal_gap: unit(90.0) as u64,
        biases: vec![],
        covariance: covariance(names(&["x", "y", "z", "t", "bias:B", "bias:C"])),
        assignments: vec![
            assignment("A", 0.0, 1, false),
            assignment("B", 0.0, 1, false),
            assignment("C", 0.0, 1, false),
        ],
    }
}

#[test]
fn each_status_of_a_fit() {
    assert_eq!(candidate_status(&good_fit()), Status::Located);
    let mut f = good_fit();
    f.azimuthal_gap = unit(180.0) as u64 + 1;
    assert_eq!(candidate_status(&f), Status::Degraded);
    let mut f = good_fit();
    f.covariance.source_sigma.depth_m = unit(15_000.0) as u64 + 1;
    assert_eq!(candidate_status(&f), Status::Degraded);
    let mut f = good_fit();
    f.covariance.condition_number = Some(10_000_000_001);
    assert_eq!(candidate_status(&f), Status::Degraded);
    let mut f = good_fit();
    f.assignments[0] = assignment("A", 4.1, 1, false);
    assert_eq!(candidate_status(&f), Status::Degraded);
    let mut f = good_fit();
    f.covariance.rank = 5;
    assert_eq!(candidate_status(&f), Status::Underdetermined);
    let mut f = good_fit();
    f.covariance.positive_definite = false;
    assert_eq!(candidate_status(&f), Status::Underdetermined);
    let mut f = good_fit();
    f.assignments[0] = assignment("A", -4.1, 1, true);
    assert_eq!(candidate_status(&f), Status::Contradiction);
    let mut f = good_fit();
    f.assignments[0].weight = 0;
    f.assignments[1].weight = 0;
    assert_eq!(candidate_status(&f), Status::Contradiction);
    let words: Vec<&str> = [
        Status::Located,
        Status::Degraded,
        Status::Underdetermined,
        Status::Contradiction,
    ]
    .into_iter()
    .map(status_text)
    .collect();
    assert_eq!(words, vec!["located", "degraded", "underdetermined", "contradiction"]);
    assert!(status_order(Status::Located) < status_order(Status::Degraded));
    assert!(status_order(Status::Underdetermined) < status_order(Status::Contradiction));
}

#[test]
fn each_warning_of_a_fit() {
    assert!(fit_warnings(&good_fit()).is_empty());
    let mut f = good_fit();
    f.covariance.positive_definite = false;
    f.covariance.rank = 4;
    f.covariance.condition_number = Some(10_000_000_001);
    f.covariance.correlations = vec![990_000_000, 990_000_001];
    assert_eq!(
        covariance_warnings(&f.covariance),
        names(&[
            "posterior covariance is not positive definite",
            "weighted Jacobian rank 4 is below parameter count 6",
            "covariance condition number exceeds 1e10",
            "origin time is nearly indistinguishable from bias:C",
        ])
    );
    f.azimuthal_gap = unit(200.25) as u64;
    f.assignments = vec![assignment("A", -4.125, 0, false), assignment("B", 5.0, 1, true)];
    assert_eq!(
        fit_warnings(&f),
        names(&[
            "A-P has a 4.12 s rejected residual",
            "azimuthal gap 200.2\u{b0} exceeds 180\u{b0}",
            "covariance condition number exceeds 1e10",
            "fewer than two picks support this candidate",
            "origin time is nearly indistinguishable from bias:C",
            "posterior covariance is not positive definite",
            "weighted Jacobian rank 4 is below parameter count 6",
        ])
    );
}

#[test]
fn better_fits_come_first() {
    let input = sufficient_input();
    let (windows, _) = plan_windows(&input).unwrap();
    let (observations, _) = gather(&input, &windows[0]);
    let fit = |number: usize, score: i64, rms: i64, gap: f64| {
        let mut f = fit_at(&observations, number, 8000.0, score);
        f.rms = rms;
        f.azimuthal_gap = unit(gap) as u64;
        f
    };
    let fits = vec![fit(0, 9, 0, 190.0), fit(1, 5, 2, 90.0), fit(2, 5, 1, 90.0), fit(3, 4, 0, 90.0)];
    let order: Vec<Option<usize>> =
        rank_candidates(&observations, fits).iter().map(|c| c.fit).collect();
    assert_eq!(order, vec![Some(2), Some(1), Some(3)]);
}

#[test]
fn an_underdetermined_candidate_claims_nothing() {
    assert_eq!(hold_reason(1, 3), Some("fewer than two usable observations"));
    assert_eq!(
        hold_reason(2, 2),
        Some("fewer than three stations; source and clock terms are not separable")
    );
    assert_eq!(hold_reason(2, 3), None);
    let input = sufficient_input();
    let (windows, _) = plan_windows(&input).unwrap();
    let (observations, _) = gather(&input, &windows[0]);
    let c = underdetermined_candidate(2, &observations, "why");
    assert_eq!((c.rank, c.status), (2, Status::Underdetermined));
    assert!(c.fit.is_none());
    assert_eq!(c.covariance.parameter_names, names(&["origin_time"]));
    assert_eq!(c.station_bias.len(), 5);
    assert!(c.assignments.iter().all(|a| a.weight == 0 && a.residual_s.is_none()));
    assert_eq!(c.warnings, names(&["why"]));
}

#[test]
fn means_are_told_apart_without_rounding() {
    let third = Mean::new(10, 3);
    let quarter = Mean::new(13, 4);
    assert_eq!((third.sum(), third.terms()), (10, 3));
    assert!(third.compare_to(&quarter, 4) < 0);
    assert!(third.compare_to(&quarter, 3) > 0);
    assert!(quarter.compare_to(&third, 3) < 0);
    assert_eq!(Mean::new(-1, 2).compare_to(&Mean::new(1, 2), 0), 0);
    assert_eq!(Mean::new(20, 6).compare_to(&third, -5), 0);
    assert!(Mean::new(i64::MIN as i128, 1).compare_to(&Mean::new(-3, 2), i64::MAX) > 0);
}

#[test]
fn a_tied_pick_without_its_event_goes_to_the_nearer_mean() {
    let mut picks = vec![
        pick("a", "A", Phase::P, 0.0),
        pick("b", "B", Phase::P, 0.0),
        pick("c", "C", Phase::P, 0.0),
        pick("d", "D", Phase::P, 0.0),
    ];
    for (index, time) in [0, 1, 5, 3].iter().enumerate() {
        picks[index].corrected_time = *time;
    }
    let window = |key: &str, ids: Vec<usize>, sum: i128| EventWindow {
        key: key.to_string(),
        label: "L".to_string(),
        picks: ids.clone(),
        min_time: 0,
        max_time: 5,
        centroid_time: Mean::new(sum, ids.len() as u64),
    };
    let locks = vec![Lock { pick_id: "d".to_string(), event_key: "gone".to_string() }];
    let windows = vec![window("event-01", vec![0, 1], 1), window("event-02", vec![2], 5)];
    let mut rejected: Vec<RejectedPick> = vec![];
    let r = assign_locked_picks(&picks, &locks, windows, &mut rejected);
    assert_eq!((r[0].picks.clone(), r[1].picks.clone()), (vec![0, 1], vec![2, 3]));
    let even = vec![window("event-01", vec![0, 1], 2), window("event-02", vec![2], 5)];
    let r = assign_locked_picks(&picks, &locks, even, &mut rejected);
    assert_eq!((r[0].picks.clone(), r[1].picks.clone()), (vec![0, 1, 3], vec![2]));
    assert!(rejected.is_empty());
}

#[test]
fn all_candidates_of_an_event_list_every_observation() {
    let input = sufficient_input();
    let (windows, _) = plan_windows(&input).unwrap();
    let (observations, _) = gather(&input, &windows[0]);
    let result = solved(&input);
    assert_eq!(result.events[0].candidates.len(), 3);
    for candidate in &result.events[0].candidates {
        let listed: Vec<&str> =
            candidate.assignments.iter().map(|a| a.observation_id.as_str()).collect();
        let seen: Vec<&str> = observations.iter().map(|o| o.pick.id.as_str()).collect();
        assert_eq!(listed, seen);
    }
}

#[test]
fn a_replaced_pick_is_nowhere_in_a_result() {
    let mut input = sufficient_input();
    let mut manual = input.picks[0].clone();
    manual.id = "zz".to_string();
    manual.source = "manual".to_string();
    manual.related_id = Some(input.picks[0].id.clone());
    let replaced = input.picks[0].id.clone();
    input.picks.push(manual);
    let result = solved(&input);
    assert!(result.rejected.iter().all(|r| r.observation_id != replaced));
    for event in &result.events {
        for candidate in &event.candidates {
            let ids: Vec<&str> =
                candidate.assignments.iter().map(|a| a.observation_id.as_str()).collect();
            assert!(!ids.contains(&replaced.as_str()));
            assert!(ids.contains(&"zz"));
        }
    }
}

#[test]
fn means_of_coordinates_go_to_the_nearest_billionth() {
    assert_eq!(mean(&vec![0, 0, 2]), 1);
    assert_eq!(mean(&vec![0, 0, 1]), 0);
    assert_eq!(mean(&vec![0, 0, -1]), 0);
    assert_eq!(mean(&vec![0, 0, -2]), -1);
    assert_eq!(mean(&vec![1, 2]), 2);
    assert_eq!(mean(&vec![-1, -2]), -1);
}

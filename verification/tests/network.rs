use pairwise_gsb::association::{
    assigned_to_blueprint, blueprints, leave_reason, plan_network, station_set_for_cluster, triage,
    Blueprint,
};
use pairwise_gsb::candidate::{
    clock_parameter, covariance_block, into_candidate, Candidate, Fitted, Place, SlotClock,
};
use pairwise_gsb::digest::stable_id;
use pairwise_gsb::epoch::format_epoch;
use pairwise_gsb::model::Phase;
use pairwise_gsb::network::{
    cluster_centers, make_observation, make_observations, phase_order_bad, station_bias,
    station_index, EventLock, Pick, PickObservation, PickSource, PickStatus, Segment, SolveContext,
    Station, VelocityModel,
};
use pairwise_gsb::network_fit::{
    begin_fit, build_accepted, build_rejected, classify_accepted, empty_pick, fail_fit,
    make_candidate_pick, round_milli, score_penalty, settle_fit, sift_fit, station_slots, Draft,
};
use pairwise_gsb::outcomes::{solve_network, Attempt, Figures, Numbers};
use pairwise_gsb::ranking::{finalize_ranking, network_status, phase_tally, place_warnings};
use pairwise_gsb::shared_clocks::{
    joint_part, plan_shared_clocks, settle_joint, slot_of, verdict_warning, FitRecord, SharedPlan,
    Verdict,
};

fn unit(value: f64) -> i64 {
    (value * 1e9).round() as i64
}

fn time(seconds: f64) -> i128 {
    (seconds * 1e9).round() as i128
}

fn station(id: &str, x: f64, y: f64) -> Station {
    Station {
        station_id: id.to_string(),
        x_km: unit(x),
        y_km: unit(y),
        elevation_km: 0,
    }
}

fn model() -> VelocityModel {
    VelocityModel {
        model_id: "m".to_string(),
        vp_kms: unit(6.0),
        vs_kms: unit(3.5),
        x_min_km: unit(-20.0),
        x_max_km: unit(20.0),
        y_min_km: unit(-20.0),
        y_max_km: unit(20.0),
    }
}

fn pick(id: &str, station: &str, phase: Phase, epoch: f64) -> Pick {
    Pick {
        pick_id: id.to_string(),
        station_id: station.to_string(),
        phase,
        time: format_epoch(time(epoch)),
        epoch: time(epoch),
        sigma_seconds: unit(0.04),
        confidence: unit(0.9),
        source: PickSource::Auto,
        model_id: "m".to_string(),
        status: PickStatus::Active,
    }
}

fn context(stations: Vec<Station>, picks: Vec<Pick>) -> SolveContext {
    SolveContext {
        stations,
        model: model(),
        picks,
        segments: vec![],
        locks: vec![],
    }
}

/// Four stations and one event with a P arrival at each.
fn four_stations() -> SolveContext {
    context(
        vec![
            station("A", 0.0, 0.0),
            station("B", 10.0, 0.0),
            station("C", 0.0, 10.0),
            station("D", 10.0, 10.0),
        ],
        vec![
            pick("A-P", "A", Phase::P, 10.0),
            pick("A-S", "A", Phase::S, 11.0),
            pick("B-P", "B", Phase::P, 10.5),
            pick("C-P", "C", Phase::P, 11.0),
            pick("D-P", "D", Phase::P, 11.5),
        ],
    )
}

fn base(context: &SolveContext) -> (Vec<PickObservation>, Blueprint) {
    let (observations, mut plans) = plan_network(context);
    (observations, plans.remove(0))
}

fn ids(context: &SolveContext, v: &[PickObservation]) -> Vec<String> {
    v.iter().map(|o| context.picks[o.pick_index].pick_id.clone()).collect()
}

fn fitted(stations: Vec<usize>) -> Fitted {
    Fitted {
        number: 4,
        stations,
        warnings: vec![],
        accepted: vec![],
        rejected: vec![],
        score: "1.25".to_string(),
        score_key: 7,
        seed_number: "10.0".to_string(),
    }
}

fn slot(residual: f64, sigma: Option<f64>) -> SlotClock {
    SlotClock {
        residual: unit(residual),
        sigma: sigma.map(unit),
        number: format!("{residual:?}"),
    }
}

fn place(x: f64, y: f64, clocks: Vec<SlotClock>) -> Place {
    Place {
        x: unit(x),
        y: unit(y),
        origin: time(9.0004),
        x_number: format!("{x:?}"),
        y_number: format!("{y:?}"),
        origin_number: "9.0004".to_string(),
        azimuth_gap: Some(120_000),
        rms: Some(unit(0.0126)),
        clocks,
        covariance: (0..16).collect(),
        side: 4,
    }
}

fn attempt(number: usize, numbers: Option<Numbers>) -> Attempt {
    let key = if numbers.is_some() { number as i64 } else { i64::MAX };
    Attempt {
        numbers,
        figures: Figures {
            number,
            score: "1.5".to_string(),
            score_key: key,
            fit_key: key,
            seed_number: "1.0".to_string(),
        },
    }
}

/// The candidates of a network none of whose hypotheses can be fitted.
fn report_unfitted(context: &SolveContext) -> Vec<Candidate> {
    let (observations, plans) = plan_network(context);
    for plan in &plans {
        assert!(!begin_fit(context, plan, &observations).1);
    }
    let attempts = (0..plans.len()).map(|number| attempt(number, None)).collect();
    solve_network(context, &observations, &plans, attempts, None)
}

/// The candidates of a network whose hypotheses are all fitted where they can
/// be, with residuals that are given for the picks.
fn report_fitted(context: &SolveContext, residual: impl Fn(&str) -> i64) -> Vec<Candidate> {
    let (observations, plans) = plan_network(context);
    let attempts = plans
        .iter()
        .enumerate()
        .map(|(number, plan)| {
            let (draft, ready) = begin_fit(context, plan, &observations);
            if !ready {
                return attempt(number, None);
            }
            let off = |v: &[PickObservation]| -> Vec<i64> {
                ids(context, v).iter().map(|id| residual(id)).collect()
            };
            let first = off(&draft.observations);
            let sifted = sift_fit(context, &draft, &first);
            let last = off(&sifted.observations);
            let settled = settle_fit(context, draft, sifted, &last, 0, 0);
            let n = settled.observations.len();
            let clocks = settled.stations.iter().map(|_| slot(0.0, None)).collect();
            let numbers = Numbers {
                first,
                last,
                x: 0,
                y: 0,
                predictions: vec![time(9.0); n],
                contributions: vec![0; n],
                place: place(1.0, 2.0, clocks),
            };
            attempt(number, Some(numbers))
        })
        .collect();
    solve_network(context, &observations, &plans, attempts, None)
}

#[test]
fn two_station_network_is_reported_without_precise_coordinates() {
    let context = context(
        vec![station("S1", 0.0, 0.0), station("S2", 10.0, 0.0)],
        vec![
            pick("S1-P", "S1", Phase::P, 1.0),
            pick("S2-P", "S2", Phase::P, 2.0),
            pick("S1-S", "S1", Phase::S, 2.0),
        ],
    );
    let candidates = report_unfitted(&context);
    assert_eq!(candidates.len(), 3);
    assert!(candidates.iter().all(|candidate| candidate.x_km.is_none()));
    assert!(candidates
        .iter()
        .flat_map(|candidate| candidate.warnings.clone())
        .any(|warning| warning == "fewer_than_three_stations"));
    assert!(candidates.iter().all(|c| c.status == "underdetermined" && c.event_key == "event-001"));
    let ranks: Vec<usize> = candidates.iter().map(|c| c.rank).collect();
    assert_eq!(ranks, vec![1, 2, 3]);
    assert!(candidates[0]
        .warnings
        .contains(&"shared_clock_bias_not_identifiable_single_event".to_string()));
}

#[test]
fn stations_are_found_by_id() {
    let c = four_stations();
    assert_eq!(station_index(&c.stations, "C"), Some(2));
    assert_eq!(station_index(&c.stations, "X"), None);
}

#[test]
fn the_last_segment_that_covers_a_time_gives_the_bias() {
    let segment = |start: f64, end: Option<f64>, bias: f64| Segment {
        station_id: "A".to_string(),
        start: time(start),
        end: end.map(time),
        bias_seconds: unit(bias),
    };
    let segments = vec![segment(0.0, Some(10.0), 0.5), segment(5.0, None, 0.25)];
    assert_eq!(station_bias(&segments, "A", time(-1.0)), 0);
    assert_eq!(station_bias(&segments, "A", time(1.0)), unit(0.5));
    assert_eq!(station_bias(&segments, "A", time(5.0)), unit(0.25));
    assert_eq!(station_bias(&segments, "A", time(50.0)), unit(0.25));
    assert_eq!(station_bias(&segments[..1].to_vec(), "A", time(10.0)), 0);
    assert_eq!(station_bias(&segments, "B", time(1.0)), 0);
}

#[test]
fn observations_are_corrected_and_have_a_least_sigma() {
    let mut c = four_stations();
    c.segments.push(Segment {
        station_id: "A".to_string(),
        start: 0,
        end: None,
        bias_seconds: unit(0.5),
    });
    c.picks[0].sigma_seconds = 1;
    let o = make_observation(&c, 0).unwrap();
    assert_eq!(o.observed_epoch, time(9.5));
    assert_eq!(o.sigma_seconds, 1_000_000);
    assert_eq!(o.station_index, 0);
    c.picks[0].station_id = "X".to_string();
    assert!(make_observation(&c, 0).is_none());
    assert_eq!(make_observations(&c).len(), 4);
}

#[test]
fn an_s_arrival_shortly_before_a_p_arrival_is_out_of_order() {
    let picks = vec![
        pick("p", "A", Phase::P, 20.0),
        pick("near", "A", Phase::S, 19.0),
        pick("edge", "A", Phase::S, 5.0),
        pick("far", "A", Phase::S, 4.9),
        pick("after", "A", Phase::S, 20.0),
        pick("alone", "B", Phase::S, 19.0),
    ];
    let bad: Vec<bool> = picks.iter().map(|p| phase_order_bad(&picks, &p.pick_id)).collect();
    assert_eq!(bad, vec![false, true, true, false, false, false]);
}

#[test]
fn clusters_start_at_their_first_p_arrival_and_need_two_stations() {
    let c = context(
        vec![station("A", 0.0, 0.0), station("B", 1.0, 0.0)],
        vec![
            pick("1", "A", Phase::P, 100.0),
            pick("2", "B", Phase::P, 130.0),
            pick("3", "A", Phase::P, 160.0),
            pick("4", "A", Phase::P, 190.001),
            pick("5", "A", Phase::P, 300.0),
            pick("6", "B", Phase::P, 301.0),
            pick("7", "B", Phase::S, 10.0),
        ],
    );
    let observations = make_observations(&c);
    assert_eq!(cluster_centers(&c.picks, &observations), vec![time(100.0), time(300.0)]);
}

#[test]
fn each_event_is_tried_whole_and_without_each_station() {
    let c = four_stations();
    let (observations, plans) = plan_network(&c);
    assert_eq!(observations.len(), 5);
    let omitted: Vec<Option<String>> = plans.iter().map(|p| p.omitted_station.clone()).collect();
    let name = |s: &str| Some(s.to_string());
    assert_eq!(omitted, vec![None, name("A"), name("B"), name("C"), name("D")]);
    assert!(plans.iter().all(|p| p.event_key == "event-001" && p.seed_time == time(10.0)));
    let seeds = cluster_centers(&c.picks, &observations);
    assert_eq!(blueprints(&c.picks, &observations, &seeds).len(), 5);
    assert_eq!(
        station_set_for_cluster(&c.picks, &observations, time(41.0)),
        vec!["C".to_string(), "D".to_string()]
    );
}

#[test]
fn each_reason_for_leaving_an_observation() {
    let mut c = four_stations();
    c.picks[2].status = PickStatus::Noise;
    c.picks.push(pick("D-S", "D", Phase::S, 11.4));
    c.picks.push(pick("late", "C", Phase::S, 25.5));
    c.picks.push(pick("tied", "C", Phase::P, 500.0));
    c.picks.push(pick("away", "C", Phase::P, 10.1));
    c.locks = vec![
        EventLock { pick_id: "tied".to_string(), event_key: "event-001".to_string() },
        EventLock { pick_id: "away".to_string(), event_key: "event-002".to_string() },
    ];
    let observations = make_observations(&c);
    let whole = Blueprint {
        event_key: "event-001".to_string(),
        seed_time: time(10.0),
        omitted_station: None,
    };
    let without = Blueprint { omitted_station: Some("A".to_string()), ..whole.clone() };
    let reason = |plan: &Blueprint, i: usize| leave_reason(&c, plan, &observations[i]);
    assert_eq!(reason(&whole, 0), None);
    assert_eq!(reason(&whole, 2), Some("marked_as_noise"));
    assert_eq!(reason(&whole, 5), Some("s_arrival_before_station_p"));
    assert_eq!(reason(&whole, 6), Some("outside_association_window"));
    assert_eq!(reason(&whole, 7), None);
    assert_eq!(reason(&whole, 8), Some("locked_to_other_candidate"));
    assert_eq!(reason(&without, 0), Some("omitted_by_alternative_hypothesis"));
    assert!(assigned_to_blueprint(&c, &without, &observations[7]));
    let (taken, left) = triage(&c, &whole, &observations);
    assert_eq!(taken.len() + left.len(), observations.len());
    assert_eq!(ids(&c, &taken), vec!["A-P", "A-S", "C-P", "D-P", "tied"]);
}

#[test]
fn a_hypothesis_needs_three_stations_and_three_p_arrivals() {
    let mut c = four_stations();
    let (observations, plan) = base(&c);
    let (draft, ready) = begin_fit(&c, &plan, &observations);
    assert!(ready);
    assert_eq!(draft.stations, vec![0, 1, 2, 3]);
    assert_eq!(station_slots(&draft.observations), draft.stations);
    assert!(draft.warnings.is_empty());
    assert_eq!(
        fail_fit(draft).warnings,
        vec!["rank_deficient_or_non_positive_definite_hessian".to_string()]
    );
    c.picks[2].phase = Phase::S;
    c.picks[3].phase = Phase::S;
    let (observations, plan) = base(&c);
    let (draft, ready) = begin_fit(&c, &plan, &observations);
    assert!(!ready);
    assert_eq!(draft.warnings, vec!["fewer_than_three_p_arrivals".to_string()]);
}

#[test]
fn arrivals_beyond_four_sigma_leave_unless_they_are_locked() {
    let mut c = four_stations();
    let (observations, plan) = base(&c);
    let (draft, _) = begin_fit(&c, &plan, &observations);
    let limit = 4 * unit(0.04);
    let residuals = vec![limit, -limit, limit + 1, 0, 0];
    assert_eq!(classify_accepted(&c, &draft.observations, &residuals), vec![0, 1, 3, 4]);
    let sifted = sift_fit(&c, &draft, &residuals);
    assert!(sifted.changed && sifted.refit);
    assert_eq!(sifted.stations, vec![0, 2, 3]);
    let settled = settle_fit(&c, draft.clone(), sifted, &vec![0, 0, 0, 0], 0, 0);
    assert_eq!(settled.residual_rejections, 1);
    assert_eq!(settled.rejected[0].reason, "arrival_residual_gt_4sigma");
    assert_eq!(settled.warnings, vec!["no_positive_degrees_of_freedom".to_string()]);

    let sifted = sift_fit(&c, &draft, &residuals);
    let settled = settle_fit(&c, draft.clone(), sifted, &vec![0, limit + 1, 0, limit], 0, 0);
    assert_eq!(ids(&c, &settled.observations), vec!["A-P", "C-P", "D-P"]);
    assert_eq!(settled.stations, vec![0, 2, 3]);
    assert_eq!(settled.residual_rejections, 2);
    let out: Vec<usize> = settled.rejected.iter().map(|l| l.observation.pick_index).collect();
    assert_eq!(out, vec![1, 2]);
    let reports = build_rejected(&c, &settled.rejected);
    assert!(reports.iter().all(|p| !p.accepted));
    assert_eq!(reports[0].pick_id, "A-S");
    assert_eq!(reports[0].reason, Some("arrival_residual_gt_4sigma".to_string()));

    c.picks[2].status = PickStatus::Locked;
    let sifted = sift_fit(&c, &draft, &residuals);
    assert!(!sifted.changed && !sifted.refit);
    assert_eq!(ids(&c, &sifted.observations), ids(&c, &draft.observations));
    let settled = settle_fit(&c, draft, sifted, &residuals, unit(30.0), 0);
    assert_eq!(settled.residual_rejections, 0);
    assert!(settled.rejected.is_empty());
    assert_eq!(
        settled.warnings,
        vec![
            "no_positive_degrees_of_freedom".to_string(),
            "solution_outside_velocity_model".to_string(),
            "locked_arrival_residual_gt_4sigma".to_string(),
        ]
    );
}

#[test]
fn penalties_and_rounding() {
    assert_eq!(score_penalty(3, true), 250);
    assert_eq!(score_penalty(0, false), 0);
    assert_eq!(round_milli(1_499_999), 1_000_000);
    assert_eq!(round_milli(1_500_000), 2_000_000);
    assert_eq!(round_milli(-1_500_000), -2_000_000);
    assert_eq!(round_milli(-499_999), 0);
}

#[test]
fn arrivals_are_reported_with_their_prediction() {
    let mut c = four_stations();
    c.segments.push(Segment {
        station_id: "A".to_string(),
        start: 0,
        end: None,
        bias_seconds: unit(0.5),
    });
    let (observations, _) = base(&c);
    let p = make_candidate_pick(&c, &observations[0], time(9.4), time(6.25));
    assert_eq!(p.residual_seconds, Some(100_000_000));
    assert_eq!(p.contribution, Some(6_250_000_000));
    assert_eq!(p.observed_time, "1970-01-01T00:00:10.000Z");
    assert_eq!(p.predicted_time, "1970-01-01T00:00:09.900Z");
    assert!(p.accepted && !p.locked && p.reason.is_none());
    let all = build_accepted(&c, &observations, &vec![time(9.0); 5], &vec![0; 5]);
    let order: Vec<&str> = all.iter().map(|p| p.pick_id.as_str()).collect();
    assert_eq!(order, vec!["A-P", "A-S", "B-P", "C-P", "D-P"]);
    assert_eq!(phase_tally(&all), (4, 1));
}

#[test]
fn a_left_arrival_has_no_estimate() {
    let mut c = four_stations();
    c.picks[0].status = PickStatus::Noise;
    let (observations, plan) = base(&c);
    let (_, left) = triage(&c, &plan, &observations);
    let p = empty_pick(&c, &left[0]);
    assert_eq!(p.predicted_time, "not_estimated");
    assert_eq!(p.reason, Some("marked_as_noise".to_string()));
    assert!(p.residual_seconds.is_none() && p.contribution.is_none() && !p.accepted);
}

#[test]
fn shared_clocks_need_two_events_and_two_stations() {
    let record = |key: &str, solved: bool, score: i64, stations: &[&str]| FitRecord {
        event_key: key.to_string(),
        solved,
        score,
        stations: stations.iter().map(|s| s.to_string()).collect(),
    };
    let stations: Vec<String> = ["C", "A", "B"].iter().map(|s| s.to_string()).collect();
    let one = vec![record("e1", true, 1, &["A", "B"]), record("e1", true, 2, &["A", "B"])];
    assert!(matches!(plan_shared_clocks(&one, &stations), SharedPlan::SingleEvent));
    let unsolved = vec![record("e1", true, 1, &["A", "B"]), record("e2", false, 0, &["A", "B"])];
    assert!(matches!(plan_shared_clocks(&unsolved, &stations), SharedPlan::NotIdentifiable));
    let apart = vec![record("e1", true, 1, &["A", "B"]), record("e2", true, 1, &["B", "C"])];
    assert!(matches!(plan_shared_clocks(&apart, &stations), SharedPlan::NotIdentifiable));
    let two = vec![
        record("e2", true, 5, &["A", "B", "C"]),
        record("e1", true, 3, &["A", "B"]),
        record("e1", true, 2, &["A", "C"]),
        record("e1", true, 2, &["B", "C"]),
    ];
    match plan_shared_clocks(&two, &stations) {
        SharedPlan::Joint { primary, stations } => {
            assert_eq!(primary, vec![2, 0]);
            assert_eq!(stations, vec!["A".to_string(), "C".to_string()]);
        }
        other => panic!("{other:?}"),
    }
}

#[test]
fn each_verdict_on_shared_clocks_has_its_warning() {
    let record = FitRecord {
        event_key: "e1".to_string(),
        solved: true,
        score: 0,
        stations: vec![],
    };
    let accepted = Verdict::Accepted {
        events: vec!["e1".to_string()],
        reference: "A".to_string(),
    };
    let warning = |v: &Verdict| verdict_warning(v, &record).unwrap();
    assert_eq!(
        warning(&Verdict::SingleEvent),
        "shared_clock_bias_not_identifiable_single_event"
    );
    assert_eq!(warning(&Verdict::NotIdentifiable), "shared_clock_bias_not_identifiable");
    assert_eq!(
        warning(&Verdict::RankDeficient),
        "shared_clock_joint_hessian_rank_deficient"
    );
    assert_eq!(
        warning(&Verdict::NotBetter),
        "shared_clock_correction_rejected_by_chi_square"
    );
    assert_eq!(warning(&accepted), "shared_clock_reference:A");
    let unsolved = FitRecord { solved: false, ..record.clone() };
    assert!(verdict_warning(&accepted, &unsolved).is_none());
    let names = vec!["A".to_string(), "B".to_string()];
    assert_eq!(slot_of(&names, "B"), Some(1));
    assert_eq!(slot_of(&names, "C"), None);
}

#[test]
fn a_joint_fit_is_accepted_only_where_it_is_strictly_better() {
    let record = |key: &str, solved: bool, score: i64| FitRecord {
        event_key: key.to_string(),
        solved,
        score,
        stations: vec!["A".to_string(), "B".to_string()],
    };
    let fits =
        vec![record("e2", true, 5), record("e1", true, 3), record("e1", true, 4), record("e1", false, 1)];
    let stations: Vec<String> = ["B", "A"].iter().map(|s| s.to_string()).collect();
    let plan = plan_shared_clocks(&fits, &stations);
    let verdict = |joint| settle_joint(&plan, &fits, joint);
    assert!(matches!(verdict(None), Verdict::RankDeficient));
    assert!(matches!(verdict(Some((Some(7), Some(7)))), Verdict::NotBetter));
    assert!(matches!(verdict(Some((Some(8), Some(7)))), Verdict::NotBetter));
    assert!(matches!(verdict(Some((None, Some(7)))), Verdict::NotBetter));
    assert!(matches!(verdict(Some((Some(7), None))), Verdict::NotBetter));
    let accepted = verdict(Some((Some(6), Some(7))));
    match &accepted {
        Verdict::Accepted { events, reference } => {
            assert_eq!(events, &vec!["e1".to_string(), "e2".to_string()]);
            assert_eq!(reference, "A");
        }
        other => panic!("{other:?}"),
    }
    let shared = vec!["A".to_string(), "B".to_string()];
    for fit in &fits {
        let note = verdict_warning(&accepted, fit);
        assert_eq!(note.is_some(), fit.solved);
        assert_eq!(joint_part(fit, &accepted, &shared, &shared).is_some(), fit.solved);
        assert!(joint_part(fit, &Verdict::NotBetter, &shared, &shared).is_none());
    }
    let start = joint_part(&fits[0], &accepted, &shared, &shared).unwrap().start;
    assert_eq!(start, 3);
    assert!(matches!(settle_joint(&SharedPlan::SingleEvent, &fits, None), Verdict::SingleEvent));
    assert!(matches!(
        settle_joint(&SharedPlan::NotIdentifiable, &fits, Some((Some(1), Some(2)))),
        Verdict::NotIdentifiable
    ));
}

#[test]
fn warnings_make_a_candidate_conditional() {
    let none: Vec<String> = vec![];
    assert_eq!(network_status(&none), "reliable");
    for text in [
        "fewer_than_three_stations",
        "azimuthal_gap_greater_than_180_degrees",
        "solution_on_velocity_model_boundary",
        "solution_outside_velocity_model",
        "no_positive_degrees_of_freedom",
        "shared_clock_bias_not_identifiable",
        "shared_clock_joint_hessian_rank_deficient",
    ] {
        assert_eq!(network_status(&vec![text.to_string()]), "conditional");
    }
    assert_eq!(network_status(&vec!["shared_clock_reference:A".to_string()]), "reliable");
    let m = model();
    assert!(place_warnings(&m, 0, 0, Some(180_000), vec![]).is_empty());
    assert_eq!(
        place_warnings(&m, unit(19.701), 0, Some(180_001), vec!["w".to_string()]),
        vec![
            "w".to_string(),
            "azimuthal_gap_greater_than_180_degrees".to_string(),
            "solution_on_velocity_model_boundary".to_string(),
        ]
    );
    assert!(place_warnings(&m, unit(19.7), unit(-19.7), None, vec![]).is_empty());
}

#[test]
fn a_placed_candidate_has_coordinates_and_clocks() {
    let c = four_stations();
    let (_, plan) = base(&c);
    let p = place(
        1.23456,
        -2.5,
        vec![slot(0.0, None), slot(0.0126, Some(0.25)), slot(-0.5, None)],
    );
    let r = into_candidate(&c, &plan, fitted(vec![0, 1, 3]), Some(p));
    assert_eq!(r.status, "reliable");
    let mut outside = fitted(vec![0, 1, 3]);
    outside.warnings.push("solution_outside_velocity_model".to_string());
    let far = place(30.0, 0.0, vec![slot(0.0, None), slot(0.0, None), slot(0.0, None)]);
    assert_eq!(into_candidate(&c, &plan, outside, Some(far)).status, "conditional");
    assert_eq!(r.x_km, Some(1_235_000_000));
    assert_eq!(r.y_km, Some(-2_500_000_000));
    assert_eq!(r.depth_km, 0);
    assert_eq!(r.covariance_labels, vec!["x_km", "y_km", "origin_seconds"]);
    assert_eq!(r.covariance, vec![vec![0, 1, 2], vec![4, 5, 6], vec![8, 9, 10]]);
    assert_eq!(covariance_block(&(1..10).collect(), 3)[2], vec![7, 8, 9]);
    assert_eq!(r.origin_time, Some("1970-01-01T00:00:09.000Z".to_string()));
    assert_eq!(r.rms_residual_seconds, Some(13_000_000));
    assert_eq!((r.station_count, r.number), (3, 4));
    assert_eq!((r.score.as_str(), r.score_key, r.rank), ("1.25", 7, 0));
    let names: Vec<&str> = r.clock_estimates.iter().map(|e| e.station_id.as_str()).collect();
    assert_eq!(names, vec!["A", "B", "D"]);
    assert!(r.clock_estimates[0].reference && !r.clock_estimates[1].reference);
    assert_eq!(r.clock_estimates[1].estimated_residual_seconds, 13_000_000);
    assert_eq!(r.clock_estimates[1].sigma_seconds, Some(250_000_000));
    assert_eq!(r.clock_estimates[2].sigma_seconds, None);
    assert_eq!(
        r.candidate_id,
        stable_id(
            "candidate",
            r#"{"clocks":[0.0,0.0126,-0.5],"event":"event-001","omitted":null,"origin":9.0004,"seed":10.0,"x":1.23456,"y":-2.5}"#
        )
    );
}

#[test]
fn a_candidate_without_a_place_is_known_by_its_hypothesis() {
    let c = four_stations();
    let (_, mut plans) = plan_network(&c);
    let r = into_candidate(&c, &plans.remove(1), fitted(vec![0]), None);
    assert_eq!(r.status, "underdetermined");
    assert!(r.x_km.is_none() && r.y_km.is_none() && r.origin_time.is_none());
    assert_eq!(
        r.candidate_id,
        stable_id(
            "candidate",
            r#"{"event":"event-001","omitted":"A","rank":0,"seed":10.0,"status":"underdetermined"}"#
        )
    );
}

#[test]
fn clock_parameters_follow_the_first_three() {
    assert_eq!(clock_parameter(0, 6), None);
    assert_eq!(clock_parameter(1, 6), Some(3));
    assert_eq!(clock_parameter(3, 6), Some(5));
    assert_eq!(clock_parameter(4, 6), None);
    assert_eq!(clock_parameter(1, 3), None);
}

#[test]
fn each_event_keeps_its_best_three() {
    let c = four_stations();
    let (_, plan) = base(&c);
    let candidate = |key: &str, score: i64, x: Option<f64>| {
        let mut r = into_candidate(&c, &plan, fitted(vec![]), None);
        r.event_key = key.to_string();
        r.score_key = score;
        r.x_km = x.map(|v| time(v));
        r
    };
    let all = finalize_ranking(vec![
        candidate("b", 5, Some(1.0)),
        candidate("a", 9, None),
        candidate("b", 1, None),
        candidate("b", 5, Some(-1.0)),
        candidate("b", 7, None),
        candidate("a", 5, None),
    ]);
    let got: Vec<(&str, usize, i64, Option<i128>)> = all
        .iter()
        .map(|r| (r.event_key.as_str(), r.rank, r.score_key, r.x_km))
        .collect();
    assert_eq!(
        got,
        vec![
            ("b", 1, 1, None),
            ("a", 1, 5, None),
            ("b", 2, 5, Some(time(-1.0))),
            ("b", 3, 5, Some(time(1.0))),
            ("a", 2, 9, None),
        ]
    );
}

#[test]
fn noise_is_rejected_by_every_candidate() {
    let mut c = four_stations();
    c.picks[1].status = PickStatus::Noise;
    let id = c.picks[1].pick_id.clone();
    let candidates = report_fitted(&c, |_| 0);
    assert_eq!(candidates.len(), 3);
    assert!(candidates[0].x_km.is_some());
    for candidate in &candidates {
        assert!(candidate.accepted_picks.iter().all(|p| p.pick_id != id));
        let report = candidate.rejected_picks.iter().find(|p| p.pick_id == id).unwrap();
        assert_eq!(report.reason, Some("marked_as_noise".to_string()));
    }
}

#[test]
fn a_locked_arrival_is_in_every_located_candidate_of_its_event() {
    let mut c = four_stations();
    c.picks[0].status = PickStatus::Locked;
    let id = c.picks[0].pick_id.clone();
    c.locks.push(EventLock { pick_id: id.clone(), event_key: "event-001".to_string() });
    let far = id.clone();
    let candidates = report_fitted(&c, move |pick| if pick == far { unit(9.0) } else { 0 });
    let located: Vec<&Candidate> = candidates.iter().filter(|c| c.x_km.is_some()).collect();
    assert!(!located.is_empty());
    for candidate in located {
        let report = candidate.accepted_picks.iter().find(|p| p.pick_id == id).unwrap();
        assert!(report.locked);
        assert!(candidate
            .warnings
            .contains(&"locked_arrival_residual_gt_4sigma".to_string()));
        let all = candidate.accepted_picks.len() + candidate.rejected_picks.len();
        assert_eq!(all, c.picks.len());
    }
}

#[test]
fn a_fit_without_a_solution_says_so() {
    let c = four_stations();
    let (observations, plans) = plan_network(&c);
    let attempts = (0..plans.len()).map(|number| attempt(number, None)).collect();
    let candidates = solve_network(&c, &observations, &plans, attempts, None);
    assert_eq!(candidates[0].status, "underdetermined");
    assert!(candidates[0].x_km.is_none() && candidates[0].covariance.is_empty());
    assert_eq!(candidates[0].depth_km, 0);
    assert!(candidates.iter().any(|c| c
        .warnings
        .contains(&"rank_deficient_or_non_positive_definite_hessian".to_string())));
    assert!(candidates.iter().all(|c| c
        .warnings
        .contains(&"shared_clock_bias_not_identifiable_single_event".to_string())));
}

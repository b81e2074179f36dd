use pairwise_gsb::digest::{hash_text, stable_id};
use pairwise_gsb::json::{
    array_of_texts, canonical_json, get, get_bool, get_text, get_texts, object, parse_json,
    render_json, render_pretty, Json,
};
use pairwise_gsb::locks::{locks_to_event, merge_locks};
use pairwise_gsb::model::{LayerRecord, Phase};
use pairwise_gsb::network::{EventLock, PickSource, PickStatus, Station, VelocityModel};
use pairwise_gsb::network_records::{
    normalize_lines, parse_records, phase_text, read_phase, read_source, read_status,
    record_lines, record_type, settle_insert, source_text, take_pick, take_segment, valid_id_char,
    validate_record, ClockCorrection, NetworkRecord, PickEntry, StoredPick,
};
use pairwise_gsb::records::{
    default_confidence, default_source, default_uncertainty, ModelRecord, PickRecord,
    StationRecord, TimeValue,
};
use pairwise_gsb::store::{
    candidate_pick_row, candidate_row, in_scope, log_action, log_pick_status, log_recompute,
    new_import, plan_duplicate, plan_freeze, plan_import, plan_run, recomputed_candidate,
    repeat_import, settle_import, settle_pick_status, KnownBatch,
};

fn unit(value: f64) -> i64 {
    (value * 1e9).round() as i64
}

fn parsed(text: &str) -> Json {
    parse_json(text).unwrap()
}

fn names(v: &[&str]) -> Vec<String> {
    v.iter().map(|s| s.to_string()).collect()
}

#[test]
fn hashes_are_sha_256() {
    assert_eq!(
        hash_text("abc"),
        "ba7816bf8f01cfea414140de5dae2223b00361a396177a9cb410ff61f20015ad"
    );
    assert_eq!(
        hash_text(""),
        "e3b0c44298fc1c149afbf4c8996fb92427ae41e4649b934ca495991b7852b855"
    );
    assert_eq!(
        stable_id("import", "x"),
        "d2540e5be0943cfcabee43ea03312a5340a25541d71be4e2acf12b8f65847985"
    );
    assert_eq!(stable_id("a", "b"), hash_text("a:b"));
}

#[test]
fn json_is_read_and_written() {
    let text = r#"{ "b": [1, -2.5, 1e3, true, null], "a": {"z": "x\ny"}, "b2": "" }"#;
    let j = parsed(text);
    assert_eq!(
        render_json(&j),
        r#"{"a":{"z":"x\ny"},"b":[1,-2.5,1000.0,true,null],"b2":""}"#
    );
    assert_eq!(canonical_json(text), Some(render_json(&j)));
    assert_eq!(canonical_json("{"), None);
    assert_eq!(
        render_pretty(&parsed(r#"{"a":[1],"b":{}}"#)),
        "{\n  \"a\": [\n    1\n  ],\n  \"b\": {}\n}"
    );
    assert!(parse_json("{").unwrap_err().contains("EOF"));
    assert_eq!(render_json(&parsed(r#"{"k":1,"k":2}"#)), r#"{"k":2}"#);
}

#[test]
fn json_fields_are_found() {
    let j = parsed(r#"{"t":"x","b":false,"v":["a",1,"b"],"n":2}"#);
    assert_eq!(get_text(&j, "t"), Some(&"x".to_string()));
    assert_eq!(get_text(&j, "n"), None);
    assert_eq!(get_bool(&j, "b"), Some(false));
    assert_eq!(get_bool(&j, "t"), None);
    assert_eq!(get_texts(&j, "v"), names(&["a", "b"]));
    assert!(get_texts(&j, "t").is_empty());
    assert!(get(&j, "x").is_none());
    assert!(get(&parsed("[1]"), "t").is_none());
    let made = object(vec![
        ("z".to_string(), Json::Bool(true)),
        ("a".to_string(), array_of_texts(&names(&["q"]))),
        ("z".to_string(), Json::Null),
    ]);
    assert_eq!(render_json(&made), r#"{"a":["q"],"z":null}"#);
}

#[test]
fn lines_are_brought_into_one_form() {
    let content = "\n{\"b\":1, \"a\":2}\r\n   \nno json  \t\n[ ]";
    assert_eq!(normalize_lines(content), "{\"a\":2,\"b\":1}\nno json\n[]\n");
    let blank = "{\"a\":2,\"b\":1}\n\n\nno json\n[]\n";
    assert_eq!(plan_import(blank).content_hash, plan_import(content).content_hash);
    let numbered: Vec<(usize, String)> =
        record_lines(content).into_iter().map(|l| (l.number, l.text)).collect();
    assert_eq!(
        numbered,
        vec![
            (2, "{\"b\":1, \"a\":2}".to_string()),
            (4, "no json  \t".to_string()),
            (5, "[ ]".to_string()),
        ]
    );
}

fn station_record(id: &str) -> NetworkRecord {
    NetworkRecord::Station(Station {
        station_id: id.to_string(),
        x_km: 0,
        y_km: 0,
        elevation_km: 0,
    })
}

fn model_record() -> VelocityModel {
    VelocityModel {
        model_id: "m".to_string(),
        vp_kms: unit(6.0),
        vs_kms: unit(3.5),
        x_min_km: 0,
        x_max_km: 1,
        y_min_km: 0,
        y_max_km: 1,
    }
}

fn correction(start: &str, end: Option<&str>) -> ClockCorrection {
    ClockCorrection {
        version: "v".to_string(),
        station_id: "A".to_string(),
        start_time: start.to_string(),
        end_time: end.map(|s| s.to_string()),
        bias_seconds: 5,
        rate_s_per_s: 0,
    }
}

fn entry() -> PickEntry {
    PickEntry {
        pick_id: "p1".to_string(),
        station_id: "A".to_string(),
        phase: Phase::P,
        time: "1970-01-01T00:00:01Z".to_string(),
        sigma_seconds: unit(0.05),
        confidence: unit(1.0),
        source: PickSource::Auto,
        model_id: "m".to_string(),
    }
}

#[test]
fn each_error_of_a_network_record() {
    let error = |r: NetworkRecord| validate_record(&r).unwrap_err();
    assert!(validate_record(&station_record("A-1_b.c")).is_ok());
    assert!(validate_record(&station_record("")).is_ok());
    assert_eq!(error(station_record("A B")), "station id contains unsupported characters");
    assert!(valid_id_char('.') && !valid_id_char('\u{e9}'));
    assert!(validate_record(&NetworkRecord::VelocityModel(model_record())).is_ok());
    let slow = VelocityModel { vp_kms: unit(3.5), ..model_record() };
    assert_eq!(error(NetworkRecord::VelocityModel(slow)), "require 0 < Vs < Vp");
    let flat = VelocityModel { y_min_km: 1, ..model_record() };
    assert_eq!(
        error(NetworkRecord::VelocityModel(flat)),
        "velocity model bounds are inverted"
    );
    let t1 = "1970-01-01T00:00:01Z";
    let t2 = "1970-01-01T00:00:02Z";
    let fine = NetworkRecord::ClockCorrection(correction(t1, Some(t2)));
    assert!(validate_record(&fine).is_ok());
    assert_eq!(
        error(NetworkRecord::ClockCorrection(correction(t1, Some(t1)))),
        "clock segment end must be after start"
    );
    assert_eq!(
        error(NetworkRecord::ClockCorrection(correction("x", None))),
        "time must carry an explicit UTC offset"
    );
    assert!(validate_record(&NetworkRecord::Pick(entry())).is_ok());
    for bad in [
        PickEntry { confidence: unit(1.0) + 1, ..entry() },
        PickEntry { confidence: -1, ..entry() },
        PickEntry { sigma_seconds: 0, ..entry() },
    ] {
        assert_eq!(
            error(NetworkRecord::Pick(bad)),
            "invalid uncertainty/confidence for p1"
        );
    }
    let late = PickEntry { time: "1970-01-01T00:00:01".to_string(), ..entry() };
    assert_eq!(error(NetworkRecord::Pick(late)), "time must carry an explicit UTC offset");
}

#[test]
fn records_are_read_until_one_is_wrong() {
    let content = "one\n\ntwo\n";
    let good = parse_records(content, vec![Ok(station_record("A")), Ok(station_record("B"))]);
    let types: Vec<&str> = good.unwrap().iter().map(record_type).collect();
    assert_eq!(types, vec!["station", "station"]);
    let bad = parse_records(content, vec![Ok(station_record("A")), Err("oops".to_string())]);
    assert_eq!(bad.unwrap_err(), "invalid JSON on line 3: oops");
    let first = parse_records(content, vec![Ok(station_record("?")), Err("oops".to_string())]);
    assert_eq!(first.unwrap_err(), "station id contains unsupported characters");
}

#[test]
fn stored_words_are_read_back() {
    for p in [Phase::P, Phase::S] {
        assert_eq!(read_phase(phase_text(p)), p);
    }
    for s in [PickSource::Auto, PickSource::Manual] {
        assert_eq!(read_source(source_text(s)), s);
    }
    assert_eq!(read_phase("?"), Phase::P);
    assert_eq!(read_source("?"), PickSource::Auto);
    assert_eq!(read_status("locked"), PickStatus::Locked);
    assert_eq!(read_status("noise"), PickStatus::Noise);
    assert_eq!(read_status("?"), PickStatus::Active);
    assert_eq!(record_type(&NetworkRecord::Pick(entry())), "pick");
    assert_eq!(record_type(&NetworkRecord::VelocityModel(model_record())), "velocity_model");
    assert_eq!(
        record_type(&NetworkRecord::ClockCorrection(correction("x", None))),
        "clock_correction"
    );
}

#[test]
fn conflicting_records_are_told() {
    let r = station_record("SAME");
    assert!(settle_insert(&r, 1, 0).is_ok());
    assert!(settle_insert(&r, 0, 1).is_ok());
    assert_eq!(settle_insert(&r, 0, 0).unwrap_err(), "conflicting immutable station SAME");
    assert_eq!(
        settle_insert(&NetworkRecord::VelocityModel(model_record()), 0, 0).unwrap_err(),
        "conflicting immutable velocity model m"
    );
    assert_eq!(
        settle_insert(&NetworkRecord::ClockCorrection(correction("x", None)), 0, 0).unwrap_err(),
        "conflicting immutable clock segment for A version v"
    );
}

fn stored(id: &str, event: Option<&str>) -> StoredPick {
    StoredPick {
        pick_id: id.to_string(),
        station_id: "A".to_string(),
        phase: Phase::S,
        time: "1970-01-01T00:00:02Z".to_string(),
        sigma_seconds: 3,
        confidence: 4,
        source: PickSource::Manual,
        model_id: "m".to_string(),
        status: PickStatus::Locked,
        locked_event: event.map(|s| s.to_string()),
    }
}

#[test]
fn stored_rows_are_taken_up() {
    let p = take_pick(&stored("p", None)).unwrap();
    assert_eq!((p.epoch, p.phase, p.status), (2_000_000_000, Phase::S, PickStatus::Locked));
    let mut bad = stored("p", None);
    bad.time = "x".to_string();
    assert_eq!(take_pick(&bad).unwrap_err(), "time must carry an explicit UTC offset");
    let s = take_segment(&correction("1970-01-01T00:00:01Z", Some("1970-01-01T00:00:02Z"))).unwrap();
    assert_eq!((s.start, s.end, s.bias_seconds), (1_000_000_000, Some(2_000_000_000), 5));
    assert!(take_segment(&correction("1970-01-01T00:00:01Z", None)).unwrap().end.is_none());
    assert!(take_segment(&correction("1970-01-01T00:00:01Z", Some("x"))).is_err());
}

#[test]
fn stored_locks_prevail_over_forced_ones() {
    let forced = locks_to_event(&names(&["b", "c", "a"]), "event-001");
    let picks = vec![stored("b", Some("event-009")), stored("d", Some("event-002")), stored("e", None)];
    let all: Vec<(String, String)> = merge_locks(&forced, &picks)
        .into_iter()
        .map(|l: EventLock| (l.pick_id, l.event_key))
        .collect();
    let find = |id: &str| all.iter().find(|l| l.0 == id).map(|l| l.1.as_str());
    assert_eq!(find("a"), Some("event-001"));
    assert_eq!(find("b"), Some("event-009"));
    assert_eq!(find("d"), Some("event-002"));
    assert_eq!(find("e"), None);
}

#[test]
fn a_batch_is_known_by_its_content() {
    let plan = plan_import("{\"a\":1}\n");
    assert_eq!(plan.content_hash, hash_text("{\"a\":1}\n"));
    let hash = plan.content_hash.clone();
    let (outcome, log) = new_import(plan.clone(), "demo", 1);
    assert!(!outcome.duplicated);
    assert_eq!(outcome.batch_id, hash_text(&format!("import:demo:{hash}")));
    assert_eq!(log.log_id, hash_text(&format!("log:{}:{hash}", outcome.batch_id)));
    assert_eq!(log.action, "import_batch");
    assert_eq!(
        log.detail,
        format!(r#"{{"batch_id":"{}","duplicated":false,"hash":"{hash}"}}"#, outcome.batch_id)
    );
    let known = KnownBatch { batch_id: outcome.batch_id.clone(), records: 1 };
    let again = repeat_import(plan, known);
    assert!(again.duplicated);
    assert_eq!(again.batch_id, outcome.batch_id);
    assert_eq!((again.content_hash, again.records), (hash, 1));
}

#[test]
fn importing_a_content_again_changes_nothing() {
    let content = "{\"a\":1}\n";
    let (first, log) = settle_import(plan_import(content), None, "demo", 26);
    assert!(!first.duplicated && log.is_some());
    let known = KnownBatch { batch_id: first.batch_id.clone(), records: first.records };
    let again = plan_import(content);
    assert_eq!(again.content_hash, first.content_hash);
    let (second, log) = settle_import(again, Some(known), "demo-again", 0);
    assert!(second.duplicated && log.is_none());
    assert_eq!(second.batch_id, first.batch_id);
    assert_eq!(second.content_hash, first.content_hash);
    assert_eq!(second.records, 26);
}

#[test]
fn actions_are_logged_under_their_content() {
    let log = log_action("act", &parsed(r#"{"b":1,"a":2}"#));
    assert_eq!(log.detail, r#"{"a":2,"b":1}"#);
    assert_eq!(log.log_id, hash_text(r#"act:{"a":2,"b":1}"#));
    let log = log_pick_status("p", "noise", &None, "web");
    assert_eq!(
        log.detail,
        r#"{"actor":"web","locked_event":null,"pick_id":"p","status":"noise"}"#
    );
    assert_eq!(log.action, "pick_status");
    assert_eq!(log.log_id, stable_id("pick-status", &log.detail));
    assert!(settle_pick_status("p", 1).is_ok());
    assert_eq!(settle_pick_status("p", 0).unwrap_err(), "unknown pick p");
    let log = log_recompute("h", "r", "c", "v");
    assert_eq!(log.action, "recompute_hypothesis");
    assert_eq!(
        log.detail,
        r#"{"candidate_id":"c","clock_version":"v","hypothesis_id":"h","run_id":"r"}"#
    );
}

#[test]
fn a_run_is_known_by_its_content() {
    let candidates = || parsed(r#"[{"rank":1}]"#);
    let run = plan_run("clock-v1", &names(&["event-001"]), "why", candidates());
    let same = plan_run("clock-v1", &names(&["event-001"]), "why", candidates());
    assert_eq!(run.scope_json, r#"["event-001"]"#);
    assert_eq!(
        run.run_id,
        stable_id(
            "run",
            r#"{"candidates":[{"rank":1}],"clock_version":"clock-v1","rationale":"why","scope":"[\"event-001\"]"}"#
        )
    );
    assert_eq!(run.run_id, same.run_id);
    assert_eq!(run.log.log_id, stable_id("log-run", &run.run_id));
    assert_eq!(
        run.log.detail,
        format!(
            r#"{{"clock_version":"clock-v1","run_id":"{}","scope":["event-001"]}}"#,
            run.run_id
        )
    );
    assert_ne!(run.run_id, plan_run("clock-v2", &names(&["event-001"]), "why", candidates()).run_id);
}

#[test]
fn hypotheses_are_known_by_their_origin() {
    let (id, log) = plan_freeze("c", "event-001", "base", "web");
    assert_eq!(id, stable_id("hypothesis", "c:base"));
    assert_eq!(log.log_id, stable_id("freeze", &id));
    assert_eq!(log.action, "freeze_candidate");
    assert_eq!(
        log.detail,
        format!(
            r#"{{"actor":"web","candidate_id":"c","event_key":"event-001","hypothesis_id":"{id}","label":"base"}}"#
        )
    );
    let (copy, log) = plan_duplicate(&id, "parallel", "web");
    assert_eq!(copy, stable_id("hypothesis-duplicate", &format!("{id}:parallel")));
    assert_eq!(log.log_id, stable_id("duplicate_hypothesis", &log.detail));
}

#[test]
fn candidates_become_rows() {
    let row = candidate_row(&parsed(
        r#"{"candidate_id":"c","event_key":"e","rank":2,"score":1.5,"status":"reliable"}"#,
    ))
    .unwrap();
    assert_eq!((row.candidate_id.as_str(), row.rank), ("c", 2));
    assert_eq!(row.score, Some("1.5".to_string()));
    assert_eq!(row.status, "reliable");
    let bare = candidate_row(&parsed(r#"{"candidate_id":"c","event_key":"e","rank":1}"#)).unwrap();
    assert_eq!((bare.score, bare.status.as_str()), (None, "underdetermined"));
    let error = |text: &str| candidate_row(&parsed(text)).unwrap_err();
    assert_eq!(error("{}"), "candidate missing candidate_id");
    assert_eq!(error(r#"{"candidate_id":"c"}"#), "candidate missing event_key");
    assert_eq!(
        error(r#"{"candidate_id":"c","event_key":"e","rank":1.0}"#),
        "candidate missing rank"
    );
    let pick = candidate_pick_row(
        &parsed(r#"{"pick_id":"p","locked":true,"residual_seconds":0.1,"contribution":null}"#),
        true,
    );
    assert_eq!((pick.pick_id.as_str(), pick.accepted, pick.locked), ("p", true, true));
    assert_eq!(pick.residual_seconds, Some("0.1".to_string()));
    assert_eq!((pick.contribution, pick.reason), (None, None));
    assert_eq!(candidate_pick_row(&parsed("{}"), false).pick_id, "unknown");
}

#[test]
fn the_leader_of_an_event_is_found() {
    let all = vec![
        parsed(r#"{"event_key":"a","rank":1,"candidate_id":"1"}"#),
        parsed(r#"{"event_key":"b","rank":2,"candidate_id":"2"}"#),
        parsed(r#"{"event_key":"b","rank":1,"candidate_id":"3"}"#),
        parsed(r#"{"event_key":"c","rank":1}"#),
    ];
    assert_eq!(recomputed_candidate(&all, "b").unwrap(), "3");
    assert_eq!(
        recomputed_candidate(&all, "d").unwrap_err(),
        "recomputed event candidate missing"
    );
    assert_eq!(
        recomputed_candidate(&all, "c").unwrap_err(),
        "candidate missing candidate_id"
    );
    assert!(in_scope(&vec![], "x"));
    assert!(in_scope(&names(&["x"]), "x") && !in_scope(&names(&["y"]), "x"));
}

#[test]
fn phases_are_read_in_any_case() {
    assert_eq!(Phase::parse(" p\n").unwrap(), Phase::P);
    assert_eq!(Phase::parse("S").unwrap(), Phase::S);
    assert_eq!(
        Phase::parse(" x\"y ").unwrap_err(),
        "unsupported phase \"X\\\"Y\"; expected P or S"
    );
}

#[test]
fn each_error_of_a_station() {
    let station = StationRecord {
        record_type: None,
        station_id: "S".to_string(),
        latitude: unit(90.0),
        longitude: unit(-180.0),
        elevation_m: unit(12_000.0),
    };
    assert!(station.validate().is_ok());
    let bad = StationRecord { station_id: " ".to_string(), ..station.clone() };
    assert_eq!(bad.validate().unwrap_err(), "station_id is required");
    let bad = StationRecord { latitude: unit(90.0) + 1, ..station.clone() };
    assert_eq!(bad.validate().unwrap_err(), "latitude must be in [-90, 90]");
    let bad = StationRecord { longitude: unit(180.0) + 1, ..station.clone() };
    assert_eq!(bad.validate().unwrap_err(), "longitude must be in [-180, 180]");
    let bad = StationRecord { elevation_m: unit(-12_000.0) - 1, ..station };
    assert_eq!(bad.validate().unwrap_err(), "elevation_m is outside [-12 km, 12 km]");
}

#[test]
fn each_error_of_a_model() {
    let layer = |top: f64, bottom: f64, vp: f64, vs: f64| LayerRecord {
        depth_top_m: unit(top),
        depth_bottom_m: unit(bottom),
        vp_m_s: unit(vp),
        pub_vs_m_s: unit(vs),
    };
    let model = |layers: Vec<LayerRecord>| ModelRecord {
        record_type: None,
        version: "v".to_string(),
        layers,
    };
    assert!(model(vec![layer(0.0, 10.0, 2.0, 1.0), layer(11.0, 20.0, 2.0, 1.0)]).validate().is_ok());
    let error = |layers: Vec<LayerRecord>| model(layers).validate().unwrap_err();
    assert_eq!(error(vec![]), "velocity model has no layers");
    assert_eq!(error(vec![layer(5.0, 5.0, 2.0, 1.0)]), "layer 0 has invalid depth interval");
    assert_eq!(
        error(vec![layer(0.0, 10.0, 2.0, 1.0), layer(11.1, 20.0, 2.0, 1.0)]),
        "layer 1 is not contiguous"
    );
    assert_eq!(error(vec![layer(0.0, 10.0, 1.0, 1.0)]), "layer 0 requires 0 < Vs < Vp");
    let nameless = ModelRecord { version: "".to_string(), ..model(vec![]) };
    assert_eq!(nameless.validate().unwrap_err(), "velocity model version is required");
}

fn pick_record() -> PickRecord {
    PickRecord {
        record_type: None,
        observation_id: "o".to_string(),
        related_observation_id: None,
        station_id: "s".to_string(),
        phase_text: "P".to_string(),
        time: parsed("1.0"),
        time_uncertainty_s: default_uncertainty(),
        confidence: default_confidence(),
        source: default_source(),
        velocity_model_version: "v".to_string(),
    }
}

#[test]
fn each_error_of_a_pick() {
    assert!(pick_record().validate(true).is_ok());
    assert_eq!(default_uncertainty(), unit(0.1));
    assert!(matches!(
        pick_record().validated_time(),
        Ok(TimeValue::Seconds(text)) if text == "1.0"
    ));
    let error = |p: PickRecord| p.validate(true).unwrap_err();
    assert_eq!(pick_record().validate(false).unwrap_err(), "pick time is not finite");
    let none = || String::new();
    assert_eq!(
        error(PickRecord { observation_id: none(), ..pick_record() }),
        "observation_id is required"
    );
    assert_eq!(
        error(PickRecord { station_id: none(), ..pick_record() }),
        "station_id is required"
    );
    assert_eq!(
        error(PickRecord { phase_text: none(), ..pick_record() }),
        "unsupported phase \"\"; expected P or S"
    );
    assert_eq!(
        error(PickRecord { time_uncertainty_s: 999_999, ..pick_record() }),
        "time_uncertainty_s must be in [0.001, 60] seconds"
    );
    assert_eq!(
        error(PickRecord { confidence: -1, ..pick_record() }),
        "confidence must be in [0, 1]"
    );
    assert_eq!(
        error(PickRecord { source: none(), ..pick_record() }),
        "source must be auto or manual"
    );
    assert_eq!(
        error(PickRecord { velocity_model_version: none(), ..pick_record() }),
        "velocity_model_version is required"
    );
}

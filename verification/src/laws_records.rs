//! Laws of records: which are refused, said by the limits of their fields.
use vstd::prelude::*;

use crate::epoch::epoch_value;
use crate::model::{LayerRecord, Phase};
use crate::network::{covers, Pick, PickSource, PickStatus, Segment, VelocityModel};
use crate::network_records::{
    line_error, lines_error, numbered, phase_word, pick_status_word, record_error, solver_pick,
    solver_segment, source_word, stored_phase, stored_source, stored_status, valid_id,
    ClockCorrection, NetworkRecord, ReadLine, StoredPick,
};
use crate::records::{
    layer_error, layers_error, model_error, phase_named, pick_error, station_error, ModelRecord,
    PickRecord, StationRecord,
};
use crate::text::{trimmed, upper};

verus! {

/// A station is taken exactly where it has a name, and its place is one on
/// earth, at most twelve kilometres above or below the sea.
pub proof fn stations_are_on_earth(s: StationRecord)
    ensures
        station_error(s) is None <==> trimmed(s.station_id@).len() > 0 && -90_000_000_000
            <= s.latitude <= 90_000_000_000 && -180_000_000_000 <= s.longitude <= 180_000_000_000
            && -12_000_000_000_000 <= s.elevation_m <= 12_000_000_000_000,
        trimmed(s.station_id@).len() == 0 ==> station_error(s) == Some("station_id is required"@),
{
}

/// The first trouble of layers is from where it is looked for.
proof fn layers_are_all_right(layers: Seq<LayerRecord>, from: int)
    requires
        0 <= from <= layers.len(),
    ensures
        layers_error(layers, from) is None <==> forall|i: int|
            from <= i < layers.len() ==> layer_error(layers, #[trigger] at(i)) is None,
    decreases layers.len() - from,
{
    if from < layers.len() {
        layers_are_all_right(layers, from + 1);
        assert(at(from) == from);
        if layers_error(layers, from) is None {
            assert forall|i: int| from <= i < layers.len() implies layer_error(
                layers,
                #[trigger] at(i),
            ) is None by {}
        }
        if forall|i: int| from <= i < layers.len() ==> layer_error(layers, #[trigger] at(i)) is None {
            assert(layer_error(layers, at(from)) is None);
        }
    }
}

/// A place.
spec fn at(i: int) -> int {
    i
}

/// Whether a layer is sound: it goes down from the surface or below, meets the
/// one above it within a metre, and carries S waves slower than P waves.
pub open spec fn sound_layer(layers: Seq<LayerRecord>, i: int) -> bool {
    &&& 0 <= layers[i].depth_top_m < layers[i].depth_bottom_m
    &&& i > 0 ==> -1_000_000_000 <= layers[i].depth_top_m - layers[i - 1].depth_bottom_m
        <= 1_000_000_000
    &&& 0 < layers[i].pub_vs_m_s < layers[i].vp_m_s
}

/// A velocity model is taken exactly where it has a name and layers, and each
/// of them is sound.
pub proof fn models_are_of_sound_layers(m: ModelRecord)
    ensures
        model_error(m) is None <==> trimmed(m.version@).len() > 0 && m.layers@.len() > 0 && forall|
            i: int,
        |
            0 <= i < m.layers@.len() ==> #[trigger] sound_layer(m.layers@, i),
{
    let v = m.layers@;
    layers_are_all_right(v, 0);
    assert forall|i: int| 0 <= i < v.len() implies (layer_error(v, #[trigger] at(i)) is None
        <==> sound_layer(v, i)) by {}
    if model_error(m) is None {
        assert forall|i: int| 0 <= i < v.len() implies #[trigger] sound_layer(v, i) by {
            assert(layer_error(v, at(i)) is None);
        }
    }
}

/// A pick is taken exactly where it has a name, a station, a phase, a time, an
/// uncertainty from a thousandth of a second to a minute, a confidence from
/// zero to one, a source and a velocity model.
pub proof fn picks_are_within_limits(p: PickRecord, finite: bool)
    ensures
        pick_error(p, finite) is None <==> {
            &&& trimmed(p.observation_id@).len() > 0
            &&& trimmed(p.station_id@).len() > 0
            &&& upper(trimmed(p.phase_text@)) == "P"@ || upper(trimmed(p.phase_text@)) == "S"@
            &&& finite
            &&& 1_000_000 <= p.time_uncertainty_s <= 60_000_000_000
            &&& 0 <= p.confidence <= 1_000_000_000
            &&& p.source@ == "auto"@ || p.source@ == "manual"@
            &&& trimmed(p.velocity_model_version@).len() > 0
        },
{
}

/// A phase is read from its letter, in either case.
pub proof fn phases_are_read(text: Seq<char>)
    ensures
        phase_named(text) == Some(Phase::P) <==> upper(trimmed(text)) == "P"@,
        phase_named(text) == Some(Phase::S) <==> upper(trimmed(text)) == "S"@,
{
    reveal_strlit("P");
    reveal_strlit("S");
    assert("P"@[0] != "S"@[0]);
}

/// A record of the network is taken exactly where it is within its limits: a
/// pick with a time, a confidence from zero to one and a sigma above zero; a
/// clock correction that ends after it starts; a station whose id is of
/// letters, digits, underscores, hyphens and points; a model with S waves
/// slower than P waves and an area.
pub proof fn network_records_are_within_limits(r: NetworkRecord)
    ensures
        record_error(r) is None <==> match r {
            NetworkRecord::Pick(p) => epoch_value(p.time@) is Ok && 0 <= p.confidence
                <= 1_000_000_000 && p.sigma_seconds > 0,
            NetworkRecord::ClockCorrection(c) => epoch_value(c.start_time@) is Ok && match c.end_time {
                None => true,
                Some(t) => epoch_value(t@) is Ok && epoch_value(c.start_time@)->Ok_0 < epoch_value(
                    t@,
                )->Ok_0,
            },
            NetworkRecord::Station(s) => forall|i: int|
                0 <= i < s.station_id@.len() ==> {
                    let c = #[trigger] s.station_id@[i];
                    'a' <= c <= 'z' || 'A' <= c <= 'Z' || '0' <= c <= '9' || c == '_' || c == '-'
                        || c == '.'
                },
            NetworkRecord::VelocityModel(m) => 0 < m.vs_kms < m.vp_kms && m.x_min_km < m.x_max_km
                && m.y_min_km < m.y_max_km,
        },
{
    if let NetworkRecord::Station(s) = r {
        let id = s.station_id@;
        if forall|i: int|
            0 <= i < id.len() ==> {
                let c = #[trigger] id[i];
                'a' <= c <= 'z' || 'A' <= c <= 'Z' || '0' <= c <= '9' || c == '_' || c == '-' || c
                    == '.'
            } {
            assert(valid_id(id));
        }
        if valid_id(id) {
            assert forall|i: int| 0 <= i < id.len() implies {
                let c = #[trigger] id[i];
                'a' <= c <= 'z' || 'A' <= c <= 'Z' || '0' <= c <= '9' || c == '_' || c == '-' || c
                    == '.'
            } by {
                assert(crate::network_records::id_char(id[i]));
            }
        }
    }
}

/// Records are refused where one of them is, for the first that is.
pub proof fn first_bad_line_is_told(v: Seq<ReadLine>, k: int)
    requires
        0 <= k < v.len(),
        line_error(v[k]) is Some,
        forall|i: int| 0 <= i < k ==> line_error(#[trigger] v[i]) is None,
    ensures
        lines_error(v) == line_error(v[k]),
    decreases v.len(),
{
    let t = v.drop_last();
    if k < t.len() {
        assert(t[k] == v[k]);
        assert forall|i: int| 0 <= i < k implies line_error(#[trigger] t[i]) is None by {
            assert(t[i] == v[i]);
        }
        first_bad_line_is_told(t, k);
    } else {
        good_lines_pass(t);
    }
}

/// Records pass where each of them does.
pub proof fn good_lines_pass(v: Seq<ReadLine>)
    requires
        forall|i: int| 0 <= i < v.len() ==> line_error(#[trigger] v[i]) is None,
    ensures
        lines_error(v) is None,
    decreases v.len(),
{
    if v.len() > 0 {
        let t = v.drop_last();
        assert forall|i: int| 0 <= i < t.len() implies line_error(#[trigger] t[i]) is None by {
            assert(t[i] == v[i]);
        }
        good_lines_pass(t);
        assert(line_error(v[v.len() - 1]) is None);
    }
}

/// Lines are numbered from one, and blank ones count but are left out.
pub proof fn lines_are_numbered_from_one(all: Seq<Seq<char>>, n: int, text: Seq<char>)
    ensures
        numbered(all).contains((n, text)) <==> 1 <= n <= all.len() && all[n - 1] == text && trimmed(
            text,
        ).len() > 0,
        forall|i: int, j: int|
            0 <= i < j < numbered(all).len() ==> (#[trigger] numbered(all)[i]).0 < (
            #[trigger] numbered(all)[j]).0,
        forall|i: int| 0 <= i < numbered(all).len() ==> (#[trigger] numbered(all)[i]).0 <= all.len(),
    decreases all.len(),
{
    if all.len() > 0 {
        let t = all.drop_last();
        lines_are_numbered_from_one(t, n, text);
        let (before, after) = (numbered(t), numbered(all));
        let x = (n, text);
        if before.contains(x) {
            let i = choose|i: int| 0 <= i < before.len() && before[i] == x;
            assert(after[i] == x);
        }
        if after.contains(x) && !before.contains(x) {
            let i = choose|i: int| 0 <= i < after.len() && after[i] == x;
            if i < before.len() {
                assert(before[i] == x);
            }
        }
        if n == all.len() && all[n - 1] == text && trimmed(text).len() > 0 {
            assert(after[after.len() - 1] == x);
        }
        assert forall|i: int, j: int| 0 <= i < j < after.len() implies (#[trigger] after[i]).0 < (
        #[trigger] after[j]).0 by {
            assert(after[i] == before[i]);
            if j < before.len() {
                assert(after[j] == before[j]);
            }
        }
        assert forall|i: int| 0 <= i < after.len() implies (#[trigger] after[i]).0 <= all.len() by {
            if i < before.len() {
                assert(after[i] == before[i]);
            }
        }
    }
}

/// What is stored of a pick is told by words of its own, and read back; any
/// other word is a P arrival, made by the machine, in use.
pub proof fn stored_words_are_told_apart(s: Seq<char>)
    ensures
        stored_phase(s) == Phase::S <==> s == "S"@,
        stored_source(s) == PickSource::Manual <==> s == "manual"@,
        stored_status(s) == PickStatus::Locked <==> s == "locked"@,
        stored_status(s) == PickStatus::Noise <==> s == "noise"@,
        phase_word(Phase::P) == "P"@ && phase_word(Phase::S) == "S"@,
        source_word(PickSource::Auto) == "auto"@ && source_word(PickSource::Manual) == "manual"@,
        pick_status_word(PickStatus::Active) == "active"@ && pick_status_word(PickStatus::Locked)
            == "locked"@ && pick_status_word(PickStatus::Noise) == "noise"@,
{
    reveal_strlit("locked");
    reveal_strlit("noise");
    assert("locked"@.len() != "noise"@.len());
}

/// A stored pick goes to the solver as it is, with its time read.
pub proof fn stored_picks_are_taken_as_they_are(s: StoredPick, p: Pick)
    requires
        solver_pick(s, p),
    ensures
        p.pick_id@ == s.pick_id@ && p.station_id@ == s.station_id@ && p.phase == s.phase,
        p.time@ == s.time@ && epoch_value(s.time@) is Ok && epoch_value(s.time@)->Ok_0 == p.epoch,
        p.sigma_seconds == s.sigma_seconds && p.confidence == s.confidence,
        p.source == s.source && p.status == s.status && p.model_id@ == s.model_id@,
{
}

/// A clock correction goes to the solver as it is, with its times read: it is in
/// force for its station from its start on, and before its end where it has one.
pub proof fn corrections_are_taken_as_they_are(c: ClockCorrection, s: Segment, t: int)
    requires
        solver_segment(c, s),
    ensures
        epoch_value(c.start_time@) is Ok,
        s.bias_seconds == c.bias_seconds,
        covers(s, c.station_id@, t) <==> epoch_value(c.start_time@)->Ok_0 <= t && match c.end_time {
            None => true,
            Some(end) => epoch_value(end@) is Ok && t < epoch_value(end@)->Ok_0,
        },
{
}

} // verus!

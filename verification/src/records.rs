//! The records of the window solver's input, and what makes them valid.
use vstd::prelude::*;

use crate::decimal::{decimal, decimal_text};
use crate::epoch::{parse_rfc3339_utc, readable, utc_value};
use crate::json::{Json, JsonView};
use crate::model::{LayerRecord, Phase, UNIT};
use crate::text::{blank, concat3, same, to_upper, trim, trimmed, upper};

verus! {

/// A text in quotes, as the debug format of `str` writes it.
pub uninterp spec fn quoted(text: Seq<char>) -> Seq<char>;

/// Writes a text with the debug format of `str`.
#[verifier::external_body]
fn quote(text: &str) -> (r: String)
    ensures
        r@ == quoted(text@),
{
    format!("{:?}", text)
}

/// The phase that a text names, whatever its case and the space around it.
pub open spec fn phase_named(text: Seq<char>) -> Option<Phase> {
    let t = upper(trimmed(text));
    if t == "P"@ {
        Some(Phase::P)
    } else if t == "S"@ {
        Some(Phase::S)
    } else {
        None
    }
}

/// What is said of a text that names no phase.
pub open spec fn no_phase(text: Seq<char>) -> Seq<char> {
    "unsupported phase "@ + quoted(upper(trimmed(text))) + "; expected P or S"@
}

impl Phase {
    /// Reads the name of a phase.
    pub fn parse(text: &str) -> (r: Result<Self, String>)
        ensures
            match r {
                Ok(p) => phase_named(text@) == Some(p),
                Err(m) => phase_named(text@) is None && m@ == no_phase(text@),
            },
    {
        let t = to_upper(trim(text).as_str());
        if same(t.as_str(), "P") {
            Ok(Phase::P)
        } else if same(t.as_str(), "S") {
            proof {
                reveal_strlit("P");
                reveal_strlit("S");
                assert("P"@[0] != "S"@[0]);
            }
            Ok(Phase::S)
        } else {
            Err(concat3("unsupported phase ", quote(t.as_str()).as_str(), "; expected P or S"))
        }
    }
}

/// A station as it is handed in.
#[derive(Debug, Clone)]
pub struct StationRecord {
    pub record_type: Option<String>,
    pub station_id: String,
    pub latitude: i64,
    pub longitude: i64,
    pub elevation_m: i64,
}

/// A velocity model as it is handed in.
#[derive(Debug, Clone)]
pub struct ModelRecord {
    pub record_type: Option<String>,
    pub version: String,
    pub layers: Vec<LayerRecord>,
}

/// A pick as it is handed in.
#[derive(Debug)]
pub struct PickRecord {
    pub record_type: Option<String>,
    pub observation_id: String,
    pub related_observation_id: Option<String>,
    pub station_id: String,
    pub phase_text: String,
    pub time: Json,
    pub time_uncertainty_s: i64,
    pub confidence: i64,
    pub source: String,
    pub velocity_model_version: String,
}

/// A record of the input.
#[derive(Debug)]
pub enum InputRecord {
    Station(StationRecord),
    VelocityModel(ModelRecord),
    Pick(PickRecord),
}

/// The uncertainty of a pick that gives none: a tenth of a second.
pub fn default_uncertainty() -> (r: i64)
    ensures
        r * 10 == UNIT,
{
    100_000_000
}

/// The confidence of a pick that gives none: full.
pub fn default_confidence() -> (r: i64)
    ensures
        r == UNIT,
{
    1_000_000_000
}

/// The source of a pick that gives none.
pub fn default_source() -> (r: String)
    ensures
        r@ == "auto"@,
{
    "auto".to_owned()
}

/// What is wrong with a station, if anything.
pub open spec fn station_error(s: StationRecord) -> Option<Seq<char>> {
    if trimmed(s.station_id@).len() == 0 {
        Some("station_id is required"@)
    } else if !(-90 * UNIT <= s.latitude <= 90 * UNIT) {
        Some("latitude must be in [-90, 90]"@)
    } else if !(-180 * UNIT <= s.longitude <= 180 * UNIT) {
        Some("longitude must be in [-180, 180]"@)
    } else if !(-12_000 * UNIT <= s.elevation_m <= 12_000 * UNIT) {
        Some("elevation_m is outside [-12 km, 12 km]"@)
    } else {
        None
    }
}

impl StationRecord {
    /// Checks a station.
    pub fn validate(&self) -> (r: Result<(), String>)
        ensures
            match r {
                Ok(()) => station_error(*self) is None,
                Err(m) => station_error(*self) == Some(m@),
            },
    {
        if blank(self.station_id.as_str()) {
            return Err("station_id is required".to_owned());
        }
        if self.latitude < -90_000_000_000 || self.latitude > 90_000_000_000 {
            return Err("latitude must be in [-90, 90]".to_owned());
        }
        if self.longitude < -180_000_000_000 || self.longitude > 180_000_000_000 {
            return Err("longitude must be in [-180, 180]".to_owned());
        }
        if self.elevation_m < -12_000_000_000_000 || self.elevation_m > 12_000_000_000_000 {
            return Err("elevation_m is outside [-12 km, 12 km]".to_owned());
        }
        Ok(())
    }
}

/// What is said of the layer with a number.
pub open spec fn layer_text(index: int, what: Seq<char>) -> Seq<char> {
    "layer "@ + decimal(index as nat) + what
}

/// The distance between two depths.
pub open spec fn depth_gap(a: int, b: int) -> int {
    if a < b {
        b - a
    } else {
        a - b
    }
}

/// What is wrong with the layer with a number, given the one above it.
pub open spec fn layer_error(layers: Seq<LayerRecord>, index: int) -> Option<Seq<char>> {
    let l = layers[index];
    if l.depth_top_m < 0 || l.depth_bottom_m <= l.depth_top_m {
        Some(layer_text(index, " has invalid depth interval"@))
    } else if index > 0 && depth_gap(
        l.depth_top_m as int,
        layers[index - 1].depth_bottom_m as int,
    ) > UNIT {
        Some(layer_text(index, " is not contiguous"@))
    } else if l.vp_m_s <= 0 || l.pub_vs_m_s <= 0 || l.pub_vs_m_s >= l.vp_m_s {
        Some(layer_text(index, " requires 0 < Vs < Vp"@))
    } else {
        None
    }
}

/// What is wrong with the first layer from a number on that something is
/// wrong with.
pub open spec fn layers_error(layers: Seq<LayerRecord>, index: int) -> Option<Seq<char>>
    decreases layers.len() - index,
{
    if index >= layers.len() {
        None
    } else {
        match layer_error(layers, index) {
            Some(m) => Some(m),
            None => layers_error(layers, index + 1),
        }
    }
}

/// What is wrong with a velocity model, if anything.
pub open spec fn model_error(m: ModelRecord) -> Option<Seq<char>> {
    if trimmed(m.version@).len() == 0 {
        Some("velocity model version is required"@)
    } else if m.layers@.len() == 0 {
        Some("velocity model has no layers"@)
    } else {
        layers_error(m.layers@, 0)
    }
}

/// What is said of the layer with a number.
fn write_layer(index: usize, what: &str) -> (r: String)
    ensures
        r@ == layer_text(index as int, what@),
{
    concat3("layer ", decimal_text(index as u64).as_str(), what)
}

impl ModelRecord {
    /// Checks a velocity model.
    pub fn validate(&self) -> (r: Result<(), String>)
        ensures
            match r {
                Ok(()) => model_error(*self) is None,
                Err(m) => model_error(*self) == Some(m@),
            },
    {
        if blank(self.version.as_str()) {
            return Err("velocity model version is required".to_owned());
        }
        if self.layers.len() == 0 {
            return Err("velocity model has no layers".to_owned());
        }
        let mut last_bottom: i64 = 0;
        let mut index: usize = 0;
        while index < self.layers.len()
            invariant
                index <= self.layers@.len(),
                index > 0 ==> last_bottom == self.layers@[index - 1].depth_bottom_m,
                trimmed(self.version@).len() > 0,
                self.layers@.len() > 0,
                layers_error(self.layers@, 0) == layers_error(self.layers@, index as int),
            decreases self.layers@.len() - index,
        {
            let layer: LayerRecord = self.layers[index];
            if layer.depth_top_m < 0 || layer.depth_bottom_m <= layer.depth_top_m {
                return Err(write_layer(index, " has invalid depth interval"));
            }
            let top: i128 = layer.depth_top_m as i128;
            let above: i128 = last_bottom as i128;
            let gap: i128 = if top < above {
                above - top
            } else {
                top - above
            };
            if index > 0 && gap > UNIT as i128 {
                return Err(write_layer(index, " is not contiguous"));
            }
            if layer.vp_m_s <= 0 || layer.pub_vs_m_s <= 0 || layer.pub_vs_m_s >= layer.vp_m_s {
                return Err(write_layer(index, " requires 0 < Vs < Vp"));
            }
            last_bottom = layer.depth_bottom_m;
            index += 1;
        }
        Ok(())
    }
}

/// A valid model has layers that are sound and contiguous.
pub proof fn valid_models_are_sound(m: ModelRecord, i: int)
    requires
        model_error(m) is None,
        0 <= i < m.layers@.len(),
    ensures
        0 <= m.layers@[i].depth_top_m < m.layers@[i].depth_bottom_m,
        0 < m.layers@[i].pub_vs_m_s < m.layers@[i].vp_m_s,
        i > 0 ==> depth_gap(
            m.layers@[i].depth_top_m as int,
            m.layers@[i - 1].depth_bottom_m as int,
        ) <= UNIT,
{
    no_layer_error(m.layers@, 0, i);
}

/// Nothing is wrong with any layer of a list that nothing is wrong with.
proof fn no_layer_error(layers: Seq<LayerRecord>, from: int, i: int)
    requires
        layers_error(layers, from) is None,
        from <= i < layers.len(),
    ensures
        layer_error(layers, i) is None,
    decreases i - from,
{
    if from < i {
        no_layer_error(layers, from + 1, i);
    }
}

/// A time: seconds as they were written, or nanoseconds since 1970.
#[derive(Debug, Clone)]
pub enum TimeValue {
    Seconds(String),
    Nanos(i128),
}

/// A time that a JSON value stands for, or what is wrong with it. A number is
/// seconds since 1970.
pub open spec fn time_value(v: JsonView, r: Result<TimeValue, String>) -> bool {
    match v {
        JsonView::Number(t) => r matches Ok(TimeValue::Seconds(s)) && s@ == t,
        JsonView::Text(t) => match utc_value(t) {
            Ok(n) => r matches Ok(TimeValue::Nanos(k)) && k == n && readable(n),
            Err(e) => r matches Err(m) && m@ == e,
        },
        _ => r matches Err(m) && m@ == "time must be a number or RFC3339 string"@,
    }
}

/// Reads a time.
pub fn parse_time(value: &Json) -> (r: Result<TimeValue, String>)
    ensures
        time_value(value@, r),
{
    match value {
        Json::Number(t) => Ok(TimeValue::Seconds(t.clone())),
        Json::Text(t) => match parse_rfc3339_utc(t.as_str()) {
            Ok(n) => Ok(TimeValue::Nanos(n)),
            Err(m) => Err(m),
        },
        _ => Err("time must be a number or RFC3339 string".to_owned()),
    }
}

/// What is wrong with a pick, if anything, given whether its time is finite.
pub open spec fn pick_error(p: PickRecord, finite: bool) -> Option<Seq<char>> {
    if trimmed(p.observation_id@).len() == 0 {
        Some("observation_id is required"@)
    } else if trimmed(p.station_id@).len() == 0 {
        Some("station_id is required"@)
    } else if phase_named(p.phase_text@) is None {
        Some(no_phase(p.phase_text@))
    } else if !finite {
        Some("pick time is not finite"@)
    } else if !(1_000_000 <= p.time_uncertainty_s <= 60 * UNIT) {
        Some("time_uncertainty_s must be in [0.001, 60] seconds"@)
    } else if !(0 <= p.confidence <= UNIT) {
        Some("confidence must be in [0, 1]"@)
    } else if p.source@ != "auto"@ && p.source@ != "manual"@ {
        Some("source must be auto or manual"@)
    } else if trimmed(p.velocity_model_version@).len() == 0 {
        Some("velocity_model_version is required"@)
    } else {
        None
    }
}

impl PickRecord {
    /// The time of a pick.
    pub fn validated_time(&self) -> (r: Result<TimeValue, String>)
        ensures
            time_value(self.time@, r),
    {
        parse_time(&self.time)
    }

    /// Checks a pick, given whether its time is finite.
    pub fn validate(&self, finite: bool) -> (r: Result<(), String>)
        ensures
            match r {
                Ok(()) => pick_error(*self, finite) is None,
                Err(m) => pick_error(*self, finite) == Some(m@),
            },
    {
        if blank(self.observation_id.as_str()) {
            return Err("observation_id is required".to_owned());
        }
        if blank(self.station_id.as_str()) {
            return Err("station_id is required".to_owned());
        }
        match Phase::parse(self.phase_text.as_str()) {
            Ok(_) => {},
            Err(m) => {
                return Err(m);
            },
        }
        if !finite {
            return Err("pick time is not finite".to_owned());
        }
        if self.time_uncertainty_s < 1_000_000 || self.time_uncertainty_s > 60_000_000_000 {
            return Err("time_uncertainty_s must be in [0.001, 60] seconds".to_owned());
        }
        if self.confidence < 0 || self.confidence > 1_000_000_000 {
            return Err("confidence must be in [0, 1]".to_owned());
        }
        if !same(self.source.as_str(), "auto") && !same(self.source.as_str(), "manual") {
            return Err("source must be auto or manual".to_owned());
        }
        if blank(self.velocity_model_version.as_str()) {
            return Err("velocity_model_version is required".to_owned());
        }
        Ok(())
    }
}

} // verus!

//! Stations, picks and the input of the window solver.
//!
//! Physical quantities are fixed-point integers in billionths of their unit:
//! a time of one second is 1_000_000_000, a depth of one metre likewise.
use vstd::prelude::*;

use crate::order::rising;
use crate::text::same;

verus! {

/// One unit (a second, a metre, a degree) in fixed point.
pub const UNIT: i64 = 1_000_000_000;

/// The two seismic phases.
#[derive(Debug, Clone, Copy, PartialEq, Eq, PartialOrd, Ord, Structural)]
pub enum Phase {
    P,
    S,
}

/// A station of the network, with its position on the local plane.
#[derive(Debug)]
pub struct Station {
    pub id: String,
    pub latitude: i64,
    pub longitude: i64,
    pub elevation_m: i64,
    pub x: i64,
    pub y: i64,
}

/// One layer of a velocity model.
#[derive(Debug, Clone, Copy)]
pub struct LayerRecord {
    pub depth_top_m: i64,
    pub depth_bottom_m: i64,
    pub vp_m_s: i64,
    pub pub_vs_m_s: i64,
}

/// An arrival of a phase at a station.
#[derive(Debug)]
pub struct Pick {
    pub id: String,
    pub related_id: Option<String>,
    pub station_id: String,
    pub phase: Phase,
    pub raw_time: i64,
    pub corrected_time: i64,
    pub uncertainty_s: i64,
    pub confidence: i64,
    pub source: String,
    pub model_version: String,
}

impl Clone for Station {
    fn clone(&self) -> (r: Self)
        ensures
            r == *self,
    {
        Station {
            id: self.id.clone(),
            latitude: self.latitude,
            longitude: self.longitude,
            elevation_m: self.elevation_m,
            x: self.x,
            y: self.y,
        }
    }
}

impl Clone for Pick {
    fn clone(&self) -> (r: Self)
        ensures
            r == *self,
    {
        Pick {
            id: self.id.clone(),
            related_id: match &self.related_id {
                Some(id) => Some(id.clone()),
                None => None,
            },
            station_id: self.station_id.clone(),
            phase: self.phase,
            raw_time: self.raw_time,
            corrected_time: self.corrected_time,
            uncertainty_s: self.uncertainty_s,
            confidence: self.confidence,
            source: self.source.clone(),
            model_version: self.model_version.clone(),
        }
    }
}

/// A velocity model: its version and its layers from the top down.
#[derive(Debug, Clone)]
pub struct Model {
    pub version: String,
    pub layers: Vec<LayerRecord>,
}

/// A pick tied by hand to an event.
#[derive(Debug, Clone)]
pub struct Lock {
    pub pick_id: String,
    pub event_key: String,
}

/// By how much the clock of a station is off during some time, in nanoseconds.
#[derive(Debug, Clone)]
pub struct ClockSegment {
    pub start_time: i64,
    pub end_time: Option<i64>,
    pub offset_s: i64,
}

/// The clock corrections of a station.
#[derive(Debug, Clone)]
pub struct Correction {
    pub station_id: String,
    pub segments: Vec<ClockSegment>,
}

/// What the window solver works on. Each list is in rising order of its key
/// and holds no key twice.
#[derive(Debug, Clone)]
pub struct SolverInput {
    pub stations: Vec<Station>,
    pub models: Vec<Model>,
    pub picks: Vec<Pick>,
    pub corrections: Vec<Correction>,
    pub locked: Vec<Lock>,
}

/// The ids of a list of picks.
pub open spec fn pick_ids(v: Seq<Pick>) -> Seq<Seq<char>> {
    v.map_values(|p: Pick| p.id@)
}

/// The ids of a list of stations.
pub open spec fn station_ids(v: Seq<Station>) -> Seq<Seq<char>> {
    v.map_values(|p: Station| p.id@)
}

/// The versions of a list of models.
pub open spec fn model_versions(v: Seq<Model>) -> Seq<Seq<char>> {
    v.map_values(|p: Model| p.version@)
}

/// The pick ids of a list of locks.
pub open spec fn lock_ids(v: Seq<Lock>) -> Seq<Seq<char>> {
    v.map_values(|p: Lock| p.pick_id@)
}

impl SolverInput {
    /// Each list is in rising order of its key.
    pub open spec fn wf(&self) -> bool {
        &&& rising(pick_ids(self.picks@))
        &&& rising(station_ids(self.stations@))
        &&& rising(model_versions(self.models@))
        &&& rising(lock_ids(self.locked@))
    }
}

/// The position of the pick with a given id.
pub fn find_pick(picks: &Vec<Pick>, id: &str) -> (r: Option<usize>)
    ensures
        match r {
            Some(i) => i < picks@.len() && picks@[i as int].id@ == id@,
            None => !pick_ids(picks@).contains(id@),
        },
{
    let mut i: usize = 0;
    while i < picks.len()
        invariant
            i <= picks@.len(),
            forall|j: int| 0 <= j < i ==> (#[trigger] pick_ids(picks@)[j]) != id@,
        decreases picks@.len() - i,
    {
        if same(picks[i].id.as_str(), id) {
            return Some(i);
        }
        assert(pick_ids(picks@)[i as int] == picks@[i as int].id@);
        i += 1;
    }
    None
}

/// The position of the station with a given id.
pub fn find_station(stations: &Vec<Station>, id: &str) -> (r: Option<usize>)
    ensures
        match r {
            Some(i) => i < stations@.len() && stations@[i as int].id@ == id@,
            None => !station_ids(stations@).contains(id@),
        },
{
    let mut i: usize = 0;
    while i < stations.len()
        invariant
            i <= stations@.len(),
            forall|j: int| 0 <= j < i ==> (#[trigger] station_ids(stations@)[j]) != id@,
        decreases stations@.len() - i,
    {
        if same(stations[i].id.as_str(), id) {
            return Some(i);
        }
        assert(station_ids(stations@)[i as int] == stations@[i as int].id@);
        i += 1;
    }
    None
}

/// The position of the model with a given version.
pub fn find_model(models: &Vec<Model>, version: &str) -> (r: Option<usize>)
    ensures
        match r {
            Some(i) => i < models@.len() && models@[i as int].version@ == version@,
            None => !model_versions(models@).contains(version@),
        },
{
    let mut i: usize = 0;
    while i < models.len()
        invariant
            i <= models@.len(),
            forall|j: int| 0 <= j < i ==> (#[trigger] model_versions(models@)[j]) != version@,
        decreases models@.len() - i,
    {
        if same(models[i].version.as_str(), version) {
            return Some(i);
        }
        assert(model_versions(models@)[i as int] == models@[i as int].version@);
        i += 1;
    }
    None
}

/// The position of the lock on a given pick.
pub fn find_lock(locked: &Vec<Lock>, id: &str) -> (r: Option<usize>)
    ensures
        match r {
            Some(i) => i < locked@.len() && locked@[i as int].pick_id@ == id@,
            None => !lock_ids(locked@).contains(id@),
        },
{
    let mut i: usize = 0;
    while i < locked.len()
        invariant
            i <= locked@.len(),
            forall|j: int| 0 <= j < i ==> (#[trigger] lock_ids(locked@)[j]) != id@,
        decreases locked@.len() - i,
    {
        if same(locked[i].pick_id.as_str(), id) {
            return Some(i);
        }
        assert(lock_ids(locked@)[i as int] == locked@[i as int].pick_id@);
        i += 1;
    }
    None
}

} // verus!

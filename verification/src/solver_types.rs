//! What the window solver hands out.
use vstd::prelude::*;

use crate::mean::Mean;
use crate::model::{Phase, Pick, Station};

verus! {

/// A pick that no event uses, and why.
#[derive(Debug, Clone)]
pub struct RejectedPick {
    pub observation_id: String,
    pub station_id: String,
    pub phase: String,
    pub reason: String,
}

/// The contents of a [`RejectedPick`].
#[verifier::ext_equal]
pub struct Rejection {
    pub observation_id: Seq<char>,
    pub station_id: Seq<char>,
    pub phase: Seq<char>,
    pub reason: Seq<char>,
}

impl View for RejectedPick {
    type V = Rejection;

    open spec fn view(&self) -> Rejection {
        Rejection {
            observation_id: self.observation_id@,
            station_id: self.station_id@,
            phase: self.phase@,
            reason: self.reason@,
        }
    }
}

/// The contents of a list of rejected picks.
pub open spec fn rejections(v: Seq<RejectedPick>) -> Seq<Rejection> {
    v.map_values(|r: RejectedPick| r@)
}

/// The letter of a phase.
pub open spec fn phase_letter(phase: Phase) -> Seq<char> {
    match phase {
        Phase::P => "P"@,
        Phase::S => "S"@,
    }
}

/// The letter of a phase.
pub fn phase_name(phase: Phase) -> (r: &'static str)
    ensures
        r@ == phase_letter(phase),
{
    match phase {
        Phase::P => "P",
        Phase::S => "S",
    }
}

/// A pick rejected for a reason.
pub open spec fn rejection(pick: Pick, reason: Seq<char>) -> Rejection {
    Rejection {
        observation_id: pick.id@,
        station_id: pick.station_id@,
        phase: phase_letter(pick.phase),
        reason,
    }
}

/// Rejects a pick for a reason.
pub fn reject(pick: &Pick, reason: &str) -> (r: RejectedPick)
    ensures
        r@ == rejection(*pick, reason@),
{
    RejectedPick {
        observation_id: pick.id.clone(),
        station_id: pick.station_id.clone(),
        phase: phase_name(pick.phase).to_owned(),
        reason: reason.to_owned(),
    }
}

/// A stretch of time with the picks of one event. The picks are given by
/// their positions in the input, in rising order.
#[derive(Debug, Clone)]
pub struct EventWindow {
    pub key: String,
    pub label: String,
    pub picks: Vec<usize>,
    pub min_time: i64,
    pub max_time: i64,
    pub centroid_time: Mean,
}

/// A pick with the station that it was made at.
#[derive(Debug, Clone)]
pub struct Observation {
    pub pick: Pick,
    pub station: Station,
    pub locked: bool,
}

impl Observation {
    /// The letter of the phase.
    pub fn phase_name(&self) -> (r: &'static str)
        ensures
            r@ == phase_letter(self.pick.phase),
    {
        phase_name(self.pick.phase)
    }
}

} // verus!

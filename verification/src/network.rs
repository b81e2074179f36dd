//! The network solver's input, and its first steps: clock corrections, the
//! order of the phases at a station, and the clusters of P arrivals from
//! which events start.
//!
//! Times are nanoseconds since the epoch; sigmas, biases and coordinates are
//! billionths of a second or of a kilometre.
use vstd::prelude::*;

use crate::model::Phase;
use crate::order::{sort, Ranked};
use crate::text::same;

verus! {

/// The largest time, either way, that an arrival can have.
pub const MAX_EPOCH: i128 = 400_000_000_000_000_000_000_000_000_000_000_000;

/// The longest gap between two P arrivals of one cluster.
pub const SEED_GAP: i128 = 30_000_000_000;

/// How long an S arrival may follow the start of its cluster, and how close a
/// P arrival must be to tell that an S arrival is out of order.
pub const PHASE_GAP: i128 = 15_000_000_000;

/// The least sigma of an observation.
pub const MIN_SIGMA: i64 = 1_000_000;

/// Whether a pick is in use.
#[derive(Debug, Clone, Copy, PartialEq, Eq, Structural)]
pub enum PickStatus {
    Active,
    Locked,
    Noise,
}

/// Who made a pick.
#[derive(Debug, Clone, Copy, PartialEq, Eq, Structural)]
pub enum PickSource {
    Auto,
    Manual,
}

/// A station of the network.
#[derive(Debug, Clone)]
pub struct Station {
    pub station_id: String,
    pub x_km: i64,
    pub y_km: i64,
    pub elevation_km: i64,
}

/// A uniform velocity model and the area it holds in.
#[derive(Debug, Clone)]
pub struct VelocityModel {
    pub model_id: String,
    pub vp_kms: i64,
    pub vs_kms: i64,
    pub x_min_km: i64,
    pub x_max_km: i64,
    pub y_min_km: i64,
    pub y_max_km: i64,
}

/// An arrival: as it was written, and in nanoseconds.
#[derive(Debug, Clone)]
pub struct Pick {
    pub pick_id: String,
    pub station_id: String,
    pub phase: Phase,
    pub time: String,
    pub epoch: i128,
    pub sigma_seconds: i64,
    pub confidence: i64,
    pub source: PickSource,
    pub model_id: String,
    pub status: PickStatus,
}

/// A stretch of time over which a station's clock was off. Without an end it
/// goes on.
#[derive(Debug, Clone)]
pub struct Segment {
    pub station_id: String,
    pub start: i128,
    pub end: Option<i128>,
    pub bias_seconds: i64,
}

/// A pick that was tied to an event.
#[derive(Debug, Clone)]
pub struct EventLock {
    pub pick_id: String,
    pub event_key: String,
}

/// What the network solver works on. Where a pick is locked twice, the first
/// lock counts.
#[derive(Debug, Clone)]
pub struct SolveContext {
    pub stations: Vec<Station>,
    pub model: VelocityModel,
    pub picks: Vec<Pick>,
    pub segments: Vec<Segment>,
    pub locks: Vec<EventLock>,
}

/// A pick at a known station, with its time corrected.
#[derive(Debug, Clone, Copy)]
pub struct PickObservation {
    pub pick_index: usize,
    pub station_index: usize,
    pub phase: Phase,
    pub observed_epoch: i128,
    pub sigma_seconds: i64,
    pub confidence: i64,
}

/// A time within what an arrival can have.
pub open spec fn timely(t: int) -> bool {
    -MAX_EPOCH <= t <= MAX_EPOCH
}

impl SolveContext {
    /// All arrivals have times that an arrival can have.
    pub open spec fn wf(&self) -> bool {
        forall|i: int| 0 <= i < self.picks@.len() ==> timely((#[trigger] self.picks@[i]).epoch as int)
    }
}

impl VelocityModel {
    /// Whether a place is in the area of the model.
    pub open spec fn holds(&self, x: int, y: int) -> bool {
        self.x_min_km <= x <= self.x_max_km && self.y_min_km <= y <= self.y_max_km
    }

    /// Whether a place is in the area of the model.
    pub fn contains(&self, x: i64, y: i64) -> (r: bool)
        ensures
            r == self.holds(x as int, y as int),
    {
        x >= self.x_min_km && x <= self.x_max_km && y >= self.y_min_km && y <= self.y_max_km
    }

    /// The speed of a phase.
    pub open spec fn speed(&self, phase: Phase) -> i64 {
        match phase {
            Phase::P => self.vp_kms,
            Phase::S => self.vs_kms,
        }
    }

    /// The speed of a phase.
    pub fn velocity(&self, phase: Phase) -> (r: i64)
        ensures
            r == self.speed(phase),
    {
        match phase {
            Phase::P => self.vp_kms,
            Phase::S => self.vs_kms,
        }
    }
}

/// The first station with an id, or the number of stations.
pub open spec fn station_place(stations: Seq<Station>, id: Seq<char>) -> int
    decreases stations.len(),
{
    if stations.len() == 0 || stations[0].station_id@ == id {
        0
    } else {
        1 + station_place(stations.drop_first(), id)
    }
}

/// The first station with an id is the only one to look at.
proof fn station_place_is(stations: Seq<Station>, id: Seq<char>, k: int)
    requires
        0 <= k <= stations.len(),
        forall|j: int| 0 <= j < k ==> (#[trigger] stations[j]).station_id@ != id,
        k < stations.len() ==> stations[k].station_id@ == id,
    ensures
        station_place(stations, id) == k,
    decreases stations.len(),
{
    if k > 0 {
        let t = stations.drop_first();
        assert forall|j: int| 0 <= j < k - 1 implies (#[trigger] t[j]).station_id@ != id by {
            assert(t[j] == stations[j + 1]);
        }
        station_place_is(t, id, k - 1);
    }
}

/// The place of the station with an id.
pub fn station_index(stations: &Vec<Station>, station_id: &str) -> (r: Option<usize>)
    ensures
        match r {
            Some(i) => i < stations@.len() && i == station_place(stations@, station_id@)
                && stations@[i as int].station_id@ == station_id@,
            None => station_place(stations@, station_id@) == stations@.len(),
        },
{
    let mut i: usize = 0;
    while i < stations.len()
        invariant
            i <= stations@.len(),
            forall|j: int| 0 <= j < i ==> (#[trigger] stations@[j]).station_id@ != station_id@,
        decreases stations@.len() - i,
    {
        if same(stations[i].station_id.as_str(), station_id) {
            proof {
                station_place_is(stations@, station_id@, i as int);
            }
            return Some(i);
        }
        i += 1;
    }
    proof {
        station_place_is(stations@, station_id@, i as int);
    }
    None
}

/// Whether a segment covers a time at a station. It covers its start and not
/// its end.
pub open spec fn covers(s: Segment, station: Seq<char>, t: int) -> bool {
    &&& s.station_id@ == station
    &&& s.start <= t
    &&& match s.end {
        Some(end) => t < end,
        None => true,
    }
}

/// The clock bias of a station at a time: that of the last segment that covers
/// it, or none.
pub open spec fn bias_at(segments: Seq<Segment>, station: Seq<char>, t: int) -> int
    decreases segments.len(),
{
    if segments.len() == 0 {
        0
    } else if covers(segments.last(), station, t) {
        segments.last().bias_seconds as int
    } else {
        bias_at(segments.drop_last(), station, t)
    }
}

/// The clock bias of a station at a time.
pub fn station_bias(segments: &Vec<Segment>, station_id: &str, observed: i128) -> (r: i64)
    ensures
        r == bias_at(segments@, station_id@, observed as int),
{
    let mut bias: i64 = 0;
    let mut i: usize = 0;
    assert(segments@.take(0) =~= Seq::<Segment>::empty());
    while i < segments.len()
        invariant
            i <= segments@.len(),
            bias == bias_at(segments@.take(i as int), station_id@, observed as int),
        decreases segments@.len() - i,
    {
        let s = &segments[i];
        assert(segments@.take(i + 1).drop_last() =~= segments@.take(i as int));
        let before_end = match s.end {
            Some(end) => observed < end,
            None => true,
        };
        if same(s.station_id.as_str(), station_id) && s.start <= observed && before_end {
            bias = s.bias_seconds;
        }
        i += 1;
    }
    assert(segments@.take(i as int) =~= segments@);
    bias
}

/// Two times within what arrivals can have, corrected, are apart by what a
/// difference can hold.
pub open spec fn corrected(t: int) -> bool {
    -MAX_EPOCH - 0x1_0000_0000_0000_0000 <= t <= MAX_EPOCH + 0x1_0000_0000_0000_0000
}

/// The observation of a pick at a known station.
pub open spec fn observation_of(context: SolveContext, index: int, o: PickObservation) -> bool {
    let pick = context.picks@[index];
    &&& o.pick_index == index
    &&& o.station_index == station_place(context.stations@, pick.station_id@)
    &&& o.station_index < context.stations@.len()
    &&& o.phase == pick.phase
    &&& o.observed_epoch == pick.epoch - bias_at(
        context.segments@,
        pick.station_id@,
        pick.epoch as int,
    )
    &&& o.sigma_seconds == if pick.sigma_seconds > MIN_SIGMA {
        pick.sigma_seconds
    } else {
        MIN_SIGMA
    }
    &&& o.confidence == pick.confidence
}

/// Whether a pick was made at a station of the network.
pub open spec fn placed(context: SolveContext, index: int) -> bool {
    station_place(context.stations@, context.picks@[index].station_id@) < context.stations@.len()
}

/// The observation of a pick; none where the station is not known.
pub fn make_observation(context: &SolveContext, index: usize) -> (r: Option<PickObservation>)
    requires
        context.wf(),
        index < context.picks@.len(),
    ensures
        match r {
            Some(o) => placed(*context, index as int) && observation_of(*context, index as int, o)
                && corrected(o.observed_epoch as int),
            None => !placed(*context, index as int),
        },
{
    let pick = &context.picks[index];
    assert(timely(context.picks@[index as int].epoch as int));
    match station_index(&context.stations, pick.station_id.as_str()) {
        None => None,
        Some(station) => {
            let bias: i64 = station_bias(
                &context.segments,
                pick.station_id.as_str(),
                pick.epoch,
            );
            Some(
                PickObservation {
                    pick_index: index,
                    station_index: station,
                    phase: pick.phase,
                    observed_epoch: pick.epoch - bias as i128,
                    sigma_seconds: if pick.sigma_seconds > MIN_SIGMA {
                        pick.sigma_seconds
                    } else {
                        MIN_SIGMA
                    },
                    confidence: pick.confidence,
                },
            )
        },
    }
}

/// The positions of the picks at known stations, below a position.
pub open spec fn placed_below(context: SolveContext, n: int) -> Seq<int>
    decreases n,
{
    if n <= 0 {
        Seq::empty()
    } else if placed(context, n - 1) {
        placed_below(context, n - 1).push(n - 1)
    } else {
        placed_below(context, n - 1)
    }
}

/// The observations of some picks.
pub open spec fn observations_are(
    context: SolveContext,
    ids: Seq<int>,
    v: Seq<PickObservation>,
) -> bool {
    &&& v.len() == ids.len()
    &&& forall|i: int| 0 <= i < v.len() ==> observation_of(context, ids[i], #[trigger] v[i])
}

/// Observations of picks of a context.
pub open spec fn observations_wf(context: SolveContext, v: Seq<PickObservation>) -> bool {
    forall|i: int|
        0 <= i < v.len() ==> (#[trigger] v[i]).pick_index < context.picks@.len()
            && v[i].station_index < context.stations@.len() && corrected(
            v[i].observed_epoch as int,
        )
}

/// The observations of all picks at known stations, in the order of the picks.
pub fn make_observations(context: &SolveContext) -> (r: Vec<PickObservation>)
    requires
        context.wf(),
    ensures
        observations_are(*context, placed_below(*context, context.picks@.len() as int), r@),
        observations_wf(*context, r@),
{
    let mut r: Vec<PickObservation> = Vec::new();
    let mut i: usize = 0;
    while i < context.picks.len()
        invariant
            i <= context.picks@.len(),
            context.wf(),
            observations_are(*context, placed_below(*context, i as int), r@),
            observations_wf(*context, r@),
        decreases context.picks@.len() - i,
    {
        let ghost before = r@;
        if let Some(o) = make_observation(context, i) {
            r.push(o);
            proof {
                let ids = placed_below(*context, i + 1);
                assert forall|j: int| 0 <= j < r@.len() implies observation_of(
                    *context,
                    ids[j],
                    #[trigger] r@[j],
                ) by {
                    if j < before.len() {
                        assert(r@[j] == before[j]);
                        assert(ids[j] == placed_below(*context, i as int)[j]);
                    }
                }
            }
        }
        i += 1;
    }
    r
}

/// Whether a pick is a P arrival in use at a station.
pub open spec fn p_at(pick: Pick, station: Seq<char>) -> bool {
    pick.status != PickStatus::Noise && pick.phase == Phase::P && pick.station_id@ == station
}

/// Whether some P arrival in use was picked at a station.
pub open spec fn has_p(picks: Seq<Pick>, station: Seq<char>) -> bool {
    exists|j: int| 0 <= j < picks.len() && p_at(#[trigger] picks[j], station)
}

/// Whether an S arrival comes before a P arrival at its station that is close
/// enough to belong to it.
pub open spec fn before_p(picks: Seq<Pick>, s: Pick) -> bool {
    exists|j: int|
        0 <= j < picks.len() && p_at(#[trigger] picks[j], s.station_id@) && s.epoch < picks[j].epoch
            && picks[j].epoch - s.epoch <= PHASE_GAP
}

/// Whether a pick tells of its order at its station.
pub open spec fn ordered(picks: Seq<Pick>, s: Pick, id: Seq<char>) -> bool {
    s.pick_id@ == id && s.phase == Phase::S && s.status != PickStatus::Noise && has_p(
        picks,
        s.station_id@,
    )
}

/// Whether the S arrival with an id comes too early, as far as the first `n`
/// picks tell. The last of several picks with one id decides.
pub open spec fn order_bad(picks: Seq<Pick>, id: Seq<char>, n: int) -> bool
    decreases n,
{
    if n <= 0 {
        false
    } else if ordered(picks, picks[n - 1], id) {
        before_p(picks, picks[n - 1])
    } else {
        order_bad(picks, id, n - 1)
    }
}

/// Whether P arrivals were picked at the station of an S arrival, and whether
/// it comes before one of them.
fn order_at(picks: &Vec<Pick>, s: &Pick) -> (r: (bool, bool))
    requires
        timely(s.epoch as int),
        forall|i: int| 0 <= i < picks@.len() ==> timely((#[trigger] picks@[i]).epoch as int),
    ensures
        r.0 == has_p(picks@, s.station_id@),
        r.1 == before_p(picks@, *s),
{
    let mut some = false;
    let mut early = false;
    let mut j: usize = 0;
    while j < picks.len()
        invariant
            j <= picks@.len(),
            timely(s.epoch as int),
            forall|i: int| 0 <= i < picks@.len() ==> timely((#[trigger] picks@[i]).epoch as int),
            some == exists|i: int| 0 <= i < j && p_at(#[trigger] picks@[i], s.station_id@),
            early == exists|i: int|
                0 <= i < j && p_at(#[trigger] picks@[i], s.station_id@) && s.epoch < picks@[i].epoch
                    && picks@[i].epoch - s.epoch <= PHASE_GAP,
        decreases picks@.len() - j,
    {
        let p = &picks[j];
        if p.status != PickStatus::Noise && p.phase == Phase::P && same(
            p.station_id.as_str(),
            s.station_id.as_str(),
        ) {
            assert(p_at(picks@[j as int], s.station_id@));
            some = true;
            if s.epoch < p.epoch && p.epoch - s.epoch <= PHASE_GAP {
                early = true;
            }
        }
        j += 1;
    }
    (some, early)
}

/// Whether the S arrival with an id comes before the P arrival of its station.
pub fn phase_order_bad(picks: &Vec<Pick>, id: &str) -> (r: bool)
    requires
        forall|i: int| 0 <= i < picks@.len() ==> timely((#[trigger] picks@[i]).epoch as int),
    ensures
        r == order_bad(picks@, id@, picks@.len() as int),
{
    let mut n: usize = picks.len();
    while n > 0
        invariant
            n <= picks@.len(),
            forall|i: int| 0 <= i < picks@.len() ==> timely((#[trigger] picks@[i]).epoch as int),
            order_bad(picks@, id@, picks@.len() as int) == order_bad(picks@, id@, n as int),
        decreases n,
    {
        let s = &picks[n - 1];
        if s.phase == Phase::S && s.status != PickStatus::Noise && same(s.pick_id.as_str(), id) {
            let (some, early) = order_at(picks, s);
            if some {
                return early;
            }
        }
        n -= 1;
    }
    false
}

/// An S arrival that is alone with its id is out of order exactly when a P
/// arrival at its station follows it within the gap.
pub proof fn order_bad_means(picks: Seq<Pick>, k: int)
    requires
        0 <= k < picks.len(),
        picks[k].phase == Phase::S,
        picks[k].status != PickStatus::Noise,
        forall|i: int| 0 <= i < picks.len() && i != k ==> (#[trigger] picks[i]).pick_id@
            != picks[k].pick_id@,
    ensures
        order_bad(picks, picks[k].pick_id@, picks.len() as int) == before_p(picks, picks[k]),
{
    order_bad_above(picks, k, picks.len() as int);
}

/// Picks with other ids do not tell of an arrival's order.
proof fn order_bad_above(picks: Seq<Pick>, k: int, n: int)
    requires
        0 <= k < picks.len(),
        picks[k].phase == Phase::S,
        picks[k].status != PickStatus::Noise,
        0 <= n <= picks.len(),
        forall|i: int| 0 <= i < picks.len() && i != k ==> (#[trigger] picks[i]).pick_id@
            != picks[k].pick_id@,
    ensures
        order_bad(picks, picks[k].pick_id@, n) == (n > k && before_p(picks, picks[k])),
    decreases n,
{
    if n > 0 {
        order_bad_above(picks, k, n - 1);
        if n - 1 == k && !has_p(picks, picks[k].station_id@) {
            assert(!before_p(picks, picks[k]));
        }
    }
}

/// A P arrival: when, and at which station.
#[derive(Debug, Clone, Copy)]
pub struct Onset {
    pub time: i128,
    pub station: usize,
}

impl Ranked for Onset {
    open spec fn comes_first(a: Self, b: Self) -> bool {
        a.time <= b.time
    }

    proof fn total(a: Self, b: Self) {
    }

    proof fn transitive(a: Self, b: Self, c: Self) {
    }

    fn first(a: &Self, b: &Self) -> (r: bool) {
        a.time <= b.time
    }
}

/// Whether an observation is of a P arrival in use.
pub open spec fn seeds(picks: Seq<Pick>, o: PickObservation) -> bool {
    picks[o.pick_index as int].phase == Phase::P && picks[o.pick_index as int].status
        != PickStatus::Noise
}

/// The P arrivals in use, in the order of the observations.
pub open spec fn onsets(picks: Seq<Pick>, v: Seq<PickObservation>) -> Seq<Onset>
    decreases v.len(),
{
    if v.len() == 0 {
        Seq::empty()
    } else {
        let rest = onsets(picks, v.drop_last());
        let o = v.last();
        if seeds(picks, o) {
            rest.push(Onset { time: o.observed_epoch, station: o.station_index })
        } else {
            rest
        }
    }
}

/// Arrivals in groups: each follows the one before it within the gap.
pub open spec fn groups(s: Seq<Onset>) -> Seq<Seq<Onset>>
    decreases s.len(),
{
    if s.len() == 0 {
        Seq::empty()
    } else {
        let g = groups(s.drop_last());
        let x = s.last();
        if g.len() > 0 && x.time - g.last().last().time <= SEED_GAP {
            g.drop_last().push(g.last().push(x))
        } else {
            g.push(seq![x])
        }
    }
}

/// Whether two arrivals of a group are at different stations.
pub open spec fn shared(g: Seq<Onset>) -> bool {
    exists|i: int, j: int|
        0 <= i < g.len() && 0 <= j < g.len() && (#[trigger] g[i]).station != (
        #[trigger] g[j]).station
}

/// The starts of the groups that are seen at two stations.
pub open spec fn starts(g: Seq<Seq<Onset>>) -> Seq<i128>
    decreases g.len(),
{
    if g.len() == 0 {
        Seq::empty()
    } else if shared(g.last()) {
        starts(g.drop_last()).push(g.last()[0].time)
    } else {
        starts(g.drop_last())
    }
}

/// The times at which events start.
pub open spec fn centers(picks: Seq<Pick>, v: Seq<PickObservation>) -> Seq<i128> {
    starts(groups(crate::order::sorted(onsets(picks, v))))
}

/// A group of arrivals, from its first and last and whether it is seen at two
/// stations.
#[derive(Debug, Clone, Copy)]
struct Group {
    start: i128,
    last: i128,
    station: usize,
    shared: bool,
}

/// A group is what is kept of it.
spec fn kept_of(g: Seq<Onset>, k: Group) -> bool {
    &&& g.len() > 0
    &&& k.start == g[0].time
    &&& k.last == g.last().time
    &&& k.station == g[0].station
    &&& k.shared == shared(g)
}

/// One more arrival in a group.
proof fn shared_with(g: Seq<Onset>, x: Onset)
    requires
        g.len() > 0,
    ensures
        shared(g.push(x)) == (shared(g) || x.station != g[0].station),
{
    let h = g.push(x);
    if shared(g) {
        let (i, j) = choose|i: int, j: int|
            0 <= i < g.len() && 0 <= j < g.len() && (#[trigger] g[i]).station != (
            #[trigger] g[j]).station;
        assert(h[i].station != h[j].station);
    }
    if x.station != g[0].station {
        assert(h[0].station != h[g.len() as int].station);
    }
    if shared(h) {
        let (i, j) = choose|i: int, j: int|
            0 <= i < h.len() && 0 <= j < h.len() && (#[trigger] h[i]).station != (
            #[trigger] h[j]).station;
        if !shared(g) {
            assert forall|k: int| 0 <= k < g.len() implies (#[trigger] g[k]).station
                == g[0].station by {
                if g[k].station != g[0].station {
                    assert(shared(g));
                }
            }
            if x.station == g[0].station {
                assert(h[i].station == g[0].station);
                assert(h[j].station == g[0].station);
            }
        }
    }
}

/// A single arrival is seen at one station.
proof fn single(x: Onset, k: Group)
    requires
        k.start == x.time,
        k.last == x.time,
        k.station == x.station,
        !k.shared,
    ensures
        kept_of(seq![x], k),
{
    let g = seq![x];
    assert forall|i: int, j: int|
        0 <= i < g.len() && 0 <= j < g.len() implies (#[trigger] g[i]).station == (
    #[trigger] g[j]).station by {}
}

/// The starts of the first groups.
spec fn starts_below(g: Seq<Seq<Onset>>, r: Seq<i128>, open: Option<Group>) -> bool {
    match open {
        None => g.len() == 0 && r.len() == 0,
        Some(k) => g.len() > 0 && kept_of(g.last(), k) && r == starts(g.drop_last()),
    }
}

/// Arrivals within what a difference can hold.
spec fn spread(s: Seq<Onset>) -> bool {
    forall|i: int| 0 <= i < s.len() ==> corrected((#[trigger] s[i]).time as int)
}

/// The starts of the groups of some sorted arrivals that are seen at two
/// stations.
fn group_starts(s: &Vec<Onset>) -> (r: Vec<i128>)
    requires
        spread(s@),
    ensures
        r@ == starts(groups(s@)),
        forall|i: int| 0 <= i < r@.len() ==> corrected((#[trigger] r@[i]) as int),
{
    let mut r: Vec<i128> = Vec::new();
    let mut open: Option<Group> = None;
    let mut i: usize = 0;
    assert(s@.take(0) =~= Seq::<Onset>::empty());
    while i < s.len()
        invariant
            i <= s@.len(),
            spread(s@),
            starts_below(groups(s@.take(i as int)), r@, open),
            open is Some ==> corrected(open->0.last as int) && corrected(open->0.start as int),
            forall|j: int| 0 <= j < r@.len() ==> corrected((#[trigger] r@[j]) as int),
        decreases s@.len() - i,
    {
        let x: Onset = s[i];
        let ghost t = s@.take(i + 1);
        let ghost g = groups(s@.take(i as int));
        let ghost h = groups(t);
        assert(t.drop_last() =~= s@.take(i as int));
        assert(t.last() == x);
        assert(corrected(x.time as int));
        match open {
            Some(k) => {
                if x.time - k.last <= SEED_GAP {
                    proof {
                        assert(h == g.drop_last().push(g.last().push(x)));
                        shared_with(g.last(), x);
                        assert(h.drop_last() =~= g.drop_last());
                        assert(h.last() == g.last().push(x));
                        assert(h.last()[0] == g.last()[0]);
                    }
                    open = Some(
                        Group {
                            start: k.start,
                            last: x.time,
                            station: k.station,
                            shared: k.shared || x.station != k.station,
                        },
                    );
                } else {
                    if k.shared {
                        r.push(k.start);
                    }
                    proof {
                        assert(h == g.push(seq![x]));
                        assert(h.drop_last() =~= g);
                        assert(h.last() == seq![x]);
                    }
                    let fresh = Group {
                        start: x.time,
                        last: x.time,
                        station: x.station,
                        shared: false,
                    };
                    proof {
                        single(x, fresh);
                    }
                    open = Some(fresh);
                }
            },
            None => {
                proof {
                    assert(h == g.push(seq![x]));
                    assert(h.drop_last() =~= Seq::<Seq<Onset>>::empty());
                    assert(h.last() == seq![x]);
                }
                let fresh = Group {
                    start: x.time,
                    last: x.time,
                    station: x.station,
                    shared: false,
                };
                proof {
                    single(x, fresh);
                }
                open = Some(fresh);
                assert(r@ =~= starts(h.drop_last()));
            },
        }
        i += 1;
    }
    assert(s@.take(i as int) =~= s@);
    if let Some(k) = open {
        if k.shared {
            r.push(k.start);
        }
    }
    r
}

/// The times at which events start: that of the first arrival of each group
/// of P arrivals that is seen at two stations.
pub fn cluster_centers(picks: &Vec<Pick>, observations: &Vec<PickObservation>) -> (r: Vec<i128>)
    requires
        forall|i: int|
            0 <= i < observations@.len() ==> (#[trigger] observations@[i]).pick_index < picks@.len()
                && corrected(observations@[i].observed_epoch as int),
    ensures
        r@ == centers(picks@, observations@),
        forall|i: int| 0 <= i < r@.len() ==> corrected((#[trigger] r@[i]) as int),
{
    let mut p: Vec<Onset> = Vec::new();
    let mut i: usize = 0;
    assert(observations@.take(0) =~= Seq::<PickObservation>::empty());
    while i < observations.len()
        invariant
            i <= observations@.len(),
            forall|j: int|
                0 <= j < observations@.len() ==> (#[trigger] observations@[j]).pick_index
                    < picks@.len() && corrected(observations@[j].observed_epoch as int),
            p@ == onsets(picks@, observations@.take(i as int)),
            spread(p@),
        decreases observations@.len() - i,
    {
        let o: PickObservation = observations[i];
        assert(observations@.take(i + 1).drop_last() =~= observations@.take(i as int));
        assert(observations@[i as int].pick_index < picks@.len());
        let pick = &picks[o.pick_index];
        if pick.phase == Phase::P && pick.status != PickStatus::Noise {
            p.push(Onset { time: o.observed_epoch, station: o.station_index });
        }
        i += 1;
    }
    assert(observations@.take(i as int) =~= observations@);
    let ghost raw = p@;
    let s = sort(p);
    proof {
        crate::order::sorted_members(raw);
        assert forall|k: int| 0 <= k < s@.len() implies corrected((#[trigger] s@[k]).time as int) by {
            assert(s@.contains(s@[k]));
            let j = choose|j: int| 0 <= j < raw.len() && raw[j] == s@[k];
            assert(corrected(raw[j].time as int));
        }
    }
    group_starts(&s)
}

/// Groups of sorted arrivals are apart by more than the gap.
pub open spec fn groups_apart(g: Seq<Seq<Onset>>) -> bool {
    &&& forall|i: int|
        0 <= i < g.len() ==> (#[trigger] g[i]).len() > 0 && g[i][0].time <= g[i].last().time
    &&& forall|i: int, j: int|
        0 <= i < j < g.len() ==> (#[trigger] g[j])[0].time - (#[trigger] g[i]).last().time > SEED_GAP
}

/// Sorted arrivals fall into groups that are apart.
proof fn groups_are_apart(s: Seq<Onset>)
    requires
        crate::order::in_order(s),
    ensures
        groups_apart(groups(s)),
        s.len() > 0 ==> groups(s).len() > 0 && groups(s).last().last() == s.last(),
    decreases s.len(),
{
    if s.len() > 0 {
        let t = s.drop_last();
        let x = s.last();
        assert forall|i: int, j: int| 0 <= i <= j < t.len() implies Onset::comes_first(
            #[trigger] t[i],
            #[trigger] t[j],
        ) by {
            assert(Onset::comes_first(s[i], s[j]));
        }
        groups_are_apart(t);
        let g = groups(t);
        let h = groups(s);
        if t.len() > 0 {
            assert(Onset::comes_first(s[t.len() - 1], s[t.len() as int]));
        }
        if g.len() > 0 && x.time - g.last().last().time <= SEED_GAP {
            let last = g.len() - 1;
            assert forall|i: int| 0 <= i < h.len() implies (#[trigger] h[i]).len() > 0
                && h[i][0].time <= h[i].last().time by {
                if i < last {
                    assert(h[i] == g[i]);
                } else {
                    assert(h[i] == g[last].push(x));
                    assert(h[i][0] == g[last][0]);
                }
            }
            assert forall|i: int, j: int| 0 <= i < j < h.len() implies (#[trigger] h[j])[0].time
                - (#[trigger] h[i]).last().time > SEED_GAP by {
                assert(h[i] == g[i]);
                if j < last {
                    assert(h[j] == g[j]);
                } else {
                    assert(h[j][0] == g[last][0]);
                }
                assert(g[j][0].time - g[i].last().time > SEED_GAP);
            }
        } else {
            assert forall|i: int| 0 <= i < h.len() implies (#[trigger] h[i]).len() > 0
                && h[i][0].time <= h[i].last().time by {
                if i < g.len() {
                    assert(h[i] == g[i]);
                }
            }
            assert forall|i: int, j: int| 0 <= i < j < h.len() implies (#[trigger] h[j])[0].time
                - (#[trigger] h[i]).last().time > SEED_GAP by {
                assert(h[i] == g[i]);
                if j < g.len() {
                    assert(h[j] == g[j]);
                    assert(g[j][0].time - g[i].last().time > SEED_GAP);
                } else if i < g.len() - 1 {
                    assert(g[g.len() - 1][0].time - g[i].last().time > SEED_GAP);
                    assert(g[g.len() - 1][0].time <= g[g.len() - 1].last().time);
                }
            }
        }
    }
}

/// Whether a group that is seen at two stations starts at a time.
pub open spec fn begins_at(g: Seq<Seq<Onset>>, t: i128) -> bool {
    exists|k: int| 0 <= k < g.len() && shared(#[trigger] g[k]) && g[k][0].time == t
}

/// The starts of groups that are apart are apart, and each is the start of a
/// group that is seen at two stations.
proof fn starts_are_apart(g: Seq<Seq<Onset>>)
    requires
        groups_apart(g),
    ensures
        forall|i: int, j: int|
            0 <= i < j < starts(g).len() ==> (#[trigger] starts(g)[j]) - (#[trigger] starts(g)[i])
                > SEED_GAP,
        forall|i: int| 0 <= i < starts(g).len() ==> begins_at(g, #[trigger] starts(g)[i]),
    decreases g.len(),
{
    if g.len() > 0 {
        let t = g.drop_last();
        assert forall|i: int| 0 <= i < t.len() implies (#[trigger] t[i]).len() > 0 && t[i][0].time
            <= t[i].last().time by {
            assert(t[i] == g[i]);
        }
        assert forall|i: int, j: int| 0 <= i < j < t.len() implies (#[trigger] t[j])[0].time
            - (#[trigger] t[i]).last().time > SEED_GAP by {
            assert(g[j][0].time - g[i].last().time > SEED_GAP);
        }
        starts_are_apart(t);
        let u = starts(t);
        let r = starts(g);
        assert forall|i: int| 0 <= i < r.len() implies begins_at(g, #[trigger] r[i]) by {
            if i < u.len() {
                assert(begins_at(t, u[i]));
                let k = choose|k: int|
                    0 <= k < t.len() && shared(#[trigger] t[k]) && t[k][0].time == u[i];
                assert(shared(g[k]) && g[k][0].time == r[i]);
            } else {
                assert(shared(g[g.len() - 1]) && g[g.len() - 1][0].time == r[i]);
            }
        }
        assert forall|i: int, j: int| 0 <= i < j < r.len() implies (#[trigger] r[j]) - (
        #[trigger] r[i]) > SEED_GAP by {
            if j < u.len() {
                assert(u[j] - u[i] > SEED_GAP);
            } else {
                assert(begins_at(t, u[i]));
                let k = choose|k: int|
                    0 <= k < t.len() && shared(#[trigger] t[k]) && t[k][0].time == u[i];
                assert(t[k] == g[k]);
                assert(g[g.len() - 1][0].time - g[k].last().time > SEED_GAP);
                assert(g[k][0].time <= g[k].last().time);
            }
        }
    }
}

/// Events start more than the gap apart, in the order of their times, and
/// never from arrivals at a single station.
pub proof fn centers_are_apart(picks: Seq<Pick>, v: Seq<PickObservation>)
    ensures
        forall|i: int, j: int|
            0 <= i < j < centers(picks, v).len() ==> (#[trigger] centers(picks, v)[j]) - (
            #[trigger] centers(picks, v)[i]) > SEED_GAP,
        forall|i: int|
            0 <= i < centers(picks, v).len() ==> begins_at(
                groups(crate::order::sorted(onsets(picks, v))),
                #[trigger] centers(picks, v)[i],
            ),
{
    let s = crate::order::sorted(onsets(picks, v));
    crate::order::sorted_in_order(onsets(picks, v));
    groups_are_apart(s);
    starts_are_apart(groups(s));
}

} // verus!

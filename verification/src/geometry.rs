//! Measures of where stations are: their middle, their spread, and the widest
//! angle without one.
use vstd::prelude::*;

use crate::model::Station;
use crate::order::{in_order, sort, sorted, sorted_in_order, sorted_items, Ranked};
use crate::windows::{nearest_quotient, round_div};

verus! {

/// A full turn, in billionths of a degree.
pub const TURN: u64 = 360_000_000_000;

/// A kilometre, in billionths of a metre.
pub const KILOMETRE: i64 = 1_000_000_000_000;

impl Ranked for u64 {
    open spec fn comes_first(a: Self, b: Self) -> bool {
        a <= b
    }

    proof fn total(a: Self, b: Self) {
    }

    proof fn transitive(a: Self, b: Self, c: Self) {
    }

    fn first(a: &Self, b: &Self) -> (r: bool) {
        *a <= *b
    }
}

/// Whether all angles are within a turn.
pub open spec fn within_turn(angles: Seq<u64>) -> bool {
    forall|i: int| 0 <= i < angles.len() ==> (#[trigger] angles[i]) <= TURN
}

/// The widest step between neighbours of a list.
pub open spec fn widest_step(s: Seq<u64>) -> int
    decreases s.len(),
{
    if s.len() < 2 {
        0
    } else {
        let before = widest_step(s.drop_last());
        let step = s.last() - s[s.len() - 2];
        if step > before {
            step
        } else {
            before
        }
    }
}

/// The angle from the last of a list over the start of the turn to the first.
pub open spec fn closing_step(s: Seq<u64>) -> int {
    TURN - s.last() + s[0]
}

/// The widest angle without one of a list of angles in rising order: a full
/// turn where there is none.
pub open spec fn widest_gap(s: Seq<u64>) -> int {
    if s.len() == 0 {
        TURN as int
    } else if closing_step(s) > widest_step(s) {
        closing_step(s)
    } else {
        widest_step(s)
    }
}

/// Sorting keeps angles within a turn.
proof fn sorted_within_turn(angles: Seq<u64>)
    requires
        within_turn(angles),
    ensures
        within_turn(sorted(angles)),
        in_order(sorted(angles)),
        sorted(angles).len() == angles.len(),
{
    sorted_in_order(angles);
    sorted_items(angles);
    crate::order::sorted_members(angles);
    let s = sorted(angles);
    assert forall|i: int| 0 <= i < s.len() implies (#[trigger] s[i]) <= TURN by {
        assert(s.contains(s[i]));
        let k = choose|k: int| 0 <= k < angles.len() && angles[k] == s[i];
        assert(angles[k] <= TURN);
    }
}

/// The widest angle without a station, given the azimuths of the stations.
pub fn azimuthal_gap(angles: Vec<u64>) -> (r: u64)
    requires
        within_turn(angles@),
    ensures
        r == widest_gap(sorted(angles@)),
        r <= TURN,
{
    proof {
        sorted_within_turn(angles@);
    }
    let s = sort(angles);
    let n: usize = s.len();
    if n == 0 {
        return TURN;
    }
    let mut widest: u64 = 0;
    let mut i: usize = 1;
    assert(s@.take(1).len() == 1);
    while i < n
        invariant
            1 <= i <= n,
            n == s@.len(),
            in_order(s@),
            within_turn(s@),
            widest <= TURN,
            widest == widest_step(s@.take(i as int)),
        decreases n - i,
    {
        assert(s@.take(i + 1).drop_last() =~= s@.take(i as int));
        assert(u64::comes_first(s@[i - 1], s@[i as int]));
        assert(s@[i as int] <= TURN);
        let step: u64 = s[i] - s[i - 1];
        if step > widest {
            widest = step;
        }
        i += 1;
    }
    assert(s@.take(i as int) =~= s@);
    assert(s@[n - 1] <= TURN);
    assert(u64::comes_first(s@[0], s@[n - 1]));
    let closing: u64 = TURN - s[n - 1] + s[0];
    if closing > widest {
        closing
    } else {
        widest
    }
}

/// The widest angle without a station in thousandths of a degree, where there
/// are two stations or more.
pub open spec fn rounded_gap(angles: Seq<u64>) -> Option<int> {
    if angles.len() >= 2 {
        Some((widest_gap(sorted(angles)) + 500_000) / 1_000_000)
    } else {
        None
    }
}

/// The widest angle without a station in thousandths of a degree.
pub fn azimuth_gap(angles: Vec<u64>) -> (r: Option<u64>)
    requires
        within_turn(angles@),
    ensures
        match r {
            Some(gap) => rounded_gap(angles@) == Some(gap as int),
            None => rounded_gap(angles@) is None,
        },
        match r {
            Some(gap) => angles@.len() >= 2 && gap == (widest_gap(sorted(angles@)) + 500_000)
                / 1_000_000,
            None => angles@.len() < 2,
        },
{
    if angles.len() < 2 {
        return None;
    }
    let gap: u64 = azimuthal_gap(angles);
    Some((gap + 500_000) / 1_000_000)
}

/// No step between neighbours is wider than the gap, and one is as wide.
pub proof fn gap_is_widest(angles: Seq<u64>)
    requires
        within_turn(angles),
        angles.len() > 0,
    ensures
        ({
            let s = sorted(angles);
            let g = widest_gap(s);
            &&& forall|i: int| 0 < i < s.len() ==> (#[trigger] s[i]) - s[i - 1] <= g
            &&& closing_step(s) <= g
            &&& g == closing_step(s) || exists|i: int|
                0 < i < s.len() && g == (#[trigger] s[i]) - s[i - 1]
        }),
{
    sorted_within_turn(angles);
    let s = sorted(angles);
    steps_are_bounded(s);
    if widest_gap(s) != closing_step(s) {
        assert(u64::comes_first(s[0], s[s.len() - 1]));
        assert(s[s.len() - 1] <= TURN);
    }
}

/// No step between neighbours is wider than the widest, and one is as wide.
proof fn steps_are_bounded(s: Seq<u64>)
    ensures
        forall|i: int| 0 < i < s.len() ==> (#[trigger] s[i]) - s[i - 1] <= widest_step(s),
        widest_step(s) == 0 || exists|i: int|
            0 < i < s.len() && widest_step(s) == (#[trigger] s[i]) - s[i - 1],
        widest_step(s) >= 0,
    decreases s.len(),
{
    if s.len() >= 2 {
        let t = s.drop_last();
        steps_are_bounded(t);
        assert forall|i: int| 0 < i < s.len() implies (#[trigger] s[i]) - s[i - 1] <= widest_step(
            s,
        ) by {
            if i < t.len() {
                assert(t[i] - t[i - 1] <= widest_step(t));
            }
        }
        if widest_step(s) == widest_step(t) && widest_step(t) != 0 {
            let i = choose|i: int| 0 < i < t.len() && widest_step(t) == (#[trigger] t[i]) - t[i - 1];
            assert(s[i] - s[i - 1] == widest_step(s));
        } else if widest_step(s) != 0 {
            assert(s[s.len() - 1] - s[s.len() - 2] == widest_step(s));
        }
    }
}

/// With few stations the gap is wide: `n` stations leave a gap of a turn over
/// `n` at least.
pub proof fn few_stations_leave_a_wide_gap(angles: Seq<u64>)
    requires
        within_turn(angles),
        angles.len() > 0,
    ensures
        widest_gap(sorted(angles)) * angles.len() >= TURN,
{
    sorted_within_turn(angles);
    let s = sorted(angles);
    let g = widest_gap(s);
    steps_are_bounded(s);
    steps_add_up(s, g);
    assert(s.last() - s[0] <= g * (s.len() - 1));
    assert(g * (s.len() - 1) + g == g * s.len()) by (nonlinear_arith);
}

/// Steps of at most some width add up to no more than as many widths.
proof fn steps_add_up(s: Seq<u64>, g: int)
    requires
        s.len() > 0,
        forall|i: int| 0 < i < s.len() ==> (#[trigger] s[i]) - s[i - 1] <= g,
    ensures
        s.last() - s[0] <= g * (s.len() - 1),
    decreases s.len(),
{
    if s.len() > 1 {
        let t = s.drop_last();
        assert forall|i: int| 0 < i < t.len() implies (#[trigger] t[i]) - t[i - 1] <= g by {
            assert(s[i] - s[i - 1] <= g);
        }
        steps_add_up(t, g);
        assert(s[s.len() - 1] - s[s.len() - 2] <= g);
        assert(g * (t.len() - 1) + g == g * (s.len() - 1)) by (nonlinear_arith)
            requires
                t.len() == s.len() - 1,
        ;
    } else {
        assert(g * (s.len() - 1) == 0) by (nonlinear_arith)
            requires
                s.len() == 1,
        ;
    }
}

/// The sum of some coordinates.
pub open spec fn sum_of(v: Seq<i64>) -> int
    decreases v.len(),
{
    if v.len() == 0 {
        0
    } else {
        sum_of(v.drop_last()) + v.last()
    }
}

/// The mean of some coordinates, to the nearest.
pub open spec fn mean_of(v: Seq<i64>) -> int {
    nearest_quotient(sum_of(v), v.len() as int)
}

/// The distance between two coordinates.
pub open spec fn apart(a: int, b: int) -> int {
    if a < b {
        b - a
    } else {
        a - b
    }
}

/// The greatest distance of some coordinates from another, a kilometre at
/// least.
pub open spec fn spread_of(v: Seq<i64>, center: int) -> int
    decreases v.len(),
{
    if v.len() == 0 {
        KILOMETRE as int
    } else {
        let rest = spread_of(v.drop_last(), center);
        let d = apart(v.last() as int, center);
        if d > rest {
            d
        } else {
            rest
        }
    }
}

/// A sum of coordinates is within as many times their range.
proof fn sum_bounds(v: Seq<i64>)
    ensures
        -0x8000_0000_0000_0000 * v.len() <= sum_of(v) <= 0x7fff_ffff_ffff_ffff * v.len(),
    decreases v.len(),
{
    if v.len() > 0 {
        sum_bounds(v.drop_last());
    }
}

/// The mean of some coordinates.
pub fn mean(v: &Vec<i64>) -> (r: i128)
    requires
        v@.len() > 0,
    ensures
        r == mean_of(v@),
        -0x8000_0000_0000_0000 <= r <= 0x7fff_ffff_ffff_ffff,
{
    let n: usize = v.len();
    let mut sum: i128 = 0;
    let mut i: usize = 0;
    assert(v@.take(0) =~= Seq::<i64>::empty());
    while i < n
        invariant
            n == v@.len(),
            i <= n,
            sum == sum_of(v@.take(i as int)),
        decreases n - i,
    {
        assert(v@.take(i + 1).drop_last() =~= v@.take(i as int));
        proof {
            sum_bounds(v@.take(i as int));
            assert(v@.take(i as int).len() == i);
        }
        sum = sum + v[i] as i128;
        i += 1;
    }
    assert(v@.take(i as int) =~= v@);
    proof {
        sum_bounds(v@);
        let (s, k) = (sum as int, n as int);
        assert(-0x8000_0000_0000_0000 <= (2 * s + k) / (2 * k) <= 0x7fff_ffff_ffff_ffff)
            by (nonlinear_arith)
            requires
                k > 0,
                -0x8000_0000_0000_0000 * k <= s <= 0x7fff_ffff_ffff_ffff * k,
        ;
    }
    round_div(sum, n as i128)
}

/// The greatest distance of some coordinates from another.
pub fn spread(v: &Vec<i64>, center: i128) -> (r: i128)
    requires
        -0x8000_0000_0000_0000 <= center <= 0x8000_0000_0000_0000,
    ensures
        r == spread_of(v@, center as int),
        0 <= r <= 0x1_0000_0000_0000_0000,
{
    let mut r: i128 = KILOMETRE as i128;
    let mut i: usize = 0;
    assert(v@.take(0) =~= Seq::<i64>::empty());
    while i < v.len()
        invariant
            i <= v@.len(),
            -0x8000_0000_0000_0000 <= center <= 0x8000_0000_0000_0000,
            r == spread_of(v@.take(i as int), center as int),
            0 <= r <= 0x1_0000_0000_0000_0000,
        decreases v@.len() - i,
    {
        assert(v@.take(i + 1).drop_last() =~= v@.take(i as int));
        let x: i128 = v[i] as i128;
        let d: i128 = if x < center {
            center - x
        } else {
            x - center
        };
        if d > r {
            r = d;
        }
        i += 1;
    }
    assert(v@.take(i as int) =~= v@);
    r
}

/// The latitudes of some stations.
pub open spec fn latitudes(v: Seq<Station>) -> Seq<i64> {
    v.map_values(|s: Station| s.latitude)
}

/// The longitudes of some stations.
pub open spec fn longitudes(v: Seq<Station>) -> Seq<i64> {
    v.map_values(|s: Station| s.longitude)
}

/// The middle of some stations: the mean of their latitudes and that of their
/// longitudes, or zero where there is none.
pub fn local_origin(stations: &Vec<Station>) -> (r: (i64, i64))
    ensures
        stations@.len() == 0 ==> r == (0i64, 0i64),
        stations@.len() > 0 ==> r.0 == mean_of(latitudes(stations@)) && r.1 == mean_of(
            longitudes(stations@),
        ),
{
    if stations.len() == 0 {
        return (0, 0);
    }
    let mut lat: Vec<i64> = Vec::new();
    let mut lon: Vec<i64> = Vec::new();
    let mut i: usize = 0;
    while i < stations.len()
        invariant
            i <= stations@.len(),
            lat@ == latitudes(stations@).take(i as int),
            lon@ == longitudes(stations@).take(i as int),
        decreases stations@.len() - i,
    {
        lat.push(stations[i].latitude);
        lon.push(stations[i].longitude);
        i += 1;
        assert(lat@ =~= latitudes(stations@).take(i as int));
        assert(lon@ =~= longitudes(stations@).take(i as int));
    }
    assert(lat@ =~= latitudes(stations@));
    assert(lon@ =~= longitudes(stations@));
    (mean(&lat) as i64, mean(&lon) as i64)
}

} // verus!

//! Where the fits of an event start.
use vstd::prelude::*;

use crate::geometry::{apart, mean, mean_of, spread, spread_of, KILOMETRE};
use crate::locator::{observed_stations, station_list};
use crate::model::{LayerRecord, UNIT};
use crate::order::names;
use crate::solver_types::Observation;
use crate::text::{same, views};
use crate::windows::{nearest_quotient, round_div};

verus! {

/// How far apart two starts are at least, in billionths of a metre.
pub const SEED_DISTANCE: i128 = 800_000_000_000;

/// How many starts there are at most.
pub const SEEDS: usize = 8;

/// A place where a fit starts, in billionths of a metre.
#[derive(Debug, Clone, Copy, PartialEq, Eq, Structural)]
pub struct Seed {
    pub x: i128,
    pub y: i128,
    pub depth: i64,
}

/// A part of a length in hundredths, to the nearest.
pub open spec fn part(v: int, percent: int) -> int {
    nearest_quotient(v * percent, 100)
}

/// A part of a depth.
fn part_of(v: i64, percent: i64) -> (r: i64)
    requires
        0 <= percent <= 100,
    ensures
        r == part(v as int, percent as int),
{
    assert(-0x8000_0000_0000_0000 * 100 <= v * percent <= 0x7fff_ffff_ffff_ffff * 100)
        by (nonlinear_arith)
        requires
            0 <= percent <= 100,
            -0x8000_0000_0000_0000 <= v <= 0x7fff_ffff_ffff_ffff,
    ;
    proof {
        let a = v * percent;
        assert(-0x8000_0000_0000_0000 <= (2 * a + 100) / 200 <= 0x7fff_ffff_ffff_ffff)
            by (nonlinear_arith)
            requires
                -0x8000_0000_0000_0000 * 100 <= a <= 0x7fff_ffff_ffff_ffff * 100,
        ;
        assert(nearest_quotient(a, 100) == (2 * a + 100) / 200);
    }
    round_div(v as i128 * percent as i128, 100) as i64
}

/// The depth of the bottom of the last layer.
pub open spec fn deepest(layers: Seq<LayerRecord>) -> int {
    if layers.len() == 0 {
        KILOMETRE as int
    } else {
        layers.last().depth_bottom_m as int
    }
}

/// The least depth of the bottom of a layer.
pub open spec fn shallowest(layers: Seq<LayerRecord>) -> int
    decreases layers.len(),
{
    if layers.len() == 0 {
        KILOMETRE as int
    } else if layers.len() == 1 {
        layers[0].depth_bottom_m as int
    } else {
        let rest = shallowest(layers.drop_last());
        let last = layers.last().depth_bottom_m as int;
        if last < rest {
            last
        } else {
            rest
        }
    }
}

/// The lesser depth of the two starts below a station.
pub open spec fn upper_depth(layers: Seq<LayerRecord>) -> int {
    let least = shallowest(layers);
    if least >= 5000 * UNIT {
        part(deepest(layers), 25)
    } else if part(least, 50) > 500 * UNIT {
        part(least, 50)
    } else {
        500 * UNIT
    }
}

/// The station of the first observation at a station with a given name.
pub open spec fn station_at(v: Seq<Observation>, name: Seq<char>) -> (int, int)
    decreases v.len(),
{
    if v.len() == 0 {
        (0, 0)
    } else if v[0].pick.station_id@ == name {
        (v[0].station.x as int, v[0].station.y as int)
    } else {
        station_at(v.drop_first(), name)
    }
}

/// A start below a place.
pub open spec fn seed_at(place: (int, int), depth: int) -> Seed {
    Seed { x: place.0 as i128, y: place.1 as i128, depth: depth as i64 }
}

/// The starts below some stations: two below each.
pub open spec fn station_seeds(
    v: Seq<Observation>,
    stations: Seq<Seq<char>>,
    upper: int,
    lower: int,
) -> Seq<Seed>
    decreases stations.len(),
{
    if stations.len() == 0 {
        Seq::empty()
    } else {
        let place = station_at(v, stations.last());
        station_seeds(v, stations.drop_last(), upper, lower).push(seed_at(place, upper)).push(
            seed_at(place, lower),
        )
    }
}

/// The x coordinates of the stations of some observations.
pub open spec fn xs(v: Seq<Observation>) -> Seq<i64> {
    v.map_values(|o: Observation| o.station.x)
}

/// The y coordinates of the stations of some observations.
pub open spec fn ys(v: Seq<Observation>) -> Seq<i64> {
    v.map_values(|o: Observation| o.station.y)
}

/// The starts around the middle of the stations.
pub open spec fn corner_seeds(v: Seq<Observation>, bottom: int) -> Seq<Seed> {
    let x = mean_of(xs(v));
    let y = mean_of(ys(v));
    let dx = part(spread_of(xs(v), x), 25);
    let dy = part(spread_of(ys(v), y), 25);
    let odd = part(bottom, 35);
    let even = part(bottom, 85);
    seq![
        seed_at((x - dx, y - dy), odd),
        seed_at((x + dx, y - dy), even),
        seed_at((x - dx, y + dy), odd),
        seed_at((x + dx, y + dy), even),
    ]
}

/// All places where a fit could start.
pub open spec fn all_seeds(v: Seq<Observation>, layers: Seq<LayerRecord>) -> Seq<Seed> {
    station_seeds(
        v,
        names(observed_stations(v)),
        upper_depth(layers),
        part(deepest(layers), 75),
    ) + corner_seeds(v, deepest(layers))
}

/// Whether two starts are so close that one of them will do.
pub open spec fn close(a: Seed, b: Seed) -> bool {
    &&& (a.x - b.x) * (a.x - b.x) + (a.y - b.y) * (a.y - b.y) <= SEED_DISTANCE * SEED_DISTANCE
    &&& apart(a.depth as int, b.depth as int) <= SEED_DISTANCE
}

/// Whether a start is close to none of some others.
pub open spec fn is_new(chosen: Seq<Seed>, s: Seed) -> bool {
    forall|i: int| 0 <= i < chosen.len() ==> !close(#[trigger] chosen[i], s)
}

/// Whether a start is within the layers, or a metre below them.
pub open spec fn at_depth(s: Seed, bottom: int) -> bool {
    0 <= s.depth <= bottom + UNIT
}

/// The starts that are used: the first that are within the layers and not
/// close to one before, up to a limit.
pub open spec fn chosen(seeds: Seq<Seed>, bottom: int) -> Seq<Seed>
    decreases seeds.len(),
{
    if seeds.len() == 0 {
        Seq::empty()
    } else {
        let rest = chosen(seeds.drop_last(), bottom);
        let s = seeds.last();
        if rest.len() < SEEDS && at_depth(s, bottom) && is_new(rest, s) {
            rest.push(s)
        } else {
            rest
        }
    }
}

/// The starts that are used are within the layers, no two of them are close,
/// and there are at most eight.
pub proof fn seeds_are_apart(seeds: Seq<Seed>, bottom: int)
    ensures
        chosen(seeds, bottom).len() <= 8,
        forall|i: int|
            0 <= i < chosen(seeds, bottom).len() ==> at_depth(
                #[trigger] chosen(seeds, bottom)[i],
                bottom,
            ),
        forall|i: int, j: int|
            0 <= i < j < chosen(seeds, bottom).len() ==> !close(
                #[trigger] chosen(seeds, bottom)[i],
                #[trigger] chosen(seeds, bottom)[j],
            ),
    decreases seeds.len(),
{
    if seeds.len() > 0 {
        seeds_are_apart(seeds.drop_last(), bottom);
    }
}

/// A distance beyond a limit has a square beyond that of the limit.
proof fn far_squares(d: int, e: int, limit: int)
    by (nonlinear_arith)
    requires
        limit >= 0,
        d > limit || d < -limit,
    ensures
        d * d + e * e > limit * limit,
        e * e + d * d > limit * limit,
{
}

/// Whether two starts are so close that one of them will do.
fn is_close(a: &Seed, b: &Seed) -> (r: bool)
    requires
        located(*a),
        located(*b),
    ensures
        r == close(*a, *b),
{
    let dx: i128 = a.x - b.x;
    let dy: i128 = a.y - b.y;
    if dx > SEED_DISTANCE || dx < -SEED_DISTANCE {
        proof {
            far_squares(dx as int, dy as int, SEED_DISTANCE as int);
        }
        return false;
    }
    if dy > SEED_DISTANCE || dy < -SEED_DISTANCE {
        proof {
            far_squares(dy as int, dx as int, SEED_DISTANCE as int);
        }
        return false;
    }
    proof {
        small_square(dx as int);
        small_square(dy as int);
    }
    let dz: i128 = if a.depth < b.depth {
        b.depth as i128 - a.depth as i128
    } else {
        a.depth as i128 - b.depth as i128
    };
    dx * dx + dy * dy <= 640_000_000_000_000_000_000_000 && dz <= SEED_DISTANCE
}

/// The square of a distance within the limit.
proof fn small_square(d: int)
    requires
        -SEED_DISTANCE <= d <= SEED_DISTANCE,
    ensures
        0 <= d * d <= 640_000_000_000_000_000_000_000,
        SEED_DISTANCE * SEED_DISTANCE == 640_000_000_000_000_000_000_000,
{
    assert(0 <= d * d <= 800_000_000_000 * 800_000_000_000) by (nonlinear_arith)
        requires
            -800_000_000_000 <= d <= 800_000_000_000,
    ;
    assert(800_000_000_000 * 800_000_000_000 == 640_000_000_000_000_000_000_000int)
        by (nonlinear_arith);
}

/// Whether a start has coordinates that differences can be taken of.
pub open spec fn located(s: Seed) -> bool {
    &&& -0x4_0000_0000_0000_0000 <= s.x <= 0x4_0000_0000_0000_0000
    &&& -0x4_0000_0000_0000_0000 <= s.y <= 0x4_0000_0000_0000_0000
}

/// Uses a start unless it is not within the layers, is close to one before, or
/// there are enough.
fn choose_seed(r: &mut Vec<Seed>, s: Seed, bottom: i64)
    requires
        located(s),
        forall|i: int| 0 <= i < old(r)@.len() ==> located(#[trigger] old(r)@[i]),
    ensures
        final(r)@ == if old(r)@.len() < SEEDS && at_depth(s, bottom as int) && is_new(
            old(r)@,
            s,
        ) {
            old(r)@.push(s)
        } else {
            old(r)@
        },
{
    if r.len() >= SEEDS || s.depth < 0 || s.depth as i128 > bottom as i128 + UNIT as i128 {
        return;
    }
    let mut i: usize = 0;
    while i < r.len()
        invariant
            i <= r@.len(),
            r@ == old(r)@,
            located(s),
            forall|k: int| 0 <= k < r@.len() ==> located(#[trigger] r@[k]),
            forall|k: int| 0 <= k < i ==> !close(#[trigger] r@[k], s),
        decreases r@.len() - i,
    {
        assert(located(r@[i as int]));
        if is_close(&r[i], &s) {
            return;
        }
        i += 1;
    }
    r.push(s);
}

/// Chooses the starts that are used.
fn choose_seeds(seeds: &Vec<Seed>, bottom: i64) -> (r: Vec<Seed>)
    requires
        forall|i: int| 0 <= i < seeds@.len() ==> located(#[trigger] seeds@[i]),
    ensures
        r@ == chosen(seeds@, bottom as int),
{
    let mut r: Vec<Seed> = Vec::new();
    let mut i: usize = 0;
    assert(seeds@.take(0) =~= Seq::<Seed>::empty());
    while i < seeds.len()
        invariant
            i <= seeds@.len(),
            forall|k: int| 0 <= k < seeds@.len() ==> located(#[trigger] seeds@[k]),
            forall|k: int| 0 <= k < r@.len() ==> located(#[trigger] r@[k]),
            r@ == chosen(seeds@.take(i as int), bottom as int),
        decreases seeds@.len() - i,
    {
        assert(seeds@.take(i + 1).drop_last() =~= seeds@.take(i as int));
        assert(located(seeds@[i as int]));
        choose_seed(&mut r, seeds[i], bottom);
        i += 1;
    }
    assert(seeds@.take(i as int) =~= seeds@);
    r
}

/// The place of the first observation at a station with a given name.
fn find_place(v: &Vec<Observation>, name: &str) -> (r: (i64, i64))
    ensures
        (r.0 as int, r.1 as int) == station_at(v@, name@),
{
    let mut i: usize = 0;
    assert(v@.skip(0) =~= v@);
    while i < v.len()
        invariant
            i <= v@.len(),
            station_at(v@, name@) == station_at(v@.skip(i as int), name@),
        decreases v@.len() - i,
    {
        assert(v@.skip(i as int)[0] == v@[i as int]);
        assert(v@.skip(i as int).drop_first() =~= v@.skip(i + 1));
        if same(v[i].pick.station_id.as_str(), name) {
            return (v[i].station.x, v[i].station.y);
        }
        i += 1;
    }
    (0, 0)
}

/// The starts below the stations.
fn list_station_seeds(v: &Vec<Observation>, upper: i64, lower: i64) -> (r: Vec<Seed>)
    ensures
        r@ == station_seeds(v@, names(observed_stations(v@)), upper as int, lower as int),
        forall|i: int| 0 <= i < r@.len() ==> located(#[trigger] r@[i]),
{
    let stations = station_list(v);
    let ghost all = views(stations@);
    let mut r: Vec<Seed> = Vec::new();
    let mut i: usize = 0;
    assert(all.take(0) =~= Seq::<Seq<char>>::empty());
    while i < stations.len()
        invariant
            i <= stations@.len(),
            all == views(stations@),
            r@ == station_seeds(v@, all.take(i as int), upper as int, lower as int),
            forall|k: int| 0 <= k < r@.len() ==> located(#[trigger] r@[k]),
        decreases stations@.len() - i,
    {
        assert(all.take(i + 1).drop_last() =~= all.take(i as int));
        assert(all.take(i + 1).last() == stations@[i as int]@);
        let (x, y) = find_place(v, stations[i].as_str());
        r.push(Seed { x: x as i128, y: y as i128, depth: upper });
        r.push(Seed { x: x as i128, y: y as i128, depth: lower });
        i += 1;
    }
    assert(all.take(i as int) =~= all);
    r
}

/// The coordinates of the stations of some observations.
fn coordinates(v: &Vec<Observation>) -> (r: (Vec<i64>, Vec<i64>))
    ensures
        r.0@ == xs(v@),
        r.1@ == ys(v@),
{
    let mut x: Vec<i64> = Vec::new();
    let mut y: Vec<i64> = Vec::new();
    let mut i: usize = 0;
    while i < v.len()
        invariant
            i <= v@.len(),
            x@ == xs(v@).take(i as int),
            y@ == ys(v@).take(i as int),
        decreases v@.len() - i,
    {
        x.push(v[i].station.x);
        y.push(v[i].station.y);
        i += 1;
        assert(x@ =~= xs(v@).take(i as int));
        assert(y@ =~= ys(v@).take(i as int));
    }
    assert(x@ =~= xs(v@));
    assert(y@ =~= ys(v@));
    (x, y)
}

/// The starts around the middle of the stations.
fn list_corner_seeds(v: &Vec<Observation>, bottom: i64) -> (r: Vec<Seed>)
    requires
        v@.len() > 0,
    ensures
        r@ == corner_seeds(v@, bottom as int),
        forall|i: int| 0 <= i < r@.len() ==> located(#[trigger] r@[i]),
{
    let (all_x, all_y) = coordinates(v);
    let x: i128 = mean(&all_x);
    let y: i128 = mean(&all_y);
    let dx: i128 = round_div(spread(&all_x, x) * 25, 100);
    let dy: i128 = round_div(spread(&all_y, y) * 25, 100);
    let odd: i64 = part_of(bottom, 35);
    let even: i64 = part_of(bottom, 85);
    let mut r: Vec<Seed> = Vec::new();
    r.push(Seed { x: x - dx, y: y - dy, depth: odd });
    r.push(Seed { x: x + dx, y: y - dy, depth: even });
    r.push(Seed { x: x - dx, y: y + dy, depth: odd });
    r.push(Seed { x: x + dx, y: y + dy, depth: even });
    assert(r@ =~= corner_seeds(v@, bottom as int));
    r
}

/// The least depth of the bottom of a layer.
fn least_bottom(layers: &Vec<LayerRecord>) -> (r: i64)
    ensures
        r == shallowest(layers@),
{
    if layers.len() == 0 {
        return KILOMETRE;
    }
    let mut r: i64 = layers[0].depth_bottom_m;
    let mut i: usize = 1;
    assert(layers@.take(1)[0] == layers@[0]);
    while i < layers.len()
        invariant
            1 <= i <= layers@.len(),
            r == shallowest(layers@.take(i as int)),
        decreases layers@.len() - i,
    {
        assert(layers@.take(i + 1).drop_last() =~= layers@.take(i as int));
        if layers[i].depth_bottom_m < r {
            r = layers[i].depth_bottom_m;
        }
        i += 1;
    }
    assert(layers@.take(i as int) =~= layers@);
    r
}

/// The places where the fits of an event start: below each station, and around
/// the middle of the stations.
pub fn candidate_seeds(observations: &Vec<Observation>, layers: &Vec<LayerRecord>) -> (r: Vec<Seed>)
    requires
        observations@.len() > 0,
    ensures
        r@ == chosen(all_seeds(observations@, layers@), deepest(layers@)),
{
    let bottom: i64 = if layers.len() == 0 {
        KILOMETRE
    } else {
        layers[layers.len() - 1].depth_bottom_m
    };
    let least: i64 = least_bottom(layers);
    let upper: i64 = if least >= 5_000_000_000_000 {
        part_of(bottom, 25)
    } else {
        let half: i64 = part_of(least, 50);
        if half > 500_000_000_000 {
            half
        } else {
            500_000_000_000
        }
    };
    let mut seeds = list_station_seeds(observations, upper, part_of(bottom, 75));
    let ghost below = seeds@;
    let mut corners = list_corner_seeds(observations, bottom);
    let ghost around = corners@;
    seeds.append(&mut corners);
    proof {
        assert(seeds@ =~= below + around);
        assert forall|i: int| 0 <= i < seeds@.len() implies located(#[trigger] seeds@[i]) by {
            if i < below.len() {
                assert(located(below[i]));
            } else {
                assert(located(around[i - below.len()]));
            }
        }
    }
    choose_seeds(&seeds, bottom)
}

} // verus!

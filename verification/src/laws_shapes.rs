//! Laws of shapes: gaps between directions, means and spreads of coordinates,
//! the layers of a model, and where fits start.
use vstd::prelude::*;

use crate::geometry::{
    latitudes, longitudes, mean_of, rounded_gap, spread_of, sum_of, widest_gap, widest_step,
    within_turn,
};
use crate::locator::{
    layer_at, layer_at_is_first, layer_speed, observed_stations, outside, reaches,
};
use crate::model::{LayerRecord, Phase};
use crate::order::{names, names_is, sorted, sorted_in_order, sorted_items, Ranked};
use crate::seeds::{
    all_seeds, at_depth, chosen, close, corner_seeds, deepest, is_new, part, seed_at, shallowest,
    station_at, station_seeds, upper_depth, xs, ys, Seed,
};
use crate::solver_types::Observation;
use crate::windows::nearest_quotient;

verus! {

/// The gap between directions is the widest angle from one to the next, and
/// from the last round to the first; without any it is a full turn.
pub proof fn gaps_are_the_widest_angle(angles: Seq<u64>)
    requires
        within_turn(angles),
    ensures
        ({
            let s = sorted(angles);
            let g = widest_gap(s);
            &&& angles.len() == 0 ==> g == 360_000_000_000
            &&& angles.len() > 0 ==> {
                &&& s.len() == angles.len()
                &&& forall|i: int| 0 <= i < s.len() - 1 ==> s[i + 1] - (#[trigger] s[i]) <= g
                &&& 360_000_000_000 - s[s.len() - 1] + s[0] <= g
                &&& g == 360_000_000_000 - s[s.len() - 1] + s[0] || exists|i: int|
                    0 <= i < s.len() - 1 && g == s[i + 1] - (#[trigger] s[i])
            }
        }),
{
    let s = sorted(angles);
    sorted_items(angles);
    sorted_in_order(angles);
    if angles.len() > 0 {
        assert forall|i: int| 0 <= i < s.len() - 1 implies (#[trigger] s[i]) <= s[i + 1] by {
            assert(u64::comes_first(s[i], s[i + 1]));
        }
        steps_are_widest(s);
    }
}

/// The widest step is one, and no step is wider.
proof fn steps_are_widest(s: Seq<u64>)
    requires
        s.len() > 0,
        forall|i: int| 0 <= i < s.len() - 1 ==> (#[trigger] s[i]) <= s[i + 1],
    ensures
        widest_step(s) >= 0,
        forall|i: int| 0 <= i < s.len() - 1 ==> s[i + 1] - (#[trigger] s[i]) <= widest_step(s),
        s.len() == 1 || exists|i: int|
            0 <= i < s.len() - 1 && widest_step(s) == s[i + 1] - (#[trigger] s[i]),
    decreases s.len(),
{
    if s.len() >= 2 {
        let t = s.drop_last();
        let n = s.len() - 1;
        assert forall|i: int| 0 <= i < t.len() - 1 implies (#[trigger] t[i]) <= t[i + 1] by {
            assert(s[i] <= s[i + 1]);
        }
        assert(s[n - 1] <= s[n - 1 + 1]);
        steps_are_widest(t);
        assert forall|i: int| 0 <= i < s.len() - 1 implies s[i + 1] - (#[trigger] s[i])
            <= widest_step(s) by {
            if i < n - 1 {
                assert(t[i + 1] - t[i] <= widest_step(t));
            }
        }
        if widest_step(s) == widest_step(t) && t.len() > 1 {
            let i = choose|i: int|
                0 <= i < t.len() - 1 && widest_step(t) == t[i + 1] - (#[trigger] t[i]);
            assert(widest_step(s) == s[i + 1] - s[i]);
        } else {
            assert(widest_step(s) == s[n - 1 + 1] - s[n - 1]);
        }
    }
}

/// Sums of numbers add up.
pub proof fn sums_add_up(a: Seq<i64>, b: Seq<i64>, x: i64)
    ensures
        sum_of(a + b) == sum_of(a) + sum_of(b),
        sum_of(seq![x]) == x,
        sum_of(Seq::empty()) == 0,
    decreases b.len(),
{
    let one = seq![x];
    assert(one.drop_last() =~= Seq::<i64>::empty());
    assert(sum_of(one.drop_last()) == 0);
    if b.len() > 0 {
        sums_add_up(a, b.drop_last(), x);
        assert((a + b).drop_last() =~= a + b.drop_last());
    } else {
        assert(a + b =~= a);
    }
}

/// A quotient is rounded to the nearest number.
proof fn quotients_are_nearest(a: int, b: int)
    requires
        b > 0,
    ensures
        -b < 2 * (a - nearest_quotient(a, b) * b) <= b || -b <= 2 * (a - nearest_quotient(a, b) * b)
            < b,
{
    let q = nearest_quotient(a, b);
    let (n, d) = (2 * a + b, 2 * b);
    vstd::arithmetic::div_mod::lemma_fundamental_div_mod(n, d);
    let r = n % d;
    assert(0 <= r < d);
    assert(d * q == 2 * (q * b)) by (nonlinear_arith)
        requires
            d == 2 * b,
    ;
    assert(2 * (a - q * b) == r - b) by (nonlinear_arith)
        requires
            n == d * q + r,
            n == 2 * a + b,
            d * q == 2 * (q * b),
    ;
}

/// A mean is the sum over the number of its terms, to the nearest billionth.
pub proof fn means_are_nearest(v: Seq<i64>)
    requires
        v.len() > 0,
    ensures
        -(v.len() as int) <= 2 * (sum_of(v) - mean_of(v) * v.len()) <= v.len(),
{
    quotients_are_nearest(sum_of(v), v.len() as int);
}

/// A spread is how far the farthest number is from the centre, and a kilometre
/// at least.
pub proof fn spreads_reach_the_farthest(v: Seq<i64>, center: int, i: int)
    ensures
        spread_of(v, center) >= 1_000_000_000_000,
        0 <= i < v.len() ==> v[i] - center <= spread_of(v, center) && center - v[i] <= spread_of(
            v,
            center,
        ),
        spread_of(v, center) == 1_000_000_000_000 || exists|k: int|
            0 <= k < v.len() && ((#[trigger] v[k]) - center == spread_of(v, center) || center - v[k]
                == spread_of(v, center)),
    decreases v.len(),
{
    if v.len() > 0 {
        let t = v.drop_last();
        spreads_reach_the_farthest(t, center, i);
        let last = v.len() - 1;
        if spread_of(v, center) == spread_of(t, center) {
            if spread_of(t, center) != 1_000_000_000_000 {
                let k = choose|k: int|
                    0 <= k < t.len() && ((#[trigger] t[k]) - center == spread_of(t, center)
                        || center - t[k] == spread_of(t, center));
                assert(v[k] == t[k]);
            }
        } else {
            assert(v[last] - center == spread_of(v, center) || center - v[last] == spread_of(
                v,
                center,
            ));
        }
    }
}

/// A wave has the speed of the first layer that reaches its depth, give or take
/// a metre: that of P waves or of S waves. A depth more than a metre above the
/// top or below the bottom is outside of the model.
pub proof fn speeds_are_of_the_first_layer_that_reaches(
    layers: Seq<LayerRecord>,
    depth: int,
    i: int,
)
    requires
        layers.len() > 0,
    ensures
        outside(layers, depth) <==> depth < layers[0].depth_top_m - 1_000_000_000 || depth
            > layers[layers.len() - 1].depth_bottom_m + 1_000_000_000,
        !outside(layers, depth) ==> {
            let k = layer_at(layers, depth, 0);
            &&& 0 <= k < layers.len()
            &&& depth <= layers[k].depth_bottom_m + 1_000_000_000
            &&& 0 <= i < k ==> depth > layers[i].depth_bottom_m + 1_000_000_000
            &&& layer_speed(layers[k], Phase::P) == layers[k].vp_m_s
            &&& layer_speed(layers[k], Phase::S) == layers[k].pub_vs_m_s
        },
{
    if !outside(layers, depth) {
        layer_at_is_first(layers, depth, 0);
        let k = layer_at(layers, depth, 0);
        if 0 <= i < k {
            assert(!reaches(layers[i], depth));
        }
    }
}

/// Whether two starts are at most 800 m apart, in the plane and in depth.
pub open spec fn within_800_m(a: Seed, b: Seed) -> bool {
    &&& (a.x - b.x) * (a.x - b.x) + (a.y - b.y) * (a.y - b.y) <= 800_000_000_000
        * 800_000_000_000
    &&& -800_000_000_000 <= a.depth - b.depth <= 800_000_000_000
}

/// At most eight starts are chosen, at depths from the surface to a metre below
/// the bottom, and no two within 800 m of each other. Whatever is not chosen is
/// too deep or too high, or within 800 m of one that is, or there were eight
/// already.
pub proof fn starts_are_chosen_apart(seeds: Seq<Seed>, bottom: int, s: Seed)
    ensures
        chosen(seeds, bottom).len() <= 8,
        chosen(seeds, bottom).contains(s) ==> seeds.contains(s) && 0 <= s.depth <= bottom
            + 1_000_000_000,
        forall|i: int, j: int|
            0 <= i < j < chosen(seeds, bottom).len() ==> !within_800_m(
                #[trigger] chosen(seeds, bottom)[i],
                #[trigger] chosen(seeds, bottom)[j],
            ),
        seeds.contains(s) ==> chosen(seeds, bottom).contains(s) || s.depth < 0 || s.depth > bottom
            + 1_000_000_000 || chosen(seeds, bottom).len() == 8 || exists|i: int|
            0 <= i < chosen(seeds, bottom).len() && within_800_m(
                #[trigger] chosen(seeds, bottom)[i],
                s,
            ),
    decreases seeds.len(),
{
    if seeds.len() > 0 {
        let t = seeds.drop_last();
        let last = seeds.last();
        starts_are_chosen_apart(t, bottom, s);
        let (before, after) = (chosen(t, bottom), chosen(seeds, bottom));
        assert forall|a: Seed, b: Seed| close(a, b) <==> #[trigger] within_800_m(a, b) by {}
        if t.contains(s) {
            let i = choose|i: int| 0 <= i < t.len() && t[i] == s;
            assert(seeds[i] == s);
        }
        if seeds.contains(s) && s != last {
            let i = choose|i: int| 0 <= i < seeds.len() && seeds[i] == s;
            assert(t[i] == s);
        }
        assert(seeds[seeds.len() - 1] == last);
        if before.contains(s) {
            let i = choose|i: int| 0 <= i < before.len() && before[i] == s;
            assert(after[i] == s);
        }
        if after.contains(s) && !before.contains(s) {
            let i = choose|i: int| 0 <= i < after.len() && after[i] == s;
            if i < before.len() {
                assert(before[i] == s);
            }
        }
        assert forall|i: int, j: int| 0 <= i < j < after.len() implies !within_800_m(
            #[trigger] after[i],
            #[trigger] after[j],
        ) by {
            assert(after[i] == before[i]);
            if j < before.len() {
                assert(after[j] == before[j]);
            } else {
                assert(!close(before[i], last));
            }
        }
        if t.contains(s) && exists|i: int|
            0 <= i < before.len() && within_800_m(#[trigger] before[i], s) {
            let i = choose|i: int| 0 <= i < before.len() && within_800_m(#[trigger] before[i], s);
            assert(after[i] == before[i]);
        }
        if s == last {
            if before.len() < 8 && at_depth(s, bottom) {
                if is_new(before, s) {
                    assert(after[after.len() - 1] == s);
                } else {
                    let i = choose|i: int| 0 <= i < before.len() && close(#[trigger] before[i], s);
                    assert(within_800_m(after[i], s));
                }
            }
        }
    }
}

/// A part of a number is so many hundredths of it, to the nearest.
pub proof fn parts_are_hundredths(v: int, percent: int)
    ensures
        -50 <= v * percent - 100 * part(v, percent) <= 50,
{
    quotients_are_nearest(v * percent, 100);
}

/// Fits start below each station, at two depths, and at four places round the
/// middle of the stations, a quarter of their spread away in either direction.
pub proof fn fits_start_below_stations_and_round_them(
    v: Seq<Observation>,
    layers: Seq<LayerRecord>,
    k: int,
)
    requires
        0 <= k < v.len(),
    ensures
        ({
            let place = station_at(v, v[k].pick.station_id@);
            let all = all_seeds(v, layers);
            &&& all.contains(seed_at(place, upper_depth(layers)))
            &&& all.contains(seed_at(place, part(deepest(layers), 75)))
            &&& all.len() == 2 * names(observed_stations(v)).len() + 4
        }),
        ({
            let (x, y) = (mean_of(xs(v)), mean_of(ys(v)));
            let (dx, dy) = (part(spread_of(xs(v), x), 25), part(spread_of(ys(v), y), 25));
            let (odd, even) = (part(deepest(layers), 35), part(deepest(layers), 85));
            let all = all_seeds(v, layers);
            &&& all.contains(seed_at((x - dx, y - dy), odd))
            &&& all.contains(seed_at((x + dx, y - dy), even))
            &&& all.contains(seed_at((x - dx, y + dy), odd))
            &&& all.contains(seed_at((x + dx, y + dy), even))
        }),
{
    let list = names(observed_stations(v));
    names_is(observed_stations(v));
    let name = v[k].pick.station_id@;
    assert(observed_stations(v)[k] == name);
    assert(observed_stations(v).contains(name));
    assert(list.contains(name));
    let i = choose|i: int| 0 <= i < list.len() && list[i] == name;
    let (u, l) = (upper_depth(layers), part(deepest(layers), 75));
    let a = station_seeds(v, list, u, l);
    let b = corner_seeds(v, deepest(layers));
    let all = all_seeds(v, layers);
    station_seeds_hold(v, list, u, l, i);
    assert(all[2 * i] == a[2 * i] && all[2 * i + 1] == a[2 * i + 1]);
    let n = a.len() as int;
    assert(all[n] == b[0] && all[n + 1] == b[1] && all[n + 2] == b[2] && all[n + 3] == b[3]);
}

/// Where fits start below stations.
proof fn station_seeds_hold(
    v: Seq<Observation>,
    stations: Seq<Seq<char>>,
    upper: int,
    lower: int,
    i: int,
)
    ensures
        station_seeds(v, stations, upper, lower).len() == 2 * stations.len(),
        0 <= i < stations.len() ==> station_seeds(v, stations, upper, lower)[2 * i] == seed_at(
            station_at(v, stations[i]),
            upper,
        ) && station_seeds(v, stations, upper, lower)[2 * i + 1] == seed_at(
            station_at(v, stations[i]),
            lower,
        ),
    decreases stations.len(),
{
    if stations.len() > 0 {
        let t = stations.drop_last();
        station_seeds_hold(v, t, upper, lower, i);
    }
}

/// A station is where its first observation has it.
pub proof fn stations_are_where_first_observed(v: Seq<Observation>, k: int)
    requires
        0 <= k < v.len(),
        forall|i: int| 0 <= i < k ==> (#[trigger] v[i]).pick.station_id@ != v[k].pick.station_id@,
    ensures
        station_at(v, v[k].pick.station_id@) == (v[k].station.x as int, v[k].station.y as int),
    decreases v.len(),
{
    if k > 0 {
        let t = v.drop_first();
        assert(v[0].pick.station_id@ != v[k].pick.station_id@);
        assert forall|i: int| 0 <= i < k - 1 implies (#[trigger] t[i]).pick.station_id@ != t[k
            - 1].pick.station_id@ by {
            assert(t[i] == v[i + 1]);
        }
        stations_are_where_first_observed(t, k - 1);
    }
}

/// The upper depth at which fits start is a quarter of the whole depth where
/// every layer ends at 5 km or deeper; else half the depth of the shallowest
/// end, and 500 m at least.
pub proof fn upper_starts_are_shallow(layers: Seq<LayerRecord>, i: int)
    requires
        layers.len() > 0,
    ensures
        deepest(layers) == layers[layers.len() - 1].depth_bottom_m,
        0 <= i < layers.len() ==> shallowest(layers) <= layers[i].depth_bottom_m,
        exists|k: int| 0 <= k < layers.len() && (#[trigger] layers[k]).depth_bottom_m == shallowest(
            layers,
        ),
        shallowest(layers) >= 5_000_000_000_000 ==> -50 <= 25 * deepest(layers) - 100 * upper_depth(
            layers,
        ) <= 50,
        shallowest(layers) < 5_000_000_000_000 ==> upper_depth(layers) >= 500_000_000_000 && 2
            * upper_depth(layers) + 1 >= shallowest(layers) && (upper_depth(layers)
            == 500_000_000_000 || 2 * upper_depth(layers) - 1 <= shallowest(layers)),
{
    shallowest_is(layers, i);
    parts_are_hundredths(deepest(layers), 25);
    parts_are_hundredths(shallowest(layers), 50);
}

/// The shallowest end of a layer is one, and none is shallower.
proof fn shallowest_is(layers: Seq<LayerRecord>, i: int)
    requires
        layers.len() > 0,
    ensures
        0 <= i < layers.len() ==> shallowest(layers) <= layers[i].depth_bottom_m,
        exists|k: int| 0 <= k < layers.len() && (#[trigger] layers[k]).depth_bottom_m == shallowest(
            layers,
        ),
    decreases layers.len(),
{
    let n = layers.len() - 1;
    if n > 0 {
        let t = layers.drop_last();
        shallowest_is(t, i);
        let k = choose|k: int|
            0 <= k < t.len() && (#[trigger] t[k]).depth_bottom_m == shallowest(t);
        assert(layers[k] == t[k]);
        assert(layers[n] == layers.last());
    } else {
        assert(layers[0].depth_bottom_m == shallowest(layers));
    }
}

/// A gap is told in thousandths of a degree, to the nearest, where there are two
/// directions at least.
pub proof fn gaps_are_told_in_thousandths(angles: Seq<u64>)
    requires
        within_turn(angles),
    ensures
        rounded_gap(angles) is Some <==> angles.len() >= 2,
        rounded_gap(angles) matches Some(g) ==> -500_000 <= 1_000_000 * g - widest_gap(
            sorted(angles),
        ) <= 500_000,
{
}

/// The middle of stations is of their latitudes and of their longitudes.
pub proof fn coordinates_are_of_the_stations(v: Seq<crate::model::Station>, i: int)
    requires
        0 <= i < v.len(),
    ensures
        latitudes(v).len() == v.len() && longitudes(v).len() == v.len(),
        latitudes(v)[i] == v[i].latitude,
        longitudes(v)[i] == v[i].longitude,
{
}

} // verus!

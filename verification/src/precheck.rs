//! Picks that enter the association: those not replaced by hand, and those
//! whose phases can follow each other at their station.
use vstd::prelude::*;

use crate::cluster::{climbing, PHASE_GAP_MIN, TOLERANCE};
use crate::model::{Phase, Pick};
use crate::order::{distinct, rising, rising_unique, sort, sorted, Ranked};
use crate::text::{same, views};

verus! {

/// Whether a pick made by hand replaces the pick with the given id.
pub open spec fn superseded(picks: Seq<Pick>, id: Seq<char>) -> bool {
    exists|j: int|
        0 <= j < picks.len() && (#[trigger] picks[j]).source@ == "manual"@ && (
        picks[j].related_id matches Some(r) && r@ == id)
}

/// Whether a pick made by hand replaces the pick with the given id.
fn is_superseded(picks: &Vec<Pick>, id: &str) -> (r: bool)
    ensures
        r == superseded(picks@, id@),
{
    let mut j: usize = 0;
    while j < picks.len()
        invariant
            j <= picks@.len(),
            forall|k: int|
                0 <= k < j ==> !((#[trigger] picks@[k]).source@ == "manual"@ && (
                picks@[k].related_id matches Some(r) && r@ == id@)),
        decreases picks@.len() - j,
    {
        if same(picks[j].source.as_str(), "manual") {
            if let Some(related) = &picks[j].related_id {
                if same(related.as_str(), id) {
                    return true;
                }
            }
        }
        j += 1;
    }
    false
}

/// The positions of the picks that no pick made by hand replaces.
pub fn effective_pick_ids(picks: &Vec<Pick>) -> (r: Vec<usize>)
    ensures
        climbing(r@),
        forall|k: int|
            0 <= k < r@.len() ==> (#[trigger] r@[k]) < picks@.len() && !superseded(
                picks@,
                picks@[r@[k] as int].id@,
            ),
        forall|k: usize|
            k < picks@.len() && !superseded(picks@, picks@[k as int].id@) ==> #[trigger] r@.contains(k),
{
    let mut r: Vec<usize> = Vec::new();
    let mut i: usize = 0;
    while i < picks.len()
        invariant
            i <= picks@.len(),
            climbing(r@),
            forall|k: int|
                0 <= k < r@.len() ==> (#[trigger] r@[k]) < i && !superseded(
                    picks@,
                    picks@[r@[k] as int].id@,
                ),
            forall|k: usize|
                k < i && !superseded(picks@, picks@[k as int].id@) ==> #[trigger] r@.contains(k),
        decreases picks@.len() - i,
    {
        if !is_superseded(picks, picks[i].id.as_str()) {
            let ghost before = r@;
            r.push(i);
            proof {
                assert(r@[before.len() as int] == i);
                assert forall|k: usize|
                    k < i + 1 && !superseded(picks@, picks@[k as int].id@) implies #[trigger]
                    r@.contains(k) by {
                    if k < i {
                        assert(before.contains(k));
                        let m = choose|m: int| 0 <= m < before.len() && before[m] == k;
                        assert(r@[m] == k);
                    }
                }
            }
        }
        i += 1;
    }
    r
}

/// A pick in the time order of its station.
#[derive(Debug, Clone, Copy)]
pub struct Arrival {
    pub time: i64,
    pub index: usize,
}

impl Ranked for Arrival {
    /// By time, then by position.
    open spec fn comes_first(a: Self, b: Self) -> bool {
        a.time < b.time || (a.time == b.time && a.index <= b.index)
    }

    proof fn total(a: Self, b: Self) {
    }

    proof fn transitive(a: Self, b: Self, c: Self) {
    }

    fn first(a: &Self, b: &Self) -> (r: bool) {
        a.time < b.time || (a.time == b.time && a.index <= b.index)
    }
}

/// The arrivals at a station among the given picks.
pub open spec fn arrivals_at(picks: Seq<Pick>, ids: Seq<usize>, station: Seq<char>) -> Seq<Arrival>
    decreases ids.len(),
{
    if ids.len() == 0 {
        Seq::empty()
    } else {
        let rest = arrivals_at(picks, ids.drop_last(), station);
        let pick = picks[ids.last() as int];
        if pick.station_id@ == station {
            rest.push(Arrival { time: pick.corrected_time, index: ids.last() })
        } else {
            rest
        }
    }
}

/// The arrivals at a station in time order.
pub open spec fn station_order(
    picks: Seq<Pick>,
    ids: Seq<usize>,
    station: Seq<char>,
) -> Seq<Arrival> {
    sorted(arrivals_at(picks, ids, station))
}

/// Whether two arrivals at a station cannot follow each other: one phase
/// twice, or the phases of two arrivals in the wrong order or too close.
pub open spec fn impossible_pair(a: Pick, b: Pick) -> bool {
    let gap = b.corrected_time - a.corrected_time;
    let near = -PHASE_GAP_MIN < gap < PHASE_GAP_MIN;
    ||| a.phase == Phase::S && b.phase == Phase::P && near
    ||| a.phase == b.phase && near
    ||| a.phase == Phase::P && b.phase == Phase::S && gap < PHASE_GAP_MIN - TOLERANCE
}

/// Whether two arrivals at a station cannot follow each other.
fn impossible(a: &Pick, b: &Pick) -> (r: bool)
    ensures
        r == impossible_pair(*a, *b),
{
    let gap: i128 = b.corrected_time as i128 - a.corrected_time as i128;
    let least: i128 = PHASE_GAP_MIN as i128;
    let near = -least < gap && gap < least;
    match (a.phase, b.phase) {
        (Phase::P, Phase::S) => gap < least - TOLERANCE as i128,
        _ => near,
    }
}

/// A list with one more item, unless it is there.
pub open spec fn with(s: Seq<usize>, x: usize) -> Seq<usize> {
    if s.contains(x) {
        s
    } else {
        s.push(x)
    }
}

/// The picks of the impossible pairs among the first `k` neighbours of a
/// station's arrivals, each once, in the order in which they are met.
pub open spec fn dropped_at(picks: Seq<Pick>, arrivals: Seq<Arrival>, k: int) -> Seq<usize>
    decreases k,
{
    if k <= 0 {
        Seq::empty()
    } else {
        let before = dropped_at(picks, arrivals, k - 1);
        let a = arrivals[k - 1].index;
        let b = arrivals[k].index;
        if impossible_pair(picks[a as int], picks[b as int]) {
            with(with(before, a), b)
        } else {
            before
        }
    }
}

/// The dropped picks of one station.
pub open spec fn station_drops(picks: Seq<Pick>, ids: Seq<usize>, station: Seq<char>) -> Seq<usize> {
    let arrivals = station_order(picks, ids, station);
    dropped_at(picks, arrivals, arrivals.len() - 1)
}

/// The dropped picks of the first `n` stations, station by station.
pub open spec fn drops(
    picks: Seq<Pick>,
    ids: Seq<usize>,
    stations: Seq<Seq<char>>,
    n: int,
) -> Seq<usize>
    decreases n,
{
    if n <= 0 {
        Seq::empty()
    } else {
        drops(picks, ids, stations, n - 1) + station_drops(picks, ids, stations[n - 1])
    }
}

/// The station names of the given picks.
pub open spec fn stations_of(picks: Seq<Pick>, ids: Seq<usize>) -> Seq<Seq<char>> {
    ids.map_values(|k: usize| picks[k as int].station_id@)
}

/// The distinct members of a list, in rising order.
pub open spec fn names_of(names: Seq<Seq<char>>, all: Seq<Seq<char>>) -> bool {
    rising(names) && forall|x: Seq<char>| names.contains(x) <==> all.contains(x)
}

/// Adds a position to a list unless it is there.
fn add_index(v: &mut Vec<usize>, x: usize)
    ensures
        final(v)@ == with(old(v)@, x),
{
    if !holds_index(v, x) {
        v.push(x);
    }
}

/// Whether a list holds a position.
pub fn holds_index(v: &Vec<usize>, x: usize) -> (r: bool)
    ensures
        r == v@.contains(x),
{
    let mut i: usize = 0;
    while i < v.len()
        invariant
            i <= v@.len(),
            forall|j: int| 0 <= j < i ==> #[trigger] v@[j] != x,
        decreases v@.len() - i,
    {
        if v[i] == x {
            return true;
        }
        i += 1;
    }
    false
}

/// The dropped picks of one station.
fn drop_at_station(picks: &Vec<Pick>, ids: &Vec<usize>, station: &str) -> (r: Vec<usize>)
    requires
        forall|k: int| 0 <= k < ids@.len() ==> (#[trigger] ids@[k]) < picks@.len(),
    ensures
        r@ == station_drops(picks@, ids@, station@),
{
    let mut arrivals: Vec<Arrival> = Vec::new();
    let mut i: usize = 0;
    assert(ids@.take(0) =~= Seq::<usize>::empty());
    while i < ids.len()
        invariant
            i <= ids@.len(),
            forall|k: int| 0 <= k < ids@.len() ==> (#[trigger] ids@[k]) < picks@.len(),
            arrivals@ == arrivals_at(picks@, ids@.take(i as int), station@),
            forall|k: int| 0 <= k < arrivals@.len() ==> (#[trigger] arrivals@[k]).index < picks@.len(),
        decreases ids@.len() - i,
    {
        let k: usize = ids[i];
        if same(picks[k].station_id.as_str(), station) {
            arrivals.push(Arrival { time: picks[k].corrected_time, index: k });
        }
        assert(ids@.take(i + 1).drop_last() =~= ids@.take(i as int));
        assert(ids@.take(i + 1).last() == k);
        i += 1;
    }
    assert(ids@.take(i as int) =~= ids@);
    let ghost unsorted = arrivals@;
    let order = sort(arrivals);
    proof {
        crate::order::sorted_members(unsorted);
        assert forall|k: int| 0 <= k < order@.len() implies (#[trigger] order@[k]).index
            < picks@.len() by {
            assert(order@.contains(order@[k]));
            assert(unsorted.contains(order@[k]));
        }
    }
    let mut r: Vec<usize> = Vec::new();
    let mut j: usize = 0;
    while order.len() > 0 && j < order.len() - 1
        invariant
            j <= order@.len(),
            order@.len() > 0 ==> j + 1 <= order@.len(),
            forall|k: int| 0 <= k < order@.len() ==> (#[trigger] order@[k]).index < picks@.len(),
            r@ == dropped_at(picks@, order@, j as int),
        decreases order@.len() - j,
    {
        let a: usize = order[j].index;
        let b: usize = order[j + 1].index;
        if impossible(&picks[a], &picks[b]) {
            add_index(&mut r, a);
            add_index(&mut r, b);
        }
        j += 1;
    }
    r
}

/// Splits the given picks into those whose phases can follow each other at
/// their station and those that break the order. The second list goes station
/// by station, in time order.
pub fn station_phase_precheck(picks: &Vec<Pick>, ids: &Vec<usize>) -> (r: (Vec<usize>, Vec<usize>))
    requires
        forall|k: int| 0 <= k < ids@.len() ==> (#[trigger] ids@[k]) < picks@.len(),
        climbing(ids@),
    ensures
        forall|names: Seq<Seq<char>>| #[trigger]
            names_of(names, stations_of(picks@, ids@)) ==> r.1@ == drops(
                picks@,
                ids@,
                names,
                names.len() as int,
            ),
        climbing(r.0@),
        forall|k: usize| #[trigger]
            r.0@.contains(k) <==> ids@.contains(k) && !r.1@.contains(k),
{
    let mut all: Vec<String> = Vec::new();
    let mut i: usize = 0;
    while i < ids.len()
        invariant
            i <= ids@.len(),
            forall|k: int| 0 <= k < ids@.len() ==> (#[trigger] ids@[k]) < picks@.len(),
            views(all@) == stations_of(picks@, ids@.take(i as int)),
        decreases ids@.len() - i,
    {
        let name = picks[ids[i]].station_id.clone();
        let ghost before = all@;
        all.push(name);
        assert(views(all@) =~= views(before).push(name@));
        assert(stations_of(picks@, ids@.take(i + 1)) =~= stations_of(
            picks@,
            ids@.take(i as int),
        ).push(picks@[ids@[i as int] as int].station_id@));
        i += 1;
    }
    assert(ids@.take(i as int) =~= ids@);
    let names = distinct(&all);
    let ghost known = views(names@);
    proof {
        crate::order::names_is(stations_of(picks@, ids@));
    }
    assert(names_of(known, stations_of(picks@, ids@)));
    let mut dropped: Vec<usize> = Vec::new();
    let mut n: usize = 0;
    while n < names.len()
        invariant
            n <= names@.len(),
            known == views(names@),
            forall|k: int| 0 <= k < ids@.len() ==> (#[trigger] ids@[k]) < picks@.len(),
            dropped@ == drops(picks@, ids@, known, n as int),
        decreases names@.len() - n,
    {
        let mut more = drop_at_station(picks, ids, names[n].as_str());
        assert(known[n as int] == names@[n as int]@);
        dropped.append(&mut more);
        n += 1;
    }
    assert forall|other: Seq<Seq<char>>| #[trigger]
        names_of(other, stations_of(picks@, ids@)) implies dropped@ == drops(
        picks@,
        ids@,
        other,
        other.len() as int,
    ) by {
        rising_unique(known, other);
    }
    let mut kept: Vec<usize> = Vec::new();
    let mut j: usize = 0;
    while j < ids.len()
        invariant
            j <= ids@.len(),
            climbing(ids@),
            climbing(kept@),
            forall|m: int| 0 <= m < kept@.len() ==> exists|q: int|
                0 <= q < j && ids@[q] == #[trigger] kept@[m],
            forall|m: int| 0 <= m < kept@.len() ==> !dropped@.contains(#[trigger] kept@[m]),
            forall|q: int|
                0 <= q < j && !dropped@.contains(ids@[q]) ==> kept@.contains(#[trigger] ids@[q]),
        decreases ids@.len() - j,
    {
        if !holds_index(&dropped, ids[j]) {
            let ghost before = kept@;
            kept.push(ids[j]);
            proof {
                assert(kept@[before.len() as int] == ids@[j as int]);
                assert forall|m: int| 0 <= m < before.len() implies (#[trigger] before[m])
                    < ids@[j as int] by {
                    let q = choose|q: int| 0 <= q < j && ids@[q] == before[m];
                    assert(ids@[q] < ids@[j as int]);
                }
                assert forall|m: int, p: int| 0 <= m < p < kept@.len() implies (#[trigger] kept@[m])
                    < #[trigger] kept@[p] by {
                    assert(kept@[m] == before[m]);
                    if p < before.len() {
                        assert(kept@[p] == before[p]);
                    }
                }
                assert forall|m: int| 0 <= m < kept@.len() implies exists|q: int|
                    0 <= q < j + 1 && ids@[q] == #[trigger] kept@[m] by {
                    if m < before.len() {
                        let q = choose|q: int| 0 <= q < j && ids@[q] == before[m];
                        assert(ids@[q] == kept@[m]);
                    } else {
                        assert(ids@[j as int] == kept@[m]);
                    }
                }
                assert forall|q: int| 0 <= q < j + 1 && !dropped@.contains(ids@[q]) implies kept@.contains(
                    #[trigger] ids@[q],
                ) by {
                    if q < j {
                        assert(before.contains(ids@[q]));
                        let m = choose|m: int| 0 <= m < before.len() && before[m] == ids@[q];
                        assert(kept@[m] == ids@[q]);
                    }
                }
            }
        }
        j += 1;
    }
    assert forall|k: usize| #[trigger] kept@.contains(k) <==> ids@.contains(k)
        && !dropped@.contains(k) by {
        if kept@.contains(k) {
            let m = choose|m: int| 0 <= m < kept@.len() && kept@[m] == k;
            let q = choose|q: int| 0 <= q < ids@.len() && ids@[q] == kept@[m];
            assert(ids@[q] == k);
        }
        if ids@.contains(k) && !dropped@.contains(k) {
            let q = choose|q: int| 0 <= q < ids@.len() && ids@[q] == k;
            assert(kept@.contains(ids@[q]));
        }
    }
    (kept, dropped)
}

/// The members of any list can be put in rising order, each once.
pub proof fn names_exist(all: Seq<Seq<char>>)
    ensures
        exists|names: Seq<Seq<char>>| #[trigger] names_of(names, all),
{
    crate::order::names_is(all);
    assert(names_of(crate::order::names(all), all));
}

/// The arrivals at a station are among the given picks.
proof fn arrivals_are_members(picks: Seq<Pick>, ids: Seq<usize>, station: Seq<char>)
    ensures
        forall|k: int|
            0 <= k < arrivals_at(picks, ids, station).len() ==> ids.contains(
                (#[trigger] arrivals_at(picks, ids, station)[k]).index,
            ),
    decreases ids.len(),
{
    if ids.len() > 0 {
        let t = ids.drop_last();
        arrivals_are_members(picks, t, station);
        let r = arrivals_at(picks, ids, station);
        assert forall|k: int| 0 <= k < r.len() implies ids.contains((#[trigger] r[k]).index) by {
            let rest = arrivals_at(picks, t, station);
            if k < rest.len() {
                assert(r[k] == rest[k]);
                let i = choose|i: int| 0 <= i < t.len() && t[i] == rest[k].index;
                assert(ids[i] == r[k].index);
            } else {
                assert(ids[ids.len() - 1] == r[k].index);
            }
        }
    }
}

/// What is dropped at a station was an arrival there.
proof fn dropped_are_arrivals(picks: Seq<Pick>, arrivals: Seq<Arrival>, k: int, ids: Seq<usize>)
    requires
        k < arrivals.len(),
        forall|i: int| 0 <= i < arrivals.len() ==> ids.contains((#[trigger] arrivals[i]).index),
    ensures
        forall|x: usize| #[trigger] dropped_at(picks, arrivals, k).contains(x) ==> ids.contains(x),
    decreases k,
{
    if k > 0 {
        dropped_are_arrivals(picks, arrivals, k - 1, ids);
        let before = dropped_at(picks, arrivals, k - 1);
        let a = arrivals[k - 1].index;
        let b = arrivals[k].index;
        assert forall|x: usize| #[trigger] dropped_at(picks, arrivals, k).contains(x) implies ids.contains(
            x,
        ) by {
            with_holds(before, a);
            with_holds(with(before, a), b);
            assert(with(with(before, a), b).contains(x) ==> with(before, a).contains(x) || x == b);
        }
    }
}

/// What `with` holds.
proof fn with_holds(s: Seq<usize>, x: usize)
    ensures
        forall|y: usize| #[trigger] with(s, x).contains(y) <==> s.contains(y) || y == x,
{
    let r = with(s, x);
    assert forall|y: usize| #[trigger] r.contains(y) <==> s.contains(y) || y == x by {
        if !s.contains(x) {
            if s.contains(y) {
                let i = choose|i: int| 0 <= i < s.len() && s[i] == y;
                assert(r[i] == y);
            }
            assert(r[s.len() as int] == x);
        }
    }
}

/// Whatever is dropped was among the given picks.
pub proof fn drops_are_members(
    picks: Seq<Pick>,
    ids: Seq<usize>,
    stations: Seq<Seq<char>>,
    n: int,
)
    ensures
        forall|x: usize| #[trigger] drops(picks, ids, stations, n).contains(x) ==> ids.contains(x),
    decreases n,
{
    if n > 0 {
        drops_are_members(picks, ids, stations, n - 1);
        let before = drops(picks, ids, stations, n - 1);
        let raw = arrivals_at(picks, ids, stations[n - 1]);
        let order = station_order(picks, ids, stations[n - 1]);
        arrivals_are_members(picks, ids, stations[n - 1]);
        crate::order::sorted_members(raw);
        assert forall|i: int| 0 <= i < order.len() implies ids.contains(
            (#[trigger] order[i]).index,
        ) by {
            assert(order.contains(order[i]));
            assert(raw.contains(order[i]));
        }
        dropped_are_arrivals(picks, order, order.len() - 1, ids);
        let more = station_drops(picks, ids, stations[n - 1]);
        assert forall|x: usize| #[trigger] drops(picks, ids, stations, n).contains(x) implies ids.contains(
            x,
        ) by {
            let s = before + more;
            let i = choose|i: int| 0 <= i < s.len() && s[i] == x;
            if i < before.len() {
                assert(before[i] == x);
                assert(before.contains(x));
            } else {
                assert(more[i - before.len()] == x);
                assert(more.contains(x));
            }
        }
    }
}

} // verus!

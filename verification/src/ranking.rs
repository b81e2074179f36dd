//! The ranking of candidates, and what their warnings make of them.
use vstd::prelude::*;

use crate::candidate::Candidate;
use crate::fits::note;
use crate::model::Phase;
use crate::network::VelocityModel;
use crate::network_fit::CandidatePick;
use crate::order::{inserted, sort, sorted, Ranked};
use crate::text::{
    contains, has, le, same, text_le, text_le_antisymmetric, text_le_total, text_le_transitive,
    views,
};

verus! {

/// How many candidates of an event are kept.
pub const KEPT_PER_EVENT: usize = 3;

/// A coordinate, or that of the origin where there is none.
pub open spec fn coordinate(v: Option<i128>) -> i128 {
    match v {
        Some(x) => x,
        None => 0,
    }
}

/// A coordinate, or that of the origin where there is none.
fn coordinate_of(v: Option<i128>) -> (r: i128)
    ensures
        r == coordinate(v),
{
    match v {
        Some(x) => x,
        None => 0,
    }
}

/// Whether a candidate goes before another or ties with it: by score, then by
/// event, then by place.
pub open spec fn goes_first(a: Candidate, b: Candidate) -> bool {
    a.score_key < b.score_key || (a.score_key == b.score_key && (if a.event_key@ == b.event_key@ {
        coordinate(a.x_km) < coordinate(b.x_km) || (coordinate(a.x_km) == coordinate(b.x_km)
            && coordinate(a.y_km) <= coordinate(b.y_km))
    } else {
        text_le(a.event_key@, b.event_key@)
    }))
}

impl Ranked for Candidate {
    open spec fn comes_first(a: Self, b: Self) -> bool {
        goes_first(a, b)
    }

    proof fn total(a: Self, b: Self) {
        text_le_total(a.event_key@, b.event_key@);
    }

    proof fn transitive(a: Self, b: Self, c: Self) {
        if a.score_key == b.score_key && b.score_key == c.score_key {
            if a.event_key@ != b.event_key@ && b.event_key@ != c.event_key@ {
                text_le_transitive(a.event_key@, b.event_key@, c.event_key@);
                if a.event_key@ == c.event_key@ {
                    text_le_antisymmetric(a.event_key@, b.event_key@);
                }
            }
        }
    }

    fn first(a: &Self, b: &Self) -> (r: bool) {
        a.score_key < b.score_key || (a.score_key == b.score_key && (if same(
            a.event_key.as_str(),
            b.event_key.as_str(),
        ) {
            let (ax, bx) = (coordinate_of(a.x_km), coordinate_of(b.x_km));
            ax < bx || (ax == bx && coordinate_of(a.y_km) <= coordinate_of(b.y_km))
        } else {
            le(a.event_key.as_str(), b.event_key.as_str())
        }))
    }
}

/// How many of some candidates are of an event.
pub open spec fn count_of(v: Seq<Candidate>, key: Seq<char>) -> nat
    decreases v.len(),
{
    if v.len() == 0 {
        0
    } else {
        count_of(v.drop_last(), key) + if v.last().event_key@ == key {
            1nat
        } else {
            0nat
        }
    }
}

/// The candidates of a list that are kept, with their ranks.
pub open spec fn kept(v: Seq<Candidate>) -> Seq<Candidate>
    decreases v.len(),
{
    if v.len() == 0 {
        Seq::empty()
    } else {
        let rest = kept(v.drop_last());
        let rank = count_of(v.drop_last(), v.last().event_key@) + 1;
        if rank <= KEPT_PER_EVENT {
            rest.push(Candidate { rank: rank as usize, ..v.last() })
        } else {
            rest
        }
    }
}

/// How many of some candidates are of an event.
fn count_entries(v: &Vec<Candidate>, n: usize, key: &str) -> (r: usize)
    requires
        n <= v@.len(),
    ensures
        r == count_of(v@.take(n as int), key@),
        r <= n,
{
    let mut r: usize = 0;
    let mut i: usize = 0;
    assert(v@.take(0) =~= Seq::<Candidate>::empty());
    while i < n
        invariant
            i <= n <= v@.len(),
            r <= i,
            r == count_of(v@.take(i as int), key@),
        decreases n - i,
    {
        assert(v@.take(i + 1).drop_last() =~= v@.take(i as int));
        if same(v[i].event_key.as_str(), key) {
            r += 1;
        }
        i += 1;
    }
    r
}

/// Ranks the candidates of each event and keeps the best of each.
pub fn finalize_ranking(candidates: Vec<Candidate>) -> (r: Vec<Candidate>)
    ensures
        r@ == kept(sorted(candidates@)),
{
    let order = sort(candidates);
    let n: usize = order.len();
    let mut ranks: Vec<usize> = Vec::new();
    let mut i: usize = 0;
    while i < n
        invariant
            n == order@.len(),
            i <= n,
            ranks@.len() == i,
            forall|j: int|
                0 <= j < i ==> (#[trigger] ranks@[j]) == count_of(
                    order@.take(j),
                    order@[j].event_key@,
                ) + 1,
        decreases n - i,
    {
        let k: usize = count_entries(&order, i, order[i].event_key.as_str());
        ranks.push(k + 1);
        i += 1;
    }
    let ghost all = order@;
    let mut rest = order;
    let mut r: Vec<Candidate> = Vec::new();
    let mut done: usize = 0;
    assert(all.take(0) =~= Seq::<Candidate>::empty());
    assert(all.skip(0) =~= all);
    while rest.len() > 0
        invariant
            done <= all.len(),
            n == all.len(),
            ranks@.len() == all.len(),
            rest@ == all.skip(done as int),
            r@ == kept(all.take(done as int)),
            forall|j: int|
                0 <= j < all.len() ==> (#[trigger] ranks@[j]) == count_of(
                    all.take(j),
                    all[j].event_key@,
                ) + 1,
        decreases rest@.len(),
    {
        let mut entry = rest.remove(0);
        proof {
            assert(entry == all[done as int]);
            assert(all.take(done + 1).drop_last() =~= all.take(done as int));
            assert(all.take(done + 1).last() == entry);
            assert(rest@ =~= all.skip(done + 1));
        }
        let rank: usize = ranks[done];
        if rank <= KEPT_PER_EVENT {
            entry.rank = rank;
            r.push(entry);
        }
        done += 1;
    }
    assert(all.take(done as int) =~= all);
    r
}

/// Each event of a list keeps three candidates, or all where it has fewer.
proof fn three_remain(v: Seq<Candidate>, key: Seq<char>)
    ensures
        count_of(kept(v), key) == if count_of(v, key) < 3 {
            count_of(v, key)
        } else {
            3
        },
    decreases v.len(),
{
    if v.len() > 0 {
        three_remain(v.drop_last(), key);
        let rest = kept(v.drop_last());
        let rank = count_of(v.drop_last(), v.last().event_key@) + 1;
        if rank <= KEPT_PER_EVENT {
            let x = Candidate { rank: rank as usize, ..v.last() };
            assert(rest.push(x).drop_last() =~= rest);
        }
    }
}

/// Putting a candidate in its place counts it.
proof fn inserted_counts(v: Seq<Candidate>, x: Candidate, key: Seq<char>)
    ensures
        count_of(inserted(v, x), key) == count_of(v, key) + if x.event_key@ == key {
            1nat
        } else {
            0nat
        },
    decreases v.len(),
{
    if v.len() == 0 || goes_first(v.last(), x) {
        assert(v.push(x).drop_last() =~= v);
    } else {
        inserted_counts(v.drop_last(), x, key);
        let rest = inserted(v.drop_last(), x);
        assert(rest.push(v.last()).drop_last() =~= rest);
    }
}

/// Sorting keeps the number of candidates of an event.
proof fn sorted_counts(v: Seq<Candidate>, key: Seq<char>)
    ensures
        count_of(sorted(v), key) == count_of(v, key),
    decreases v.len(),
{
    if v.len() > 0 {
        sorted_counts(v.drop_last(), key);
        inserted_counts(sorted(v.drop_last()), v.last(), key);
    }
}

/// Each event keeps its best three candidates, or all where it has fewer.
pub proof fn three_are_kept(v: Seq<Candidate>, key: Seq<char>)
    ensures
        count_of(kept(sorted(v)), key) == if count_of(v, key) < 3 {
            count_of(v, key)
        } else {
            3
        },
{
    three_remain(sorted(v), key);
    sorted_counts(v, key);
}

/// The kept candidates of an event have the ranks one, two and three in turn.
pub proof fn ranks_run(v: Seq<Candidate>, i: int)
    requires
        0 <= i < kept(v).len(),
    ensures
        kept(v)[i].rank == count_of(kept(v).take(i), kept(v)[i].event_key@) + 1,
        kept(v)[i].rank <= 3,
    decreases v.len(),
{
    let t = v.drop_last();
    let rest = kept(t);
    let r = kept(v);
    if i < rest.len() {
        ranks_run(t, i);
        assert(r.take(i) =~= rest.take(i));
    } else {
        three_remain(t, v.last().event_key@);
        assert(r.take(i) =~= rest);
    }
}

/// The candidates that are kept are in the order of the ranking.
pub proof fn kept_in_order(v: Seq<Candidate>, i: int, j: int)
    requires
        0 <= i <= j < kept(sorted(v)).len(),
    ensures
        goes_first(kept(sorted(v))[i], kept(sorted(v))[j]),
{
    crate::order::sorted_in_order(v);
    kept_order(sorted(v), i, j);
}

/// Whether a candidate is another but for its rank.
pub open spec fn but_for_rank(a: Candidate, b: Candidate) -> bool {
    a == Candidate { rank: a.rank, ..b }
}

/// Keeping some of a list in order keeps the order.
proof fn kept_order(v: Seq<Candidate>, i: int, j: int)
    requires
        crate::order::in_order(v),
        0 <= i <= j < kept(v).len(),
    ensures
        goes_first(kept(v)[i], kept(v)[j]),
        exists|k: int| 0 <= k < v.len() && but_for_rank(kept(v)[i], #[trigger] v[k]),
    decreases v.len(),
{
    let t = v.drop_last();
    let rest = kept(t);
    let r = kept(v);
    assert forall|a: int, b: int| 0 <= a <= b < t.len() implies Candidate::comes_first(
        #[trigger] t[a],
        #[trigger] t[b],
    ) by {
        assert(Candidate::comes_first(v[a], v[b]));
    }
    if i < rest.len() {
        kept_order(t, i, if j < rest.len() {
            j
        } else {
            i
        });
        let k = choose|k: int| 0 <= k < t.len() && but_for_rank(rest[i], #[trigger] t[k]);
        assert(but_for_rank(r[i], v[k]));
        if j >= rest.len() {
            assert(Candidate::comes_first(v[k], v[v.len() - 1]));
        }
    } else {
        assert(but_for_rank(r[i], v[v.len() - 1]));
        assert(Candidate::comes_first(v[v.len() - 1], v[v.len() - 1]));
    }
}

/// Every candidate that is kept is one of those that were ranked.
pub proof fn kept_come_from(v: Seq<Candidate>, j: int) -> (i: int)
    requires
        0 <= j < kept(sorted(v)).len(),
    ensures
        0 <= i < v.len(),
        but_for_rank(kept(sorted(v))[j], v[i]),
{
    let s = sorted(v);
    crate::order::sorted_in_order(v);
    crate::order::sorted_members(v);
    kept_order(s, j, j);
    let k = choose|k: int| 0 <= k < s.len() && but_for_rank(kept(s)[j], #[trigger] s[k]);
    assert(s.contains(s[k]));
    choose|i: int| 0 <= i < v.len() && v[i] == s[k]
}

/// How close to the edge of a velocity model is on the edge, in billionths.
pub const EDGE: i128 = 300_000_000;

/// The distance between two numbers.
pub open spec fn gap(a: int, b: int) -> int {
    if a < b {
        b - a
    } else {
        a - b
    }
}

/// Whether a place is on the edge of a velocity model.
pub open spec fn on_edge(m: VelocityModel, x: int, y: int) -> bool {
    gap(x, m.x_min_km as int) < EDGE || gap(x, m.x_max_km as int) < EDGE || gap(
        y,
        m.y_min_km as int,
    ) < EDGE || gap(y, m.y_max_km as int) < EDGE
}

/// The distance between two numbers.
fn distance(a: i64, b: i64) -> (r: i128)
    ensures
        r == gap(a as int, b as int),
{
    if a < b {
        b as i128 - a as i128
    } else {
        a as i128 - b as i128
    }
}

/// What the place of a candidate gives cause to say. The gap in azimuth is in
/// thousandths of a degree.
pub open spec fn place_notes(m: VelocityModel, x: int, y: int, azimuth_gap: Option<u64>) -> Seq<
    Seq<char>,
> {
    note(
        azimuth_gap is Some && azimuth_gap->0 > 180_000,
        "azimuthal_gap_greater_than_180_degrees"@,
    ) + note(on_edge(m, x, y), "solution_on_velocity_model_boundary"@)
}

/// Adds what the place of a candidate gives cause to say.
pub fn place_warnings(
    model: &VelocityModel,
    x: i64,
    y: i64,
    azimuth_gap: Option<u64>,
    warnings: Vec<String>,
) -> (r: Vec<String>)
    ensures
        views(r@) == views(warnings@) + place_notes(*model, x as int, y as int, azimuth_gap),
{
    let mut r = warnings;
    let ghost before = views(r@);
    let wide = match azimuth_gap {
        Some(g) => g > 180_000,
        None => false,
    };
    if wide {
        r.push("azimuthal_gap_greater_than_180_degrees".to_owned());
    }
    if distance(x, model.x_min_km) < EDGE || distance(x, model.x_max_km) < EDGE || distance(
        y,
        model.y_min_km,
    ) < EDGE || distance(y, model.y_max_km) < EDGE {
        r.push("solution_on_velocity_model_boundary".to_owned());
    }
    assert(views(r@) =~= before + place_notes(*model, x as int, y as int, azimuth_gap));
    r
}

/// Whether a warning makes a candidate conditional.
pub open spec fn doubtful(w: Seq<char>) -> bool {
    has(w, "out_of"@) || has(w, "outside"@) || has(w, "boundary"@) || has(w, "rank"@) || has(
        w,
        "fewer"@,
    ) || has(w, "not_identifiable"@) || has(w, "azimuthal_gap"@) || has(w, "no_positive_degrees"@)
}

/// Whether any of some warnings makes a candidate conditional.
pub open spec fn conditional(warnings: Seq<Seq<char>>) -> bool {
    exists|i: int| 0 <= i < warnings.len() && doubtful(#[trigger] warnings[i])
}

/// The status of a candidate with coordinates.
pub fn network_status(warnings: &Vec<String>) -> (r: &'static str)
    ensures
        r@ == if conditional(views(warnings@)) {
            "conditional"@
        } else {
            "reliable"@
        },
{
    let mut i: usize = 0;
    while i < warnings.len()
        invariant
            i <= warnings@.len(),
            forall|j: int| 0 <= j < i ==> !doubtful(#[trigger] views(warnings@)[j]),
        decreases warnings@.len() - i,
    {
        let w = warnings[i].as_str();
        assert(views(warnings@)[i as int] == w@);
        if contains(w, "out_of") || contains(w, "outside") || contains(w, "boundary") || contains(
            w,
            "rank",
        ) || contains(w, "fewer") || contains(w, "not_identifiable") || contains(w, "azimuthal_gap") || contains(
            w,
            "no_positive_degrees",
        ) {
            assert(doubtful(views(warnings@)[i as int]));
            return "conditional";
        }
        i += 1;
    }
    "reliable"
}

/// A text that stands at a place of another is held by it.
proof fn held_at(s: Seq<char>, part: Seq<char>, i: int)
    requires
        0 <= i,
        i + part.len() <= s.len(),
        forall|k: int| 0 <= k < part.len() ==> s[i + k] == #[trigger] part[k],
    ensures
        has(s, part),
{
    assert(s.subrange(i, i + part.len()) =~= part);
}

/// What is said of a place outside or on the edge of a velocity model, of a
/// wide gap, and of too little to determine a fit, makes a candidate
/// conditional.
pub proof fn doubts_are_doubtful()
    ensures
        doubtful("solution_outside_velocity_model"@),
        doubtful("solution_on_velocity_model_boundary"@),
        doubtful("azimuthal_gap_greater_than_180_degrees"@),
        doubtful("no_positive_degrees_of_freedom"@),
        doubtful("fewer_than_three_stations"@),
        doubtful("fewer_than_three_p_arrivals"@),
        doubtful("rank_deficient_or_non_positive_definite_hessian"@),
        doubtful("shared_clock_bias_not_identifiable_single_event"@),
        doubtful("shared_clock_bias_not_identifiable"@),
        doubtful("shared_clock_joint_hessian_rank_deficient"@),
{
    reveal_strlit("outside");
    reveal_strlit("solution_outside_velocity_model");
    reveal_strlit("boundary");
    reveal_strlit("solution_on_velocity_model_boundary");
    reveal_strlit("azimuthal_gap");
    reveal_strlit("azimuthal_gap_greater_than_180_degrees");
    reveal_strlit("no_positive_degrees");
    reveal_strlit("no_positive_degrees_of_freedom");
    reveal_strlit("fewer");
    reveal_strlit("fewer_than_three_stations");
    reveal_strlit("fewer_than_three_p_arrivals");
    reveal_strlit("rank");
    reveal_strlit("rank_deficient_or_non_positive_definite_hessian");
    reveal_strlit("not_identifiable");
    reveal_strlit("shared_clock_bias_not_identifiable_single_event");
    reveal_strlit("shared_clock_bias_not_identifiable");
    reveal_strlit("shared_clock_joint_hessian_rank_deficient");
    held_at("solution_outside_velocity_model"@, "outside"@, 9);
    held_at("solution_on_velocity_model_boundary"@, "boundary"@, 27);
    held_at("azimuthal_gap_greater_than_180_degrees"@, "azimuthal_gap"@, 0);
    held_at("no_positive_degrees_of_freedom"@, "no_positive_degrees"@, 0);
    held_at("fewer_than_three_stations"@, "fewer"@, 0);
    held_at("fewer_than_three_p_arrivals"@, "fewer"@, 0);
    held_at("rank_deficient_or_non_positive_definite_hessian"@, "rank"@, 0);
    held_at("shared_clock_bias_not_identifiable_single_event"@, "not_identifiable"@, 18);
    held_at("shared_clock_bias_not_identifiable"@, "not_identifiable"@, 18);
    held_at("shared_clock_joint_hessian_rank_deficient"@, "rank"@, 27);
}

/// How many arrivals are of the P phase.
pub open spec fn p_arrivals(v: Seq<CandidatePick>) -> nat
    decreases v.len(),
{
    if v.len() == 0 {
        0
    } else {
        p_arrivals(v.drop_last()) + if v.last().phase == Phase::P {
            1nat
        } else {
            0nat
        }
    }
}

/// How many arrivals are of the P phase, and how many are not.
pub fn phase_tally(v: &Vec<CandidatePick>) -> (r: (usize, usize))
    ensures
        r.0 == p_arrivals(v@),
        r.0 + r.1 == v@.len(),
{
    let n: usize = v.len();
    let mut p: usize = 0;
    let mut i: usize = 0;
    assert(v@.take(0) =~= Seq::<CandidatePick>::empty());
    while i < n
        invariant
            n == v@.len(),
            i <= n,
            p <= i,
            p == p_arrivals(v@.take(i as int)),
        decreases n - i,
    {
        assert(v@.take(i + 1).drop_last() =~= v@.take(i as int));
        if v[i].phase == Phase::P {
            p += 1;
        }
        i += 1;
    }
    assert(v@.take(i as int) =~= v@);
    (p, n - p)
}

} // verus!

//! Clock residuals that several events share: which fits take part in a joint
//! fit, which stations it can tell of, and what comes of it.
use vstd::prelude::*;

use crate::order::{distinct, names, names_is, sort, sorted_by, sorted_map};
use crate::text::{concat2, member, same, text_le, views};

verus! {

/// A fitted hypothesis as far as shared clocks go: its event, whether it has a
/// solution, a key that orders as its score does, and the stations of its
/// observations.
#[derive(Debug, Clone)]
pub struct FitRecord {
    pub event_key: String,
    pub solved: bool,
    pub score: i64,
    pub stations: Vec<String>,
}

/// The events of some hypotheses.
pub open spec fn event_keys(v: Seq<FitRecord>) -> Seq<Seq<char>> {
    v.map_values(|f: FitRecord| f.event_key@)
}

/// Whether a hypothesis is a solved one of an event.
pub open spec fn solves(f: FitRecord, key: Seq<char>) -> bool {
    f.solved && f.event_key@ == key
}

/// The best solved hypothesis of an event among the first `n`; the first of
/// those with the lowest score.
pub open spec fn best_of(v: Seq<FitRecord>, key: Seq<char>, n: int) -> Option<int>
    decreases n,
{
    if n <= 0 {
        None
    } else {
        let before = best_of(v, key, n - 1);
        if !solves(v[n - 1], key) {
            before
        } else {
            match before {
                None => Some(n - 1),
                Some(p) => if v[n - 1].score < v[p].score {
                    Some(n - 1)
                } else {
                    Some(p)
                },
            }
        }
    }
}

/// The best of an event is one of its hypotheses, and none is better.
pub proof fn best_is_best(v: Seq<FitRecord>, key: Seq<char>, n: int)
    requires
        0 <= n <= v.len(),
    ensures
        match best_of(v, key, n) {
            Some(p) => 0 <= p < n && solves(v[p], key) && forall|i: int|
                0 <= i < n && solves(#[trigger] v[i], key) ==> v[p].score <= v[i].score,
            None => forall|i: int| 0 <= i < n ==> !solves(#[trigger] v[i], key),
        },
    decreases n,
{
    if n > 0 {
        best_is_best(v, key, n - 1);
    }
}

/// The best hypotheses of the events with the first `n` keys.
pub open spec fn primaries(v: Seq<FitRecord>, keys: Seq<Seq<char>>, n: int) -> Seq<int>
    decreases n,
{
    if n <= 0 {
        Seq::empty()
    } else {
        let before = primaries(v, keys, n - 1);
        match best_of(v, keys[n - 1], v.len() as int) {
            Some(p) => before.push(p),
            None => before,
        }
    }
}

/// The best hypothesis of each event, in the order of the events.
pub open spec fn primary(v: Seq<FitRecord>) -> Seq<int> {
    let keys = names(event_keys(v));
    primaries(v, keys, keys.len() as int)
}

/// How many of some hypotheses have an observation at a station.
pub open spec fn occurrence(v: Seq<FitRecord>, ids: Seq<int>, station: Seq<char>) -> nat
    decreases ids.len(),
{
    if ids.len() == 0 {
        0
    } else {
        occurrence(v, ids.drop_last(), station) + if views(v[ids.last()].stations@).contains(
            station,
        ) {
            1nat
        } else {
            0nat
        }
    }
}

/// The stations that at least two of some hypotheses have an observation at.
pub open spec fn shared_stations(
    v: Seq<FitRecord>,
    ids: Seq<int>,
    stations: Seq<Seq<char>>,
) -> Seq<Seq<char>>
    decreases stations.len(),
{
    if stations.len() == 0 {
        stations
    } else {
        let rest = shared_stations(v, ids, stations.drop_last());
        if occurrence(v, ids, stations.last()) >= 2 {
            rest.push(stations.last())
        } else {
            rest
        }
    }
}

/// The stations of a joint fit, in rising order.
pub open spec fn joint_stations(v: Seq<FitRecord>, stations: Seq<Seq<char>>) -> Seq<Seq<char>> {
    sorted_by(
        shared_stations(v, primary(v), stations),
        |a: Seq<char>, b: Seq<char>| text_le(a, b),
    )
}

/// What can be done about shared clocks.
#[derive(Debug, Clone)]
pub enum SharedPlan {
    /// There is a single event.
    SingleEvent,
    /// There are too few solved events, or too few stations that they share.
    NotIdentifiable,
    /// A joint fit of the given hypotheses, for the clocks of the given
    /// stations. The first station is the reference.
    Joint { primary: Vec<usize>, stations: Vec<String> },
}

/// Positions as integers.
pub open spec fn positions(v: Seq<usize>) -> Seq<int> {
    v.map_values(|i: usize| i as int)
}

/// What can be done about shared clocks.
pub open spec fn shared_plan(
    v: Seq<FitRecord>,
    stations: Seq<Seq<char>>,
    plan: SharedPlan,
) -> bool {
    if names(event_keys(v)).len() < 2 {
        plan is SingleEvent
    } else if primary(v).len() < 2 || joint_stations(v, stations).len() < 2 {
        plan is NotIdentifiable
    } else {
        match plan {
            SharedPlan::Joint { primary: p, stations: s } => positions(p@) == primary(v) && views(
                s@,
            ) == joint_stations(v, stations),
            _ => false,
        }
    }
}

/// The best solved hypothesis of an event.
fn find_best(v: &Vec<FitRecord>, key: &str) -> (r: Option<usize>)
    ensures
        match r {
            Some(p) => p < v@.len() && best_of(v@, key@, v@.len() as int) == Some(p as int),
            None => best_of(v@, key@, v@.len() as int) is None,
        },
{
    let mut best: Option<usize> = None;
    let mut i: usize = 0;
    while i < v.len()
        invariant
            i <= v@.len(),
            match best {
                Some(p) => p < i && best_of(v@, key@, i as int) == Some(p as int),
                None => best_of(v@, key@, i as int) is None,
            },
        decreases v@.len() - i,
    {
        if v[i].solved && same(v[i].event_key.as_str(), key) {
            let better = match best {
                Some(p) => v[i].score < v[p].score,
                None => true,
            };
            if better {
                best = Some(i);
            }
        }
        i += 1;
    }
    best
}

/// The events of some hypotheses, each once, in rising order.
fn keys_of(v: &Vec<FitRecord>) -> (r: Vec<String>)
    ensures
        views(r@) == names(event_keys(v@)),
{
    let mut all: Vec<String> = Vec::new();
    let mut i: usize = 0;
    while i < v.len()
        invariant
            i <= v@.len(),
            all@.len() == i,
            forall|j: int| 0 <= j < i ==> (#[trigger] all@[j])@ == v@[j].event_key@,
        decreases v@.len() - i,
    {
        all.push(v[i].event_key.clone());
        i += 1;
    }
    assert(views(all@) =~= event_keys(v@));
    distinct(&all)
}

/// The best hypothesis of each event with one of some keys.
fn find_primary(v: &Vec<FitRecord>, keys: &Vec<String>) -> (r: Vec<usize>)
    ensures
        positions(r@) == primaries(v@, views(keys@), keys@.len() as int),
        forall|i: int| 0 <= i < r@.len() ==> (#[trigger] r@[i]) < v@.len(),
{
    let mut r: Vec<usize> = Vec::new();
    let mut i: usize = 0;
    assert(positions(r@) =~= Seq::<int>::empty());
    while i < keys.len()
        invariant
            i <= keys@.len(),
            positions(r@) == primaries(v@, views(keys@), i as int),
            forall|j: int| 0 <= j < r@.len() ==> (#[trigger] r@[j]) < v@.len(),
        decreases keys@.len() - i,
    {
        let ghost before = r@;
        assert(views(keys@)[i as int] == keys@[i as int]@);
        if let Some(p) = find_best(v, keys[i].as_str()) {
            r.push(p);
            assert(positions(r@) =~= positions(before).push(p as int));
        }
        i += 1;
    }
    r
}

/// Whether at least two of some hypotheses have an observation at a station.
fn is_shared(v: &Vec<FitRecord>, ids: &Vec<usize>, station: &str) -> (r: bool)
    requires
        forall|i: int| 0 <= i < ids@.len() ==> (#[trigger] ids@[i]) < v@.len(),
    ensures
        r == (occurrence(v@, positions(ids@), station@) >= 2),
{
    let n: usize = ids.len();
    let mut count: usize = 0;
    let mut i: usize = 0;
    let ghost all = positions(ids@);
    assert(all.take(0) =~= Seq::<int>::empty());
    while i < n
        invariant
            n == ids@.len(),
            i <= n,
            count <= i,
            all == positions(ids@),
            forall|j: int| 0 <= j < ids@.len() ==> (#[trigger] ids@[j]) < v@.len(),
            count == occurrence(v@, all.take(i as int), station@),
        decreases n - i,
    {
        assert(all.take(i + 1).drop_last() =~= all.take(i as int));
        assert(all.take(i + 1).last() == ids@[i as int]);
        if member(&v[ids[i]].stations, station) {
            count += 1;
        }
        i += 1;
    }
    assert(all.take(i as int) =~= all);
    count >= 2
}

/// The stations of a joint fit, in rising order.
fn find_stations(v: &Vec<FitRecord>, ids: &Vec<usize>, stations: &Vec<String>) -> (r: Vec<String>)
    requires
        forall|i: int| 0 <= i < ids@.len() ==> (#[trigger] ids@[i]) < v@.len(),
    ensures
        views(r@) == sorted_by(
            shared_stations(v@, positions(ids@), views(stations@)),
            |a: Seq<char>, b: Seq<char>| text_le(a, b),
        ),
{
    let mut some: Vec<String> = Vec::new();
    let mut i: usize = 0;
    let ghost all = views(stations@);
    assert(all.take(0) =~= Seq::<Seq<char>>::empty());
    assert(views(some@) =~= Seq::<Seq<char>>::empty());
    while i < stations.len()
        invariant
            i <= stations@.len(),
            all == views(stations@),
            forall|j: int| 0 <= j < ids@.len() ==> (#[trigger] ids@[j]) < v@.len(),
            views(some@) == shared_stations(v@, positions(ids@), all.take(i as int)),
        decreases stations@.len() - i,
    {
        let ghost before = some@;
        assert(all.take(i + 1).drop_last() =~= all.take(i as int));
        assert(all.take(i + 1).last() == stations@[i as int]@);
        if is_shared(v, ids, stations[i].as_str()) {
            some.push(stations[i].clone());
            assert(views(some@) =~= views(before).push(stations@[i as int]@));
        }
        i += 1;
    }
    assert(all.take(i as int) =~= all);
    let ghost raw = some@;
    proof {
        sorted_map(raw, |s: String| s@, |a: Seq<char>, b: Seq<char>| text_le(a, b));
    }
    sort(some)
}

/// Decides what can be done about shared clocks.
pub fn plan_shared_clocks(fits: &Vec<FitRecord>, stations: &Vec<String>) -> (r: SharedPlan)
    ensures
        shared_plan(fits@, views(stations@), r),
        plan_wf(r, fits@),
{
    let keys = keys_of(fits);
    assert(views(keys@).len() == keys@.len());
    if keys.len() < 2 {
        return SharedPlan::SingleEvent;
    }
    let list = find_primary(fits, &keys);
    assert(positions(list@).len() == list@.len());
    if list.len() < 2 {
        return SharedPlan::NotIdentifiable;
    }
    let shared = find_stations(fits, &list, stations);
    assert(views(shared@).len() == shared@.len());
    if shared.len() < 2 {
        return SharedPlan::NotIdentifiable;
    }
    SharedPlan::Joint { primary: list, stations: shared }
}

/// What came of shared clocks.
#[derive(Debug, Clone)]
pub enum Verdict {
    SingleEvent,
    NotIdentifiable,
    RankDeficient,
    NotBetter,
    /// The joint fit replaces the fits of the given events. The reference
    /// station has no clock residual.
    Accepted { events: Vec<String>, reference: String },
}

/// The events of some hypotheses.
pub open spec fn events_at(v: Seq<FitRecord>, ids: Seq<usize>) -> Seq<Seq<char>> {
    ids.map_values(|i: usize| v[i as int].event_key@)
}

/// Whether a joint fit lowers the misfit, given keys that order as the misfits
/// of the joint fit and of the fits on their own do. A misfit that is no number
/// has no key, and lowers nothing.
pub open spec fn lowers(misfits: (Option<i64>, Option<i64>)) -> bool {
    match misfits {
        (Some(joint), Some(independent)) => joint < independent,
        _ => false,
    }
}

/// What comes of shared clocks, given the misfits of the joint fit and of the
/// fits on their own, where there is a joint fit: it is accepted only where it
/// is strictly better.
pub open spec fn joint_settled(
    plan: SharedPlan,
    fits: Seq<FitRecord>,
    joint: Option<(Option<i64>, Option<i64>)>,
    r: Verdict,
) -> bool {
    match plan {
        SharedPlan::SingleEvent => r is SingleEvent,
        SharedPlan::NotIdentifiable => r is NotIdentifiable,
        SharedPlan::Joint { primary: p, stations: s } => match joint {
            None => r is RankDeficient,
            Some(misfits) => if lowers(misfits) {
                match r {
                    Verdict::Accepted { events, reference } => views(events@) == events_at(
                        fits,
                        p@,
                    ) && reference@ == s@[0]@,
                    _ => false,
                }
            } else {
                r is NotBetter
            },
        },
    }
}

/// Whether a plan is about some hypotheses: its positions are theirs, and it
/// has a station.
pub open spec fn plan_wf(plan: SharedPlan, fits: Seq<FitRecord>) -> bool {
    match plan {
        SharedPlan::Joint { primary: p, stations: s } => s@.len() > 0 && forall|i: int|
            0 <= i < p@.len() ==> (#[trigger] p@[i]) < fits.len(),
        _ => true,
    }
}

/// Settles what comes of shared clocks.
pub fn settle_joint(
    plan: &SharedPlan,
    fits: &Vec<FitRecord>,
    joint: Option<(Option<i64>, Option<i64>)>,
) -> (r: Verdict)
    requires
        plan_wf(*plan, fits@),
    ensures
        joint_settled(*plan, fits@, joint, r),
{
    match plan {
        SharedPlan::SingleEvent => Verdict::SingleEvent,
        SharedPlan::NotIdentifiable => Verdict::NotIdentifiable,
        SharedPlan::Joint { primary: p, stations: s } => {
            let better = match joint {
                None => {
                    return Verdict::RankDeficient;
                },
                Some((Some(j), Some(i))) => j < i,
                Some(_) => false,
            };
            if !better {
                return Verdict::NotBetter;
            }
            let mut events: Vec<String> = Vec::new();
            let mut i: usize = 0;
            while i < p.len()
                invariant
                    i <= p@.len(),
                    forall|k: int| 0 <= k < p@.len() ==> (#[trigger] p@[k]) < fits@.len(),
                    events@.len() == i,
                    forall|k: int|
                        0 <= k < i ==> (#[trigger] events@[k])@ == fits@[p@[k] as int].event_key@,
                decreases p@.len() - i,
            {
                assert(p@[i as int] < fits@.len());
                events.push(fits[p[i]].event_key.clone());
                i += 1;
            }
            assert(views(events@) =~= events_at(fits@, p@));
            Verdict::Accepted { events, reference: s[0].clone() }
        },
    }
}

/// What a verdict gives cause to say of a hypothesis.
pub open spec fn verdict_note(v: Verdict, f: FitRecord) -> Option<Seq<char>> {
    match v {
        Verdict::SingleEvent => Some("shared_clock_bias_not_identifiable_single_event"@),
        Verdict::NotIdentifiable => Some("shared_clock_bias_not_identifiable"@),
        Verdict::RankDeficient => Some("shared_clock_joint_hessian_rank_deficient"@),
        Verdict::NotBetter => Some("shared_clock_correction_rejected_by_chi_square"@),
        Verdict::Accepted { events, reference } => if f.solved && views(events@).contains(
            f.event_key@,
        ) {
            Some("shared_clock_reference:"@ + reference@)
        } else {
            None
        },
    }
}

/// What a verdict gives cause to say of a hypothesis.
pub fn verdict_warning(v: &Verdict, f: &FitRecord) -> (r: Option<String>)
    ensures
        match r {
            Some(text) => verdict_note(*v, *f) == Some(text@),
            None => verdict_note(*v, *f) is None,
        },
{
    match v {
        Verdict::SingleEvent => Some("shared_clock_bias_not_identifiable_single_event".to_owned()),
        Verdict::NotIdentifiable => Some("shared_clock_bias_not_identifiable".to_owned()),
        Verdict::RankDeficient => Some("shared_clock_joint_hessian_rank_deficient".to_owned()),
        Verdict::NotBetter => Some("shared_clock_correction_rejected_by_chi_square".to_owned()),
        Verdict::Accepted { events, reference } => {
            if f.solved && member(events, f.event_key.as_str()) {
                Some(concat2("shared_clock_reference:", reference.as_str()))
            } else {
                None
            }
        },
    }
}

/// The place of a text in a list, or its length.
pub open spec fn text_place(v: Seq<Seq<char>>, s: Seq<char>) -> int
    decreases v.len(),
{
    if v.len() == 0 || v[0] == s {
        0
    } else {
        1 + text_place(v.drop_first(), s)
    }
}

/// The first place of a text.
pub fn slot_of(v: &Vec<String>, s: &str) -> (r: Option<usize>)
    ensures
        match r {
            Some(i) => i < v@.len() && i == text_place(views(v@), s@),
            None => text_place(views(v@), s@) == v@.len(),
        },
{
    let ghost all = views(v@);
    let mut i: usize = 0;
    assert(all.skip(0) =~= all);
    while i < v.len()
        invariant
            i <= v@.len(),
            all == views(v@),
            text_place(all, s@) == i + text_place(all.skip(i as int), s@),
        decreases v@.len() - i,
    {
        assert(all.skip(i as int)[0] == v@[i as int]@);
        if same(v[i].as_str(), s) {
            return Some(i);
        }
        assert(all.skip(i as int).drop_first() =~= all.skip(i + 1));
        i += 1;
    }
    None
}

/// The clock parameter of a station of a joint fit, behind the three of each
/// event. The first station is the reference and has none, nor has one that
/// takes no part.
pub open spec fn joint_clock(events: int, shared: Seq<Seq<char>>, station: Seq<char>) -> Option<
    int,
> {
    let slot = text_place(shared, station);
    if slot == 0 || slot == shared.len() {
        None
    } else {
        Some(events * 3 + slot - 1)
    }
}

/// The clock parameter of a station of a joint fit.
pub fn find_joint_clock(events: usize, shared: &Vec<String>, station: &str) -> (r: Option<usize>)
    requires
        events * 3 + shared@.len() <= usize::MAX,
    ensures
        match r {
            Some(p) => joint_clock(events as int, views(shared@), station@) == Some(p as int),
            None => joint_clock(events as int, views(shared@), station@) is None,
        },
{
    match slot_of(shared, station) {
        Some(slot) => {
            if slot == 0 {
                None
            } else {
                Some(events * 3 + slot - 1)
            }
        },
        None => None,
    }
}

/// What a hypothesis takes from a joint fit: the first of the three parameters
/// of its event, and the clock parameters of its stations.
#[derive(Debug, Clone)]
pub struct JointPart {
    pub start: usize,
    pub clocks: Vec<Option<usize>>,
}

/// The events of an accepted joint fit.
pub open spec fn joint_events(v: Verdict) -> Seq<Seq<char>> {
    match v {
        Verdict::Accepted { events, .. } => views(events@),
        _ => Seq::empty(),
    }
}

/// Whether a hypothesis takes its solution from a joint fit: it is a solved one
/// of an event of an accepted joint fit.
pub open spec fn takes_part(f: FitRecord, v: Verdict) -> bool {
    f.solved && joint_events(v).contains(f.event_key@)
}

/// What a hypothesis takes from a joint fit with some stations, given a verdict
/// and its own stations. Where the joint fit was not accepted it takes nothing
/// and keeps its own solution.
pub fn joint_part(
    f: &FitRecord,
    verdict: &Verdict,
    shared: &Vec<String>,
    stations: &Vec<String>,
) -> (r: Option<JointPart>)
    requires
        joint_events(*verdict).len() * 3 + shared@.len() <= usize::MAX,
    ensures
        r is Some <==> takes_part(*f, *verdict),
        match r {
            Some(part) => {
                let events = joint_events(*verdict);
                &&& part.start == 3 * text_place(events, f.event_key@)
                &&& part.start + 3 <= 3 * events.len()
                &&& part.clocks@.len() == stations@.len()
                &&& forall|i: int|
                    0 <= i < stations@.len() ==> match #[trigger] part.clocks@[i] {
                        Some(p) => joint_clock(
                            events.len() as int,
                            views(shared@),
                            stations@[i]@,
                        ) == Some(p as int),
                        None => joint_clock(
                            events.len() as int,
                            views(shared@),
                            stations@[i]@,
                        ) is None,
                    }
            },
            None => true,
        },
{
    let events: &Vec<String> = match verdict {
        Verdict::Accepted { events, .. } => events,
        _ => {
            return None;
        },
    };
    assert(views(events@).len() == events@.len());
    let place = slot_of(events, f.event_key.as_str());
    proof {
        text_place_is(views(events@), f.event_key@);
    }
    let event: usize = match place {
        Some(event) => event,
        None => return None,
    };
    if !f.solved {
        return None;
    }
    let mut clocks: Vec<Option<usize>> = Vec::new();
    let mut i: usize = 0;
    while i < stations.len()
        invariant
            events@.len() * 3 + shared@.len() <= usize::MAX,
            i <= stations@.len(),
            clocks@.len() == i,
            forall|j: int|
                0 <= j < i ==> match #[trigger] clocks@[j] {
                    Some(p) => joint_clock(
                        events@.len() as int,
                        views(shared@),
                        stations@[j]@,
                    ) == Some(p as int),
                    None => joint_clock(
                        events@.len() as int,
                        views(shared@),
                        stations@[j]@,
                    ) is None,
                },
        decreases stations@.len() - i,
    {
        clocks.push(find_joint_clock(events.len(), shared, stations[i].as_str()));
        i += 1;
    }
    Some(JointPart { start: 3 * event, clocks })
}

/// The place of a text is the first where it stands.
proof fn text_place_is(v: Seq<Seq<char>>, s: Seq<char>)
    ensures
        0 <= text_place(v, s) <= v.len(),
        text_place(v, s) < v.len() <==> v.contains(s),
        text_place(v, s) < v.len() ==> v[text_place(v, s)] == s,
    decreases v.len(),
{
    if v.len() > 0 && v[0] != s {
        let t = v.drop_first();
        text_place_is(t, s);
        if v.contains(s) {
            let k = choose|k: int| 0 <= k < v.len() && v[k] == s;
            assert(t[k - 1] == s);
        }
        if t.contains(s) {
            let k = text_place(t, s);
            assert(v[k + 1] == s);
        }
    } else if v.len() > 0 {
        assert(v[0] == s);
    }
}

/// The parameters of a joint fit are apart: those of different stations
/// differ, none is one of an event, and all are among the three of each event
/// and the one of each station but the first.
pub proof fn joint_parameters_are_apart(
    events: int,
    shared: Seq<Seq<char>>,
    a: Seq<char>,
    b: Seq<char>,
)
    requires
        events >= 0,
        a != b,
    ensures
        match (joint_clock(events, shared, a), joint_clock(events, shared, b)) {
            (Some(p), Some(q)) => p != q,
            _ => true,
        },
        match joint_clock(events, shared, a) {
            Some(p) => 3 * events <= p < 3 * events + shared.len() - 1,
            None => true,
        },
{
    text_place_is(shared, a);
    text_place_is(shared, b);
}

/// The best hypothesis of an event is among the best of all.
proof fn primaries_hold(v: Seq<FitRecord>, keys: Seq<Seq<char>>, n: int, k: int)
    requires
        0 <= k < n <= keys.len(),
        best_of(v, keys[k], v.len() as int) is Some,
    ensures
        primaries(v, keys, n).contains(best_of(v, keys[k], v.len() as int)->0),
    decreases n,
{
    let p = best_of(v, keys[k], v.len() as int)->0;
    let r = primaries(v, keys, n);
    let before = primaries(v, keys, n - 1);
    if k == n - 1 {
        assert(r[before.len() as int] == p);
    } else {
        primaries_hold(v, keys, n - 1, k);
        let i = choose|i: int| 0 <= i < before.len() && before[i] == p;
        assert(r[i] == p);
    }
}

/// Where a joint fit is accepted, every solved hypothesis takes its solution
/// from it and is given the reference station, and no other is. Where it is
/// not, every hypothesis keeps its solution and is given the reason.
pub proof fn solutions_follow_the_verdict(
    fits: Seq<FitRecord>,
    stations: Seq<Seq<char>>,
    plan: SharedPlan,
    joint: Option<(Option<i64>, Option<i64>)>,
    verdict: Verdict,
    i: int,
)
    requires
        shared_plan(fits, stations, plan),
        joint_settled(plan, fits, joint, verdict),
        0 <= i < fits.len(),
    ensures
        match verdict {
            Verdict::Accepted { reference, .. } => {
                &&& takes_part(fits[i], verdict) == fits[i].solved
                &&& verdict_note(verdict, fits[i]) == if fits[i].solved {
                    Some("shared_clock_reference:"@ + reference@)
                } else {
                    None
                }
            },
            _ => !takes_part(fits[i], verdict) && verdict_note(verdict, fits[i]) is Some,
        },
        verdict is Accepted <==> plan is Joint && joint is Some && lowers(joint->0),
{
    if let Verdict::Accepted { events, .. } = verdict {
        if fits[i].solved {
            let key = fits[i].event_key@;
            let keys = names(event_keys(fits));
            names_is(event_keys(fits));
            assert(event_keys(fits)[i] == key);
            assert(event_keys(fits).contains(key));
            assert(keys.contains(key));
            let k = choose|k: int| 0 <= k < keys.len() && keys[k] == key;
            best_is_best(fits, key, fits.len() as int);
            assert(solves(fits[i], key));
            primaries_hold(fits, keys, keys.len() as int, k);
            if let SharedPlan::Joint { primary: p, .. } = plan {
                let b = best_of(fits, key, fits.len() as int)->0;
                let j = choose|j: int| 0 <= j < positions(p@).len() && positions(p@)[j] == b;
                assert(events_at(fits, p@)[j] == key);
                assert(views(events@).contains(key));
            }
        }
    }
}

} // verus!

//! Event windows: made from clusters of picks, then adjusted so that picks
//! tied to an event by hand are in its window.
use vstd::prelude::*;

use crate::cluster::climbing;
use crate::decimal::{decimal, decimal_text, padded, padded_text};
use crate::mean::{closer, level, Fraction, Mean};
use crate::model::{find_pick, pick_ids, Lock, Pick};
use crate::order::{rising, text_lt};
use crate::precheck::holds_index;
use crate::solver_types::{reject, rejection, rejections, EventWindow, RejectedPick, Rejection};
use crate::text::{concat2, concat3, le, same};

verus! {

/// The contents of an [`EventWindow`].
#[verifier::ext_equal]
pub struct Window {
    pub key: Seq<char>,
    pub label: Seq<char>,
    pub picks: Seq<usize>,
    pub min_time: int,
    pub max_time: int,
    pub centroid_time: Fraction,
}

impl View for EventWindow {
    type V = Window;

    open spec fn view(&self) -> Window {
        Window {
            key: self.key@,
            label: self.label@,
            picks: self.picks@,
            min_time: self.min_time as int,
            max_time: self.max_time as int,
            centroid_time: self.centroid_time@,
        }
    }
}

/// The contents of a list of windows.
pub open spec fn contents(v: Seq<EventWindow>) -> Seq<Window> {
    v.map_values(|w: EventWindow| w@)
}

/// The sum of the times of the given picks.
pub open spec fn time_sum(picks: Seq<Pick>, ids: Seq<usize>) -> int
    decreases ids.len(),
{
    if ids.len() == 0 {
        0
    } else {
        time_sum(picks, ids.drop_last()) + picks[ids.last() as int].corrected_time
    }
}

/// The earliest time of the given picks.
pub open spec fn time_min(picks: Seq<Pick>, ids: Seq<usize>) -> int
    decreases ids.len(),
{
    let last = picks[ids.last() as int].corrected_time as int;
    if ids.len() <= 1 {
        last
    } else {
        let rest = time_min(picks, ids.drop_last());
        if last < rest {
            last
        } else {
            rest
        }
    }
}

/// The latest time of the given picks.
pub open spec fn time_max(picks: Seq<Pick>, ids: Seq<usize>) -> int
    decreases ids.len(),
{
    let last = picks[ids.last() as int].corrected_time as int;
    if ids.len() <= 1 {
        last
    } else {
        let rest = time_max(picks, ids.drop_last());
        if last > rest {
            last
        } else {
            rest
        }
    }
}

/// The key of the window with a given number.
pub open spec fn event_key(number: nat) -> Seq<char> {
    "event-"@ + padded(number, 2)
}

/// The label of the window with a given number.
pub open spec fn event_label(number: nat) -> Seq<char> {
    "E"@ + decimal(number)
}

/// The window over the given picks, at a given place.
pub open spec fn window_over(picks: Seq<Pick>, index: nat, ids: Seq<usize>) -> Window {
    Window {
        key: event_key(index + 1),
        label: event_label(index + 1),
        picks: ids,
        min_time: time_min(picks, ids),
        max_time: time_max(picks, ids),
        centroid_time: Fraction { sum: time_sum(picks, ids), count: ids.len() as int },
    }
}

/// The sum of the times lies between those that their ends give.
proof fn sum_between(picks: Seq<Pick>, ids: Seq<usize>)
    requires
        ids.len() > 0,
    ensures
        ids.len() * time_min(picks, ids) <= time_sum(picks, ids) <= ids.len() * time_max(
            picks,
            ids,
        ),
        time_min(picks, ids) >= i64::MIN,
        time_max(picks, ids) <= i64::MAX,
    decreases ids.len(),
{
    let n = ids.len() as int;
    let lo = time_min(picks, ids);
    let hi = time_max(picks, ids);
    if n > 1 {
        sum_between(picks, ids.drop_last());
        let t = picks[ids.last() as int].corrected_time as int;
        let lo0 = time_min(picks, ids.drop_last());
        let hi0 = time_max(picks, ids.drop_last());
        assert(n * lo == (n - 1) * lo + lo && (n - 1) * lo <= (n - 1) * lo0) by (nonlinear_arith)
            requires
                lo <= lo0,
                n > 1,
        ;
        assert(n * hi == (n - 1) * hi + hi && (n - 1) * hi >= (n - 1) * hi0) by (nonlinear_arith)
            requires
                hi >= hi0,
                n > 1,
        ;
    } else {
        assert(ids.drop_last() =~= Seq::<usize>::empty());
        assert(time_sum(picks, ids.drop_last()) == 0);
    }
}

/// Rounds a quotient down.
pub(crate) fn floor_div(a: i128, b: i128) -> (r: i128)
    requires
        b > 0,
        a > i128::MIN,
    ensures
        r as int == (a as int) / (b as int),
{
    if a >= 0 {
        a / b
    } else {
        let m: i128 = -(a + 1);
        let q: i128 = m / b;
        proof {
            let (x, y) = (a as int, b as int);
            assert((-(x + 1)) / y == q as int);
            assert(x / y == -(q as int) - 1) by (nonlinear_arith)
                requires
                    y > 0,
                    (-(x + 1)) / y == q as int,
            ;
            assert(q <= m) by (nonlinear_arith)
                requires
                    y > 0,
                    m as int / y == q as int,
                    y == b as int,
                    m >= 0,
            ;
        }
        -q - 1
    }
}

/// A quotient, rounded to the nearest number; a tie goes up.
pub open spec fn nearest_quotient(a: int, b: int) -> int {
    (2 * a + b) / (2 * b)
}

/// A quotient goes up where its rest is at least half.
proof fn nearest_by_rest(a: int, b: int)
    requires
        b > 0,
    ensures
        nearest_quotient(a, b) == if 2 * (a % b) >= b {
            a / b + 1
        } else {
            a / b
        },
{
    let (q, r) = (a / b, a % b);
    vstd::arithmetic::div_mod::lemma_fundamental_div_mod(a, b);
    let k = if 2 * r >= b {
        q + 1
    } else {
        q
    };
    assert(2 * a + b == 2 * b * k + (2 * r + b - 2 * b * (k - q))) by (nonlinear_arith)
        requires
            a == b * q + r,
    ;
    let rest = 2 * r + b - 2 * b * (k - q);
    assert(0 <= rest < 2 * b) by (nonlinear_arith)
        requires
            0 <= r < b,
            rest == 2 * r + b - 2 * b * (k - q),
            (2 * r >= b && k == q + 1) || (2 * r < b && k == q),
    ;
    assert(2 * b * k == k * (2 * b)) by (nonlinear_arith);
    vstd::arithmetic::div_mod::lemma_fundamental_div_mod_converse(2 * a + b, 2 * b, k, rest);
}

/// Rounds a quotient to the nearest number.
pub(crate) fn round_div(a: i128, b: i128) -> (r: i128)
    requires
        0 < b <= 0x1_0000_0000_0000_0000,
        a > i128::MIN,
        a < i128::MAX,
    ensures
        r as int == nearest_quotient(a as int, b as int),
{
    let q: i128 = floor_div(a, b);
    proof {
        nearest_by_rest(a as int, b as int);
        vstd::arithmetic::div_mod::lemma_fundamental_div_mod(a as int, b as int);
        let (x, y, z) = (a as int, b as int, q as int);
        assert(z < i128::MAX) by (nonlinear_arith)
            requires
                y >= 1,
                z == x / y,
                x < i128::MAX,
        ;
    }
    let rest: i128 = if a >= 0 {
        a % b
    } else {
        let m: i128 = -(a + 1);
        proof {
            let (x, y, z) = (a as int, b as int, m as int);
            vstd::arithmetic::div_mod::lemma_fundamental_div_mod(z, y);
            assert(x == (-(z / y) - 1) * y + (y - 1 - z % y)) by (nonlinear_arith)
                requires
                    z == -(x + 1),
                    z == y * (z / y) + z % y,
            ;
            vstd::arithmetic::div_mod::lemma_fundamental_div_mod_converse(
                x,
                y,
                -(z / y) - 1,
                y - 1 - z % y,
            );
        }
        b - 1 - m % b
    };
    if rest >= b - rest {
        q + 1
    } else {
        q
    }
}

/// The window over the given picks, at a given place.
pub(crate) fn make_window(picks: &Vec<Pick>, index: usize, ids: Vec<usize>) -> (w: EventWindow)
    requires
        ids@.len() > 0,
        index < usize::MAX,
        forall|k: int| 0 <= k < ids@.len() ==> (#[trigger] ids@[k]) < picks@.len(),
    ensures
        w@ == window_over(picks@, index as nat, ids@),
{
    let mut sum: i128 = 0;
    let mut low: i64 = i64::MAX;
    let mut high: i64 = i64::MIN;
    let mut i: usize = 0;
    let n: usize = ids.len();
    assert(ids@.take(0) =~= Seq::<usize>::empty());
    while i < n
        invariant
            i <= n == ids@.len(),
            forall|k: int| 0 <= k < ids@.len() ==> (#[trigger] ids@[k]) < picks@.len(),
            sum as int == time_sum(picks@, ids@.take(i as int)),
            -(i * 0x8000_0000_0000_0000) <= sum <= i * 0x8000_0000_0000_0000,
            i > 0 ==> low as int == time_min(picks@, ids@.take(i as int)),
            i > 0 ==> high as int == time_max(picks@, ids@.take(i as int)),
            i == 0 ==> low == i64::MAX && high == i64::MIN,
        decreases ids@.len() - i,
    {
        let t: i64 = picks[ids[i]].corrected_time;
        sum = sum + t as i128;
        if t < low {
            low = t;
        }
        if t > high {
            high = t;
        }
        assert(ids@.take(i + 1).drop_last() =~= ids@.take(i as int));
        assert(ids@.take(i + 1).last() == ids@[i as int]);
        i += 1;
    }
    assert(ids@.take(i as int) =~= ids@);
    proof {
        sum_between(picks@, ids@);
        let (lo, hi) = (time_min(picks@, ids@), time_max(picks@, ids@));
        assert(n * i64::MIN <= n * lo && n * hi <= n * i64::MAX) by (nonlinear_arith)
            requires
                lo >= i64::MIN,
                hi <= i64::MAX,
                n > 0,
        ;
    }
    let number: u64 = (index + 1) as u64;
    EventWindow {
        key: concat2("event-", padded_text(number, 2).as_str()),
        label: concat2("E", decimal_text(number).as_str()),
        picks: ids,
        min_time: low,
        max_time: high,
        centroid_time: Mean::new(sum, n as u64),
    }
}

/// Windows with the picks of one of them changed.
pub open spec fn with_picks(ws: Seq<Window>, t: int, picks: Seq<usize>) -> Seq<Window> {
    ws.update(t, Window { picks, ..ws[t] })
}

/// The first window that holds a pick, or the number of windows.
pub open spec fn holder(ws: Seq<Window>, k: usize) -> int
    decreases ws.len(),
{
    if ws.len() == 0 {
        0
    } else if ws[0].picks.contains(k) {
        0
    } else {
        1 + holder(ws.drop_first(), k)
    }
}

/// The windows after a pick has left the first of them that holds it.
pub open spec fn released(ws: Seq<Window>, k: usize) -> Seq<Window> {
    let h = holder(ws, k);
    if h < ws.len() {
        with_picks(ws, h, ws[h].picks.remove_value(k))
    } else {
        ws
    }
}

/// The first window with a key, or the number of windows.
pub open spec fn keyed(ws: Seq<Window>, key: Seq<char>) -> int
    decreases ws.len(),
{
    if ws.len() == 0 {
        0
    } else if ws[0].key == key {
        0
    } else {
        1 + keyed(ws.drop_first(), key)
    }
}

/// Whether a window is nearer to a time than another; its key decides a tie.
pub open spec fn nearer(a: Window, b: Window, t: int) -> bool {
    closer(a.centroid_time, b.centroid_time, t) || (level(a.centroid_time, b.centroid_time, t)
        && text_lt(a.key, b.key))
}

/// The nearest of the first `n` windows to a time.
pub open spec fn nearest(ws: Seq<Window>, t: int, n: int) -> int
    decreases n,
{
    if n <= 1 {
        0
    } else {
        let best = nearest(ws, t, n - 1);
        if nearer(ws[n - 1], ws[best], t) {
            n - 1
        } else {
            best
        }
    }
}

/// The window for a pick tied to an event: the one with that key, else the
/// nearest in time.
pub open spec fn target(ws: Seq<Window>, anchor: Seq<char>, t: int) -> int {
    if keyed(ws, anchor) < ws.len() {
        keyed(ws, anchor)
    } else {
        nearest(ws, t, ws.len() as int)
    }
}

/// Positions with one more at its place in rising order.
pub open spec fn placed(s: Seq<usize>, x: usize) -> Seq<usize>
    decreases s.len(),
{
    if s.len() == 0 || s.last() <= x {
        s.push(x)
    } else {
        placed(s.drop_last(), x).push(s.last())
    }
}

/// The windows after a pick has entered one of them.
pub open spec fn entered(ws: Seq<Window>, at: int, k: usize, t: int) -> Seq<Window> {
    let w = ws[at];
    if w.picks.contains(k) {
        ws
    } else {
        ws.update(
            at,
            Window {
                picks: placed(w.picks, k),
                min_time: if t < w.min_time {
                    t
                } else {
                    w.min_time
                },
                max_time: if t > w.max_time {
                    t
                } else {
                    w.max_time
                },
                ..w
            },
        )
    }
}

/// Why a tied pick has no window.
pub open spec fn no_anchor(anchor: Seq<char>) -> Seq<char> {
    "locked anchor event "@ + anchor + " does not exist in this candidate set"@
}

/// Windows and rejections.
#[verifier::ext_equal]
pub struct Assigned {
    pub windows: Seq<Window>,
    pub rejected: Seq<Rejection>,
}

/// The position of the pick with an id, or the number of picks.
pub open spec fn place_of(picks: Seq<Pick>, id: Seq<char>) -> int
    decreases picks.len(),
{
    if picks.len() == 0 {
        0
    } else if picks[0].id@ == id {
        0
    } else {
        1 + place_of(picks.drop_first(), id)
    }
}

/// What one lock does: the pick moves to the window that it is tied to.
pub open spec fn lock_step(picks: Seq<Pick>, s: Assigned, lock: Lock) -> Assigned {
    let k = place_of(picks, lock.pick_id@);
    if k >= picks.len() {
        s
    } else {
        let ws = released(s.windows, k as usize);
        let t = picks[k].corrected_time as int;
        if ws.len() == 0 {
            Assigned {
                windows: ws,
                rejected: s.rejected.push(rejection(picks[k], no_anchor(lock.event_key@))),
            }
        } else {
            Assigned {
                windows: entered(ws, target(ws, lock.event_key@, t), k as usize, t),
                rejected: s.rejected,
            }
        }
    }
}

/// What the first `n` locks do.
pub open spec fn locks_applied(picks: Seq<Pick>, s: Assigned, locked: Seq<Lock>, n: int) -> Assigned
    decreases n,
{
    if n <= 0 {
        s
    } else {
        lock_step(picks, locks_applied(picks, s, locked, n - 1), locked[n - 1])
    }
}

/// `place_of` is the position of the pick with that id.
pub proof fn place_of_is(picks: Seq<Pick>, id: Seq<char>)
    ensures
        0 <= place_of(picks, id) <= picks.len(),
        place_of(picks, id) < picks.len() ==> picks[place_of(picks, id)].id@ == id,
        place_of(picks, id) == picks.len() ==> !pick_ids(picks).contains(id),
    decreases picks.len(),
{
    if picks.len() > 0 && picks[0].id@ != id {
        let rest = picks.drop_first();
        place_of_is(rest, id);
        if place_of(rest, id) == rest.len() && pick_ids(picks).contains(id) {
            let i = choose|i: int| 0 <= i < picks.len() && pick_ids(picks)[i] == id;
            assert(pick_ids(rest)[i - 1] == id);
        }
    }
}

/// With rising ids a pick is found at one position only.
pub proof fn place_of_unique(picks: Seq<Pick>, i: int)
    requires
        rising(pick_ids(picks)),
        0 <= i < picks.len(),
    ensures
        place_of(picks, picks[i].id@) == i,
{
    let id = picks[i].id@;
    place_of_is(picks, id);
    let p = place_of(picks, id);
    let ids = pick_ids(picks);
    assert(ids.contains(id)) by {
        assert(ids[i] == id);
    }
    if p < i {
        assert(text_lt(ids[p], ids[i]));
    } else if i < p {
        assert(text_lt(ids[i], ids[p]));
    }
}

/// `holder` is the first window that holds the pick.
pub proof fn holder_is(ws: Seq<Window>, k: usize)
    ensures
        0 <= holder(ws, k) <= ws.len(),
        holder(ws, k) < ws.len() ==> ws[holder(ws, k)].picks.contains(k),
        forall|i: int| 0 <= i < holder(ws, k) ==> !(#[trigger] ws[i]).picks.contains(k),
    decreases ws.len(),
{
    if ws.len() > 0 && !ws[0].picks.contains(k) {
        let rest = ws.drop_first();
        holder_is(rest, k);
        assert forall|i: int| 0 <= i < holder(ws, k) implies !(#[trigger] ws[i]).picks.contains(
            k,
        ) by {
            if i > 0 {
                assert(ws[i] == rest[i - 1]);
            }
        }
    }
}

/// A window that holds the pick, with none before it, is the holder.
proof fn holder_unique(ws: Seq<Window>, k: usize, h: int)
    requires
        0 <= h <= ws.len(),
        h < ws.len() ==> ws[h].picks.contains(k),
        forall|i: int| 0 <= i < h ==> !(#[trigger] ws[i]).picks.contains(k),
    ensures
        holder(ws, k) == h,
{
    holder_is(ws, k);
    if holder(ws, k) < h {
        assert(!ws[holder(ws, k)].picks.contains(k));
    }
}

/// `keyed` is the first window with the key.
pub proof fn keyed_is(ws: Seq<Window>, key: Seq<char>)
    ensures
        0 <= keyed(ws, key) <= ws.len(),
        keyed(ws, key) < ws.len() ==> ws[keyed(ws, key)].key == key,
        forall|i: int| 0 <= i < keyed(ws, key) ==> (#[trigger] ws[i]).key != key,
    decreases ws.len(),
{
    if ws.len() > 0 && ws[0].key != key {
        let rest = ws.drop_first();
        keyed_is(rest, key);
        assert forall|i: int| 0 <= i < keyed(ws, key) implies (#[trigger] ws[i]).key != key by {
            if i > 0 {
                assert(ws[i] == rest[i - 1]);
            }
        }
    }
}

/// A window with the key, with none before it, is the keyed one.
proof fn keyed_unique(ws: Seq<Window>, key: Seq<char>, h: int)
    requires
        0 <= h <= ws.len(),
        h < ws.len() ==> ws[h].key == key,
        forall|i: int| 0 <= i < h ==> (#[trigger] ws[i]).key != key,
    ensures
        keyed(ws, key) == h,
{
    keyed_is(ws, key);
    if keyed(ws, key) < h {
        assert(ws[keyed(ws, key)].key != key);
    }
}

/// The nearest window is one of the windows.
pub proof fn nearest_is(ws: Seq<Window>, t: int, n: int)
    requires
        0 < n <= ws.len(),
    ensures
        0 <= nearest(ws, t, n) < n,
    decreases n,
{
    if n > 1 {
        nearest_is(ws, t, n - 1);
    }
}

/// The window that a tied pick goes to is one of the windows.
pub proof fn target_is(ws: Seq<Window>, anchor: Seq<char>, t: int)
    requires
        ws.len() > 0,
    ensures
        0 <= target(ws, anchor, t) < ws.len(),
{
    keyed_is(ws, anchor);
    nearest_is(ws, t, ws.len() as int);
}

/// Windows whose picks are in rising order.
pub open spec fn tidy(ws: Seq<Window>) -> bool {
    forall|i: int| 0 <= i < ws.len() ==> climbing((#[trigger] ws[i]).picks)
}

/// Taking one of the positions out of a rising list.
pub proof fn removal(s: Seq<usize>, x: usize, i: int)
    requires
        climbing(s),
        0 <= i < s.len(),
        s[i] == x,
    ensures
        s.remove_value(x) == s.remove(i),
        climbing(s.remove(i)),
        forall|y: usize| #[trigger] s.remove(i).contains(y) <==> s.contains(y) && y != x,
{
    let j = s.index_of_first(x);
    assert(s.contains(x));
    s.index_of_first_ensures(x);
    let k = j.unwrap();
    if k < i {
        assert(s[k] < s[i]);
    }
    assert(k == i);
    let r = s.remove(i);
    assert forall|a: int, b: int| 0 <= a < b < r.len() implies (#[trigger] r[a])
        < #[trigger] r[b] by {
        let a0 = if a < i {
            a
        } else {
            a + 1
        };
        let b0 = if b < i {
            b
        } else {
            b + 1
        };
        assert(r[a] == s[a0] && r[b] == s[b0]);
        assert(s[a0] < s[b0]);
    }
    assert forall|y: usize| #[trigger] r.contains(y) <==> s.contains(y) && y != x by {
        if r.contains(y) {
            let a = choose|a: int| 0 <= a < r.len() && r[a] == y;
            let a0 = if a < i {
                a
            } else {
                a + 1
            };
            assert(s[a0] == y);
            if a0 < i {
                assert(s[a0] < s[i]);
            } else {
                assert(s[i] < s[a0]);
            }
        }
        if s.contains(y) && y != x {
            let a = choose|a: int| 0 <= a < s.len() && s[a] == y;
            if a < i {
                assert(r[a] == y);
            } else {
                assert(r[a - 1] == y);
            }
        }
    }
}

/// Placing a new position keeps a rising list rising.
pub proof fn placement(s: Seq<usize>, x: usize)
    requires
        climbing(s),
        !s.contains(x),
    ensures
        climbing(placed(s, x)),
        forall|y: usize| #[trigger] placed(s, x).contains(y) <==> s.contains(y) || y == x,
    decreases s.len(),
{
    let r = placed(s, x);
    if s.len() == 0 || s.last() <= x {
        assert forall|a: int, b: int| 0 <= a < b < r.len() implies (#[trigger] r[a])
            < #[trigger] r[b] by {
            if b == s.len() {
                assert(s.contains(s.last()));
                if a < s.len() - 1 {
                    assert(s[a] < s[s.len() - 1]);
                }
            } else {
                assert(s[a] < s[b]);
            }
        }
        assert forall|y: usize| #[trigger] r.contains(y) <==> s.contains(y) || y == x by {
            if s.contains(y) {
                let a = choose|a: int| 0 <= a < s.len() && s[a] == y;
                assert(r[a] == y);
            }
            assert(r[s.len() as int] == x);
        }
    } else {
        let t = s.drop_last();
        assert(climbing(t)) by {
            assert forall|a: int, b: int| 0 <= a < b < t.len() implies (#[trigger] t[a])
                < #[trigger] t[b] by {
                assert(s[a] < s[b]);
            }
        }
        assert(!t.contains(x)) by {
            if t.contains(x) {
                let a = choose|a: int| 0 <= a < t.len() && t[a] == x;
                assert(s[a] == x);
            }
        }
        placement(t, x);
        let u = placed(t, x);
        assert forall|y: usize| #[trigger] u.contains(y) implies y < s.last() by {
            if t.contains(y) {
                let a = choose|a: int| 0 <= a < t.len() && t[a] == y;
                assert(s[a] < s[s.len() - 1]);
            }
        }
        assert forall|a: int, b: int| 0 <= a < b < r.len() implies (#[trigger] r[a])
            < #[trigger] r[b] by {
            assert(r[a] == u[a]);
            if b == u.len() {
                assert(u.contains(u[a]));
            } else {
                assert(r[b] == u[b]);
            }
        }
        assert forall|y: usize| #[trigger] r.contains(y) <==> s.contains(y) || y == x by {
            if r.contains(y) {
                let a = choose|a: int| 0 <= a < r.len() && r[a] == y;
                if a < u.len() {
                    assert(u.contains(u[a]));
                    if t.contains(y) {
                        let b = choose|b: int| 0 <= b < t.len() && t[b] == y;
                        assert(s[b] == y);
                    }
                } else {
                    assert(s[s.len() - 1] == y);
                }
            }
            if s.contains(y) {
                let a = choose|a: int| 0 <= a < s.len() && s[a] == y;
                if a < t.len() {
                    assert(t[a] == y);
                    assert(u.contains(y));
                    let b = choose|b: int| 0 <= b < u.len() && u[b] == y;
                    assert(r[b] == y);
                } else {
                    assert(r[u.len() as int] == y);
                }
            }
            if y == x {
                assert(u.contains(x));
                let b = choose|b: int| 0 <= b < u.len() && u[b] == x;
                assert(r[b] == x);
            }
        }
    }
}

/// Places a position in a rising list.
pub(crate) fn place_index(v: &mut Vec<usize>, x: usize)
    ensures
        final(v)@ == placed(old(v)@, x),
{
    let mut k: usize = v.len();
    let ghost s = v@;
    assert(s.take(k as int) =~= s);
    assert(placed(s, x) + s.skip(k as int) =~= placed(s, x));
    while k > 0 && v[k - 1] > x
        invariant
            v@ == s,
            k <= s.len(),
            placed(s, x) == placed(s.take(k as int), x) + s.skip(k as int),
        decreases k,
    {
        k -= 1;
        proof {
            let t = s.take(k + 1);
            assert(t.drop_last() =~= s.take(k as int));
            assert(t.last() == s[k as int]);
            assert(placed(s.take(k as int), x).push(s[k as int]) + s.skip(k + 1) =~= placed(
                s.take(k as int),
                x,
            ) + s.skip(k as int));
        }
    }
    proof {
        let t = s.take(k as int);
        if k > 0 {
            assert(t.last() == s[k - 1]);
        }
        assert(placed(t, x) == t.push(x));
        assert(s.insert(k as int, x) =~= t.push(x) + s.skip(k as int));
    }
    v.insert(k, x);
}

/// Takes a pick out of the first window that holds it.
fn release(windows: &mut Vec<EventWindow>, k: usize)
    requires
        tidy(contents(old(windows)@)),
    ensures
        contents(final(windows)@) == released(contents(old(windows)@), k),
{
    let ghost ws = contents(windows@);
    let mut h: usize = 0;
    while h < windows.len()
        invariant
            h <= windows@.len(),
            ws == contents(windows@),
            ws == contents(old(windows)@),
            tidy(ws),
            forall|i: int| 0 <= i < h ==> !(#[trigger] ws[i]).picks.contains(k),
        decreases windows@.len() - h,
    {
        assert(ws[h as int] == windows@[h as int]@);
        let mut j: usize = 0;
        while j < windows[h].picks.len()
            invariant
                h < windows@.len(),
                ws == contents(windows@),
                ws == contents(old(windows)@),
                tidy(ws),
                ws[h as int] == windows@[h as int]@,
                forall|i: int| 0 <= i < h ==> !(#[trigger] ws[i]).picks.contains(k),
                j <= windows@[h as int].picks@.len(),
                forall|i: int| 0 <= i < j ==> (#[trigger] windows@[h as int].picks@[i]) != k,
            decreases windows@[h as int].picks@.len() - j,
        {
            if windows[h].picks[j] == k {
                proof {
                    let s = ws[h as int].picks;
                    assert(s[j as int] == k);
                    holder_unique(ws, k, h as int);
                    removal(s, k, j as int);
                }
                windows[h].picks.remove(j);
                assert(contents(windows@) =~= released(ws, k));
                return;
            }
            j += 1;
        }
        h += 1;
    }
    proof {
        holder_unique(ws, k, h as int);
    }
}

/// The window for a pick tied to an event.
fn find_target(windows: &Vec<EventWindow>, anchor: &str, t: i64) -> (r: usize)
    requires
        windows@.len() > 0,
    ensures
        r as int == target(contents(windows@), anchor@, t as int),
        r < windows@.len(),
{
    let ghost ws = contents(windows@);
    let mut h: usize = 0;
    while h < windows.len()
        invariant
            h <= windows@.len(),
            ws == contents(windows@),
            forall|i: int| 0 <= i < h ==> (#[trigger] ws[i]).key != anchor@,
        decreases windows@.len() - h,
    {
        assert(ws[h as int] == windows@[h as int]@);
        if same(windows[h].key.as_str(), anchor) {
            proof {
                keyed_unique(ws, anchor@, h as int);
            }
            return h;
        }
        h += 1;
    }
    proof {
        keyed_unique(ws, anchor@, h as int);
    }
    let mut best: usize = 0;
    let mut n: usize = 1;
    while n < windows.len()
        invariant
            1 <= n <= windows@.len(),
            best < windows@.len(),
            ws == contents(windows@),
            best as int == nearest(ws, t as int, n as int),
        decreases windows@.len() - n,
    {
        assert(ws[n as int] == windows@[n as int]@);
        assert(ws[best as int] == windows@[best as int]@);
        let order: i8 = windows[n].centroid_time.compare_to(&windows[best].centroid_time, t);
        let wins = order < 0 || (order == 0 && le(
            windows[n].key.as_str(),
            windows[best].key.as_str(),
        ) && !same(windows[n].key.as_str(), windows[best].key.as_str()));
        if wins {
            best = n;
        }
        n += 1;
    }
    best
}

/// The windows after a pick has left them are as tidy as before, and hold
/// every other pick as before.
pub proof fn released_is(ws: Seq<Window>, k: usize)
    requires
        tidy(ws),
    ensures
        tidy(released(ws, k)),
        released(ws, k).len() == ws.len(),
        forall|i: int, y: usize|
            0 <= i < ws.len() && y != k ==> (#[trigger] released(ws, k)[i].picks.contains(y)
                <==> ws[i].picks.contains(y)),
        forall|i: int, y: usize|
            0 <= i < ws.len() && #[trigger] released(ws, k)[i].picks.contains(y)
                ==> ws[i].picks.contains(y),
        forall|i: int|
            0 <= i < ws.len() ==> (#[trigger] released(ws, k)[i]).key == ws[i].key,
        holder(ws, k) < ws.len() ==> !released(ws, k)[holder(ws, k)].picks.contains(k),
{
    holder_is(ws, k);
    let h = holder(ws, k);
    if h < ws.len() {
        let s = ws[h].picks;
        let i = choose|i: int| 0 <= i < s.len() && s[i] == k;
        removal(s, k, i);
        let r = released(ws, k);
        assert forall|i: int| 0 <= i < r.len() implies climbing((#[trigger] r[i]).picks) by {
            if i != h {
                assert(r[i] == ws[i]);
            }
        }
    }
}

/// The windows after a pick has entered one are as tidy as before, and hold
/// every other pick as before.
pub proof fn entered_is(ws: Seq<Window>, at: int, k: usize, t: int)
    requires
        tidy(ws),
        0 <= at < ws.len(),
    ensures
        tidy(entered(ws, at, k, t)),
        entered(ws, at, k, t).len() == ws.len(),
        entered(ws, at, k, t)[at].picks.contains(k),
        forall|i: int, y: usize|
            0 <= i < ws.len() && (y != k || i != at) ==> (#[trigger] entered(ws, at, k, t)[i].picks.contains(y)
                <==> ws[i].picks.contains(y)),
        forall|i: int|
            0 <= i < ws.len() ==> (#[trigger] entered(ws, at, k, t)[i]).key == ws[i].key,
{
    if !ws[at].picks.contains(k) {
        placement(ws[at].picks, k);
        let r = entered(ws, at, k, t);
        assert forall|i: int| 0 <= i < r.len() implies climbing((#[trigger] r[i]).picks) by {
            if i != at {
                assert(r[i] == ws[i]);
            }
        }
    }
}

/// One lock keeps the windows tidy and their number and keys the same.
pub proof fn lock_step_is(picks: Seq<Pick>, s: Assigned, lock: Lock)
    requires
        tidy(s.windows),
    ensures
        tidy(lock_step(picks, s, lock).windows),
        lock_step(picks, s, lock).windows.len() == s.windows.len(),
        forall|i: int|
            0 <= i < s.windows.len() ==> (#[trigger] lock_step(picks, s, lock).windows[i]).key
                == s.windows[i].key,
{
    place_of_is(picks, lock.pick_id@);
    let k = place_of(picks, lock.pick_id@);
    if k < picks.len() {
        released_is(s.windows, k as usize);
        let ws = released(s.windows, k as usize);
        let t = picks[k].corrected_time as int;
        if ws.len() > 0 {
            target_is(ws, lock.event_key@, t);
            entered_is(ws, target(ws, lock.event_key@, t), k as usize, t);
        }
    }
}

/// Moves the picks that are tied to an event by hand into the windows that
/// they are tied to; a tie that no window can meet rejects its pick.
pub fn assign_locked_picks(
    picks: &Vec<Pick>,
    locked: &Vec<Lock>,
    windows: Vec<EventWindow>,
    rejected: &mut Vec<RejectedPick>,
) -> (r: Vec<EventWindow>)
    requires
        rising(pick_ids(picks@)),
        tidy(contents(windows@)),
    ensures
        (Assigned { windows: contents(r@), rejected: rejections(final(rejected)@) })
            == locks_applied(
            picks@,
            Assigned { windows: contents(windows@), rejected: rejections(old(rejected)@) },
            locked@,
            locked@.len() as int,
        ),
{
    let ghost start = Assigned {
        windows: contents(windows@),
        rejected: rejections(rejected@),
    };
    let mut r = windows;
    let mut n: usize = 0;
    while n < locked.len()
        invariant
            n <= locked@.len(),
            rising(pick_ids(picks@)),
            tidy(contents(r@)),
            (Assigned { windows: contents(r@), rejected: rejections(rejected@) }) == locks_applied(
                picks@,
                start,
                locked@,
                n as int,
            ),
            start == (Assigned {
                windows: contents(windows@),
                rejected: rejections(old(rejected)@),
            }),
        decreases locked@.len() - n,
    {
        let ghost s = Assigned { windows: contents(r@), rejected: rejections(rejected@) };
        let ghost lock = locked@[n as int];
        proof {
            place_of_is(picks@, lock.pick_id@);
            lock_step_is(picks@, s, lock);
        }
        if let Some(k) = find_pick(picks, locked[n].pick_id.as_str()) {
            proof {
                place_of_unique(picks@, k as int);
                released_is(contents(r@), k);
            }
            let anchor = locked[n].event_key.as_str();
            release(&mut r, k);
            let ghost ws = contents(r@);
            if r.len() == 0 {
                let reason = concat3(
                    "locked anchor event ",
                    anchor,
                    " does not exist in this candidate set",
                );
                let ghost before = rejected@;
                let item = reject(&picks[k], reason.as_str());
                rejected.push(item);
                assert(rejections(rejected@) =~= rejections(before).push(item@));
            } else {
                let t: i64 = picks[k].corrected_time;
                let at: usize = find_target(&r, anchor, t);
                assert(ws[at as int] == r@[at as int]@);
                if !holds_index(&r[at].picks, k) {
                    place_index(&mut r[at].picks, k);
                    if t < r[at].min_time {
                        r[at].min_time = t;
                    }
                    if t > r[at].max_time {
                        r[at].max_time = t;
                    }
                    assert(contents(r@) =~= entered(ws, at as int, k, t as int));
                }
            }
        } else {
            assert(place_of(picks@, lock.pick_id@) == picks@.len()) by {
                let p = place_of(picks@, lock.pick_id@);
                if p < picks@.len() {
                    assert(pick_ids(picks@)[p] == lock.pick_id@);
                }
            }
        }
        assert((Assigned { windows: contents(r@), rejected: rejections(rejected@) }) == lock_step(
            picks@,
            s,
            lock,
        ));
        n += 1;
    }
    r
}

/// Whether no pick is in two windows.
pub open spec fn apart(ws: Seq<Window>) -> bool {
    forall|i: int, j: int, y: usize|
        0 <= i < ws.len() && 0 <= j < ws.len() && #[trigger] ws[i].picks.contains(y)
            && #[trigger] ws[j].picks.contains(y) ==> i == j
}

/// Locks never change how many windows there are, nor their keys, and keep
/// the picks of each in order.
pub proof fn locks_keep_windows(picks: Seq<Pick>, s: Assigned, locked: Seq<Lock>, n: int)
    requires
        tidy(s.windows),
    ensures
        tidy(locks_applied(picks, s, locked, n).windows),
        locks_applied(picks, s, locked, n).windows.len() == s.windows.len(),
        forall|i: int|
            0 <= i < s.windows.len() ==> (#[trigger] locks_applied(picks, s, locked, n).windows[i]).key
                == s.windows[i].key,
    decreases n,
{
    if n > 0 {
        locks_keep_windows(picks, s, locked, n - 1);
        let before = locks_applied(picks, s, locked, n - 1);
        lock_step_is(picks, before, locked[n - 1]);
        assert forall|i: int| 0 <= i < s.windows.len() implies (#[trigger] locks_applied(
            picks,
            s,
            locked,
            n,
        ).windows[i]).key == s.windows[i].key by {
            assert(before.windows[i].key == s.windows[i].key);
        }
    }
}

/// A pick that no lock names stays in the windows that held it, and enters no
/// other.
pub proof fn unlocked_picks_stay(
    picks: Seq<Pick>,
    s: Assigned,
    locked: Seq<Lock>,
    n: int,
    i: int,
    y: usize,
)
    requires
        picks.len() <= usize::MAX,
        tidy(s.windows),
        0 <= n <= locked.len(),
        0 <= i < s.windows.len(),
        y < picks.len(),
        forall|m: int| 0 <= m < n ==> (#[trigger] locked[m]).pick_id@ != picks[y as int].id@,
    ensures
        locks_applied(picks, s, locked, n).windows[i].picks.contains(y)
            <==> s.windows[i].picks.contains(y),
    decreases n,
{
    if n > 0 {
        unlocked_picks_stay(picks, s, locked, n - 1, i, y);
        locks_keep_windows(picks, s, locked, n - 1);
        let before = locks_applied(picks, s, locked, n - 1);
        let lock = locked[n - 1];
        place_of_is(picks, lock.pick_id@);
        let k = place_of(picks, lock.pick_id@);
        if k < picks.len() {
            assert(k != y);
            released_is(before.windows, k as usize);
            let ws = released(before.windows, k as usize);
            let t = picks[k].corrected_time as int;
            target_is(ws, lock.event_key@, t);
            entered_is(ws, target(ws, lock.event_key@, t), k as usize, t);
        }
    }
}

/// Locks never put a pick into two windows.
pub proof fn locks_keep_picks_apart(picks: Seq<Pick>, s: Assigned, locked: Seq<Lock>, n: int)
    requires
        tidy(s.windows),
        apart(s.windows),
    ensures
        apart(locks_applied(picks, s, locked, n).windows),
    decreases n,
{
    if n > 0 {
        locks_keep_picks_apart(picks, s, locked, n - 1);
        locks_keep_windows(picks, s, locked, n - 1);
        let before = locks_applied(picks, s, locked, n - 1);
        let lock = locked[n - 1];
        place_of_is(picks, lock.pick_id@);
        let k = place_of(picks, lock.pick_id@);
        let after = locks_applied(picks, s, locked, n).windows;
        if k < picks.len() {
            let x = k as usize;
            released_is(before.windows, x);
            holder_is(before.windows, x);
            let ws = released(before.windows, x);
            assert forall|i: int| 0 <= i < ws.len() implies !(#[trigger] ws[i]).picks.contains(
                x,
            ) by {
                if ws[i].picks.contains(x) {
                    assert(before.windows[i].picks.contains(x));
                    let h = holder(before.windows, x);
                    if h < before.windows.len() {
                        assert(before.windows[h].picks.contains(x));
                    }
                }
            }
            if ws.len() > 0 {
                let t = picks[k].corrected_time as int;
                let at = target(ws, lock.event_key@, t);
                target_is(ws, lock.event_key@, t);
                entered_is(ws, at, x, t);
                assert forall|i: int, j: int, y: usize|
                    0 <= i < after.len() && 0 <= j < after.len() && #[trigger] after[i].picks.contains(y)
                        && #[trigger] after[j].picks.contains(y) implies i == j by {
                    if y != x {
                        assert(ws[i].picks.contains(y) && ws[j].picks.contains(y));
                        assert(before.windows[i].picks.contains(y)
                            && before.windows[j].picks.contains(y));
                    } else {
                        if i != at {
                            assert(ws[i].picks.contains(y));
                        }
                        if j != at {
                            assert(ws[j].picks.contains(y));
                        }
                    }
                }
            }
        }
    }
}

/// A pick that is tied to an event is never lost: while there is a window, it
/// is in one, and in the one with the key that it is tied to where that
/// exists.
pub proof fn locked_picks_are_kept(
    picks: Seq<Pick>,
    s: Assigned,
    locked: Seq<Lock>,
    n: int,
    m: int,
)
    requires
        picks.len() <= usize::MAX,
        rising(pick_ids(picks)),
        rising(crate::model::lock_ids(locked)),
        tidy(s.windows),
        s.windows.len() > 0,
        0 <= m < n <= locked.len(),
        place_of(picks, locked[m].pick_id@) < picks.len(),
    ensures
        ({
            let k = place_of(picks, locked[m].pick_id@) as usize;
            let ws = locks_applied(picks, s, locked, n).windows;
            let own = keyed(s.windows, locked[m].event_key@);
            &&& exists|i: int| 0 <= i < ws.len() && (#[trigger] ws[i]).picks.contains(k)
            &&& own < s.windows.len() ==> ws[own].picks.contains(k)
        }),
    decreases n,
{
    let lock = locked[n - 1];
    let k = place_of(picks, locked[m].pick_id@);
    place_of_is(picks, locked[m].pick_id@);
    place_of_is(picks, lock.pick_id@);
    locks_keep_windows(picks, s, locked, n - 1);
    let before = locks_applied(picks, s, locked, n - 1);
    let after = locks_applied(picks, s, locked, n).windows;
    let own = keyed(s.windows, locked[m].event_key@);
    keyed_is(s.windows, locked[m].event_key@);
    let p = place_of(picks, lock.pick_id@);
    if p < picks.len() {
        released_is(before.windows, p as usize);
        let ws = released(before.windows, p as usize);
        let t = picks[p].corrected_time as int;
        let at = target(ws, lock.event_key@, t);
        target_is(ws, lock.event_key@, t);
        entered_is(ws, at, p as usize, t);
        if m == n - 1 {
            assert(after[at].picks.contains(k as usize));
            if own < s.windows.len() {
                assert forall|i: int| 0 <= i < ws.len() implies (#[trigger] ws[i]).key
                    == s.windows[i].key by {
                    assert(before.windows[i].key == s.windows[i].key);
                }
                keyed_unique(ws, lock.event_key@, own);
                assert(at == own);
            }
        } else {
            locked_picks_are_kept(picks, s, locked, n - 1, m);
            assert(p != k) by {
                let ids = crate::model::lock_ids(locked);
                assert(text_lt(ids[m], ids[n - 1]));
            }
            let i = choose|i: int|
                0 <= i < before.windows.len() && (#[trigger] before.windows[i]).picks.contains(
                    k as usize,
                );
            assert(ws[i].picks.contains(k as usize));
            assert(after[i].picks.contains(k as usize));
            if own < s.windows.len() {
                assert(before.windows[own].picks.contains(k as usize));
                assert(ws[own].picks.contains(k as usize));
            }
        }
    } else {
        locked_picks_are_kept(picks, s, locked, n - 1, m);
    }
}

} // verus!

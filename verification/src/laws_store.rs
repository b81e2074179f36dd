//! Laws of the store: which locks hold, which candidates lead, and what an
//! import comes to.
use vstd::prelude::*;

use crate::args::behind;
use crate::association::locked_to;
use crate::json::Json;
use crate::locks::{last_lock, locks_merged, merged_lock, stored_lock};
use crate::network::EventLock;
use crate::network_records::StoredPick;
use crate::store::{
    imported, int_field, leader, leads, scoped, stored_after, ImportOutcome, LogEntry, StoreView,
};

verus! {

/// Whether a stored pick has a lock that is for an id.
pub open spec fn stores_lock(p: StoredPick, id: Seq<char>) -> bool {
    p.locked_event is Some && p.pick_id@ == id
}

/// The last stored lock of a pick counts.
proof fn last_stored_lock_counts(picks: Seq<StoredPick>, id: Seq<char>)
    ensures
        stored_lock(picks, id) is None <==> forall|i: int|
            0 <= i < picks.len() ==> !stores_lock(#[trigger] picks[i], id),
        forall|k: int|
            0 <= k < picks.len() && stores_lock(#[trigger] picks[k], id) && (forall|i: int|
                k < i < picks.len() ==> !stores_lock(#[trigger] picks[i], id)) ==> stored_lock(
                picks,
                id,
            ) == Some(picks[k].locked_event->0@),
    decreases picks.len(),
{
    if picks.len() > 0 {
        let t = picks.drop_last();
        let n = picks.len() - 1;
        last_stored_lock_counts(t, id);
        assert forall|i: int| 0 <= i < n implies #[trigger] t[i] == picks[i] by {}
        if stores_lock(picks[n], id) {
        } else {
            if stored_lock(t, id) is None {
                assert forall|i: int| 0 <= i < picks.len() implies !stores_lock(
                    #[trigger] picks[i],
                    id,
                ) by {
                    if i < n {
                        assert(!stores_lock(t[i], id));
                    }
                }
            }
            if forall|i: int| 0 <= i < picks.len() ==> !stores_lock(#[trigger] picks[i], id) {
                assert forall|i: int| 0 <= i < t.len() implies !stores_lock(#[trigger] t[i], id) by {
                    assert(!stores_lock(picks[i], id));
                }
            }
        }
        assert forall|k: int|
            0 <= k < picks.len() && stores_lock(#[trigger] picks[k], id) && (forall|i: int|
                k < i < picks.len() ==> !stores_lock(#[trigger] picks[i], id)) implies stored_lock(
            picks,
            id,
        ) == Some(picks[k].locked_event->0@) by {
            if k < n {
                assert(!stores_lock(picks[n], id));
                assert(stores_lock(t[k], id));
                assert forall|i: int| k < i < t.len() implies !stores_lock(#[trigger] t[i], id) by {
                    assert(!stores_lock(picks[i], id));
                }
            }
        }
    }
}

/// The last lock that is asked for counts.
proof fn last_lock_counts(locks: Seq<EventLock>, id: Seq<char>)
    ensures
        last_lock(locks, id) is None <==> forall|i: int|
            0 <= i < locks.len() ==> (#[trigger] locks[i]).pick_id@ != id,
        forall|k: int|
            0 <= k < locks.len() && (#[trigger] locks[k]).pick_id@ == id && (forall|i: int|
                k < i < locks.len() ==> (#[trigger] locks[i]).pick_id@ != id) ==> last_lock(
                locks,
                id,
            ) == Some(locks[k].event_key@),
    decreases locks.len(),
{
    if locks.len() > 0 {
        let t = locks.drop_last();
        let n = locks.len() - 1;
        last_lock_counts(t, id);
        assert forall|i: int| 0 <= i < n implies #[trigger] t[i] == locks[i] by {}
        if locks[n].pick_id@ != id {
            if last_lock(t, id) is None {
                assert forall|i: int| 0 <= i < locks.len() implies (#[trigger] locks[i]).pick_id@
                    != id by {
                    if i < n {
                        assert(t[i].pick_id@ != id);
                    }
                }
            }
            if forall|i: int| 0 <= i < locks.len() ==> (#[trigger] locks[i]).pick_id@ != id {
                assert forall|i: int| 0 <= i < t.len() implies (#[trigger] t[i]).pick_id@ != id by {
                    assert(locks[i].pick_id@ != id);
                }
            }
        }
        assert forall|k: int|
            0 <= k < locks.len() && (#[trigger] locks[k]).pick_id@ == id && (forall|i: int|
                k < i < locks.len() ==> (#[trigger] locks[i]).pick_id@ != id) implies last_lock(
            locks,
            id,
        ) == Some(locks[k].event_key@) by {
            if k < n {
                assert(locks[n].pick_id@ != id);
                assert(t[k].pick_id@ == id);
                assert forall|i: int| k < i < t.len() implies (#[trigger] t[i]).pick_id@ != id by {
                    assert(locks[i].pick_id@ != id);
                }
            }
        }
    }
}

/// A pick is locked by the last lock that is stored for it; where none is, by
/// the last one that is asked for; and where there is neither it is free.
pub proof fn stored_locks_come_first(
    forced: Seq<EventLock>,
    picks: Seq<StoredPick>,
    r: Seq<EventLock>,
    id: Seq<char>,
    k: int,
)
    requires
        locks_merged(forced, picks, r),
    ensures
        0 <= k < picks.len() && stores_lock(picks[k], id) && (forall|i: int|
            k < i < picks.len() ==> !stores_lock(#[trigger] picks[i], id)) ==> locked_to(r, id)
            == Some(picks[k].locked_event->0@),
        (forall|i: int| 0 <= i < picks.len() ==> !stores_lock(#[trigger] picks[i], id)) && 0 <= k
            < forced.len() && forced[k].pick_id@ == id && (forall|i: int|
            k < i < forced.len() ==> (#[trigger] forced[i]).pick_id@ != id) ==> locked_to(r, id)
            == Some(forced[k].event_key@),
        (forall|i: int| 0 <= i < picks.len() ==> !stores_lock(#[trigger] picks[i], id)) && (forall|
            i: int,
        |
            0 <= i < forced.len() ==> (#[trigger] forced[i]).pick_id@ != id) ==> locked_to(r, id)
            is None,
{
    last_stored_lock_counts(picks, id);
    last_lock_counts(forced, id);
    assert(locked_to(r, id) == merged_lock(forced, picks, id));
    if 0 <= k < picks.len() {
        assert(picks[k] == picks[k]);
    }
    if 0 <= k < forced.len() {
        assert(forced[k] == forced[k]);
    }
}

/// The candidate that leads an event is the first of rank one.
pub proof fn first_of_rank_one_leads(all: Seq<Json>, event_key: Seq<char>, n: int, k: int)
    requires
        0 <= k < n <= all.len(),
        leads(all[k]@, event_key),
        forall|i: int| 0 <= i < k ==> !leads((#[trigger] all[i])@, event_key),
    ensures
        leader(all, event_key, n) == Some(all[k]@),
        int_field(all[k]@, "rank"@) == Some(1int),
    decreases n,
{
    if k < n - 1 {
        first_of_rank_one_leads(all, event_key, n - 1, k);
    } else {
        none_leads(all, event_key, n - 1);
    }
}

/// An event without a candidate of rank one has no leader.
pub proof fn none_leads(all: Seq<Json>, event_key: Seq<char>, n: int)
    requires
        0 <= n <= all.len(),
        forall|i: int| 0 <= i < n ==> !leads((#[trigger] all[i])@, event_key),
    ensures
        leader(all, event_key, n) is None,
    decreases n,
{
    if n > 0 {
        none_leads(all, event_key, n - 1);
        assert(!leads(all[n - 1]@, event_key));
    }
}

/// A scope holds its events, and where it is empty all of them.
pub proof fn empty_scopes_hold_all(scope: Seq<Seq<char>>, event_key: Seq<char>, k: int)
    ensures
        scope.len() == 0 ==> scoped(scope, event_key),
        0 <= k < scope.len() ==> scoped(scope, scope[k]),
        scope.len() > 0 && (forall|i: int| 0 <= i < scope.len() ==> #[trigger] scope[i] != event_key)
            ==> !scoped(scope, event_key),
{
    if 0 <= k < scope.len() {
        assert(scope.contains(scope[k]));
    }
    if scope.contains(event_key) {
        let i = choose|i: int| 0 <= i < scope.len() && scope[i] == event_key;
        assert(scope[i] == event_key);
    }
}

/// A first import of some content stores its records and logs that; another of
/// the same content stores nothing, logs nothing, and tells of the first.
pub proof fn imports_are_stored_once(
    s: StoreView,
    hash: Seq<char>,
    source: Seq<char>,
    records: Seq<crate::network_records::NetworkRecord>,
    o: ImportOutcome,
    log: Option<LogEntry>,
)
    requires
        imported(s.batches, hash, source, records.len() as int, o, log),
    ensures
        ({
            let after = stored_after(s, o, records, log);
            &&& o.duplicated <==> s.batches.contains_key(hash)
            &&& o.duplicated ==> log is None && after == s
            &&& !o.duplicated ==> log is Some && after.records == s.records + records
                && after.log.len() == s.log.len() + 1 && o.records == records.len()
            &&& after.batches.contains_key(hash)
            &&& after.batches[hash] == (o.batch_id@, o.records as int)
        }),
{
}

/// An option has the value behind its first name, in either of its forms.
pub proof fn options_are_behind_their_names(
    args: Seq<Seq<char>>,
    i: int,
    name: Seq<char>,
    other: Seq<char>,
    k: int,
)
    requires
        0 <= i <= k,
        k + 1 < args.len(),
        args[k] == name || args[k] == other,
        forall|j: int| i <= j < k ==> #[trigger] args[j] != name && args[j] != other,
    ensures
        behind(args, i, name, other) == Some(args[k + 1]),
    decreases k - i,
{
    if i < k {
        assert(args[i] != name && args[i] != other);
        options_are_behind_their_names(args, i + 1, name, other, k);
    }
}

} // verus!

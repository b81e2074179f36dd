//! The locks that a run starts from.
use vstd::prelude::*;

use crate::association::locked_to;
use crate::network::EventLock;
use crate::network_records::StoredPick;

verus! {

/// The event that a pick is locked to in the store: by the last pick with its
/// id that is locked.
pub open spec fn stored_lock(picks: Seq<StoredPick>, id: Seq<char>) -> Option<Seq<char>>
    decreases picks.len(),
{
    if picks.len() == 0 {
        None
    } else {
        match picks.last().locked_event {
            Some(event) => if picks.last().pick_id@ == id {
                Some(event@)
            } else {
                stored_lock(picks.drop_last(), id)
            },
            None => stored_lock(picks.drop_last(), id),
        }
    }
}

/// The event that a pick is locked to in a list of which the last lock counts.
pub open spec fn last_lock(locks: Seq<EventLock>, id: Seq<char>) -> Option<Seq<char>>
    decreases locks.len(),
{
    if locks.len() == 0 {
        None
    } else if locks.last().pick_id@ == id {
        Some(locks.last().event_key@)
    } else {
        last_lock(locks.drop_last(), id)
    }
}

/// The event that a pick is locked to for a run. What is in the store comes
/// before what the run asks for.
pub open spec fn merged_lock(
    forced: Seq<EventLock>,
    picks: Seq<StoredPick>,
    id: Seq<char>,
) -> Option<Seq<char>> {
    match stored_lock(picks, id) {
        Some(event) => Some(event),
        None => last_lock(forced, id),
    }
}

/// Behind a list that does not lock a pick, what follows decides.
proof fn locked_behind(a: Seq<EventLock>, b: Seq<EventLock>, id: Seq<char>)
    ensures
        locked_to(a + b, id) == match locked_to(a, id) {
            Some(event) => Some(event),
            None => locked_to(b, id),
        },
    decreases a.len(),
{
    if a.len() == 0 {
        assert(a + b =~= b);
    } else {
        assert((a + b)[0] == a[0]);
        assert((a + b).drop_first() =~= a.drop_first() + b);
        locked_behind(a.drop_first(), b, id);
    }
}

/// One lock.
proof fn locked_one(l: EventLock, id: Seq<char>)
    ensures
        locked_to(seq![l], id) == if l.pick_id@ == id {
            Some(l.event_key@)
        } else {
            None
        },
{
    assert(seq![l].drop_first() =~= Seq::<EventLock>::empty());
    reveal_with_fuel(locked_to, 2);
}

/// The locks of the store, the last first.
fn stored_locks(picks: &Vec<StoredPick>) -> (r: Vec<EventLock>)
    ensures
        forall|id: Seq<char>| #[trigger] locked_to(r@, id) == stored_lock(picks@, id),
{
    let mut r: Vec<EventLock> = Vec::new();
    let mut n: usize = picks.len();
    assert(picks@.take(n as int) =~= picks@);
    while n > 0
        invariant
            n <= picks@.len(),
            forall|id: Seq<char>|
                stored_lock(picks@, id) == match #[trigger] locked_to(r@, id) {
                    Some(event) => Some(event),
                    None => stored_lock(picks@.take(n as int), id),
                },
        decreases n,
    {
        n -= 1;
        let ghost before = r@;
        let ghost t = picks@.take(n + 1);
        assert(t.drop_last() =~= picks@.take(n as int));
        assert(t.last() == picks@[n as int]);
        match &picks[n].locked_event {
            Some(event) => {
                let l = EventLock { pick_id: picks[n].pick_id.clone(), event_key: event.clone() };
                r.push(l);
                proof {
                    assert(r@ =~= before + seq![l]);
                    assert forall|id: Seq<char>| stored_lock(picks@, id) == match #[trigger] locked_to(
                        r@,
                        id,
                    ) {
                        Some(event) => Some(event),
                        None => stored_lock(picks@.take(n as int), id),
                    } by {
                        locked_behind(before, seq![l], id);
                        locked_one(l, id);
                        assert(locked_to(before, id) == locked_to(before, id));
                    }
                }
            },
            None => {
                assert forall|id: Seq<char>| stored_lock(picks@, id) == match #[trigger] locked_to(
                    r@,
                    id,
                ) {
                    Some(event) => Some(event),
                    None => stored_lock(picks@.take(n as int), id),
                } by {
                    assert(locked_to(before, id) == locked_to(r@, id));
                }
            },
        }
    }
    assert forall|id: Seq<char>| #[trigger] locked_to(r@, id) == stored_lock(picks@, id) by {
        assert(picks@.take(0).len() == 0);
    }
    r
}

/// Whether some locks are those in a store and those that a run asks for.
pub open spec fn locks_merged(
    forced: Seq<EventLock>,
    picks: Seq<StoredPick>,
    r: Seq<EventLock>,
) -> bool {
    forall|id: Seq<char>| #[trigger] locked_to(r, id) == merged_lock(forced, picks, id)
}

/// The locks of a run: those in the store, and those that the run asks for.
pub fn merge_locks(forced: &Vec<EventLock>, picks: &Vec<StoredPick>) -> (r: Vec<EventLock>)
    ensures
        locks_merged(forced@, picks@, r@),
{
    let mut r = stored_locks(picks);
    let mut n: usize = forced.len();
    assert(forced@.take(n as int) =~= forced@);
    while n > 0
        invariant
            n <= forced@.len(),
            forall|id: Seq<char>|
                merged_lock(forced@, picks@, id) == match #[trigger] locked_to(r@, id) {
                    Some(event) => Some(event),
                    None => last_lock(forced@.take(n as int), id),
                },
        decreases n,
    {
        n -= 1;
        let ghost before = r@;
        let ghost t = forced@.take(n + 1);
        assert(t.drop_last() =~= forced@.take(n as int));
        assert(t.last() == forced@[n as int]);
        let l = EventLock {
            pick_id: forced[n].pick_id.clone(),
            event_key: forced[n].event_key.clone(),
        };
        r.push(l);
        proof {
            assert(r@ =~= before + seq![l]);
            assert forall|id: Seq<char>| merged_lock(forced@, picks@, id) == match #[trigger] locked_to(
                r@,
                id,
            ) {
                Some(event) => Some(event),
                None => last_lock(forced@.take(n as int), id),
            } by {
                locked_behind(before, seq![l], id);
                locked_one(l, id);
                assert(locked_to(before, id) == locked_to(before, id));
            }
        }
    }
    assert forall|id: Seq<char>| #[trigger] locked_to(r@, id) == merged_lock(
        forced@,
        picks@,
        id,
    ) by {
        assert(forced@.take(0).len() == 0);
    }
    r
}

/// Locks of some picks to one event.
pub fn locks_to_event(pick_ids: &Vec<String>, event_key: &str) -> (r: Vec<EventLock>)
    ensures
        r@.len() == pick_ids@.len(),
        forall|i: int|
            0 <= i < r@.len() ==> (#[trigger] r@[i]).pick_id@ == pick_ids@[i]@ && r@[i].event_key@
                == event_key@,
{
    let mut r: Vec<EventLock> = Vec::new();
    let mut i: usize = 0;
    while i < pick_ids.len()
        invariant
            i <= pick_ids@.len(),
            r@.len() == i,
            forall|j: int|
                0 <= j < i ==> (#[trigger] r@[j]).pick_id@ == pick_ids@[j]@ && r@[j].event_key@
                    == event_key@,
        decreases pick_ids@.len() - i,
    {
        r.push(EventLock { pick_id: pick_ids[i].clone(), event_key: event_key.to_owned() });
        i += 1;
    }
    r
}

/// The lock of the only pick with an id.
proof fn stored_lock_of(picks: Seq<StoredPick>, i: int)
    requires
        0 <= i < picks.len(),
        picks[i].locked_event is Some,
        forall|j: int|
            0 <= j < picks.len() && j != i ==> (#[trigger] picks[j]).pick_id@ != picks[i].pick_id@,
    ensures
        stored_lock(picks, picks[i].pick_id@) == Some(picks[i].locked_event->0@),
    decreases picks.len(),
{
    if i < picks.len() - 1 {
        let t = picks.drop_last();
        assert forall|j: int| 0 <= j < t.len() && j != i implies (#[trigger] t[j]).pick_id@
            != t[i].pick_id@ by {
            assert(t[j] == picks[j]);
        }
        stored_lock_of(t, i);
        assert(picks[picks.len() - 1].pick_id@ != picks[i].pick_id@);
    }
}

/// A pick that is locked in the store stays locked to its event in every run,
/// whatever the run asks for.
pub proof fn stored_locks_prevail(
    forced: Seq<EventLock>,
    picks: Seq<StoredPick>,
    locks: Seq<EventLock>,
    i: int,
)
    requires
        locks_merged(forced, picks, locks),
        0 <= i < picks.len(),
        picks[i].locked_event is Some,
        forall|j: int|
            0 <= j < picks.len() && j != i ==> (#[trigger] picks[j]).pick_id@ != picks[i].pick_id@,
    ensures
        locked_to(locks, picks[i].pick_id@) == Some(picks[i].locked_event->0@),
{
    stored_lock_of(picks, i);
}

} // verus!

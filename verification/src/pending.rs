use crate::notification::{
    backoff, encode_note, key_of, lemma_backoff_bounded, lemma_keys_differ, Note, Status,
    BACKOFF_CAP, HORIZON, RETRY_CEILING,
};
use crate::records::{content, damaged, discard, lemma_discard, lemma_put, put, well_formed};
use crate::wire::SlotView;
use vstd::prelude::*;

verus! {

/// Position `i` of the waiting notifications holds the one with this id.
pub open spec fn listed_at(p: Seq<Note>, id: u64, i: int) -> bool {
    0 <= i < p.len() && p[i].id == id
}

/// A notification with this id waits.
pub open spec fn is_pending(p: Seq<Note>, id: u64) -> bool {
    exists|i: int| listed_at(p, id, i)
}

/// A position that holds the notification with this id, where there is one.
pub open spec fn slot_of(p: Seq<Note>, id: u64) -> int {
    choose|i: int| listed_at(p, id, i)
}

/// Every notification waits, was named before `next_id`, and no id occurs twice.
pub open spec fn orderly(p: Seq<Note>, next_id: u64) -> bool {
    &&& forall|i: int| 0 <= i < p.len() ==> (#[trigger] p[i]).waiting() && p[i].id < next_id
    &&& forall|i: int, j: int|
        0 <= i < p.len() && 0 <= j < p.len() && i != j ==> (#[trigger] p[i]).id != (
        #[trigger] p[j]).id
}

/// The store holds this notification: an intact record under its key with its bytes.
pub open spec fn committed(slots: Seq<SlotView>, n: Note) -> bool {
    &&& content(slots).dom().contains(key_of(n.id))
    &&& content(slots)[key_of(n.id)] == encode_note(n)
    &&& !damaged(slots).contains(key_of(n.id))
}

/// The store holds every waiting notification.
pub open spec fn mirrored(p: Seq<Note>, slots: Seq<SlotView>) -> bool {
    forall|i: int| 0 <= i < p.len() ==> committed(slots, #[trigger] p[i])
}

/// The waiting notifications after the one with this id was withdrawn.
pub open spec fn without(p: Seq<Note>, id: u64) -> Seq<Note> {
    if is_pending(p, id) {
        p.remove(slot_of(p, id))
    } else {
        p
    }
}

/// A notification after one more failed delivery: it has one try less and falls due again
/// after the wait that belongs to that failure.
pub open spec fn retried(n: Note) -> Note {
    Note {
        attempts: (n.attempts + 1) as u64,
        due_at: (n.due_at + backoff(n.attempts as nat)) as u64,
        ..n
    }
}

/// Whether a failed delivery leaves this notification another try.
pub open spec fn may_retry(n: Note) -> bool {
    n.attempts + 1 < RETRY_CEILING
}

/// Where the notification with this id stands after a delivery was reported.
pub open spec fn status_after(p: Seq<Note>, id: u64, delivered: bool) -> Status {
    if !is_pending(p, id) {
        Status::Cancelled
    } else if delivered {
        Status::Fired
    } else if may_retry(p[slot_of(p, id)]) {
        Status::Pending
    } else {
        Status::Failed
    }
}

/// The waiting notifications after a delivery was reported.
pub open spec fn after_report(p: Seq<Note>, id: u64, delivered: bool) -> Seq<Note> {
    if is_pending(p, id) && !delivered && may_retry(p[slot_of(p, id)]) {
        p.update(slot_of(p, id), retried(p[slot_of(p, id)]))
    } else {
        without(p, id)
    }
}

/// The position of the notification that falls due first; the lowest such position where
/// several fall due together.
pub open spec fn earliest(p: Seq<Note>) -> int
    decreases p.len(),
{
    if p.len() <= 1 {
        0
    } else {
        let e = earliest(p.drop_last());
        if p.last().due_at < p[e].due_at {
            p.len() - 1
        } else {
            e
        }
    }
}

/// The instant at which the timer has to wake the scheduler next.
pub open spec fn wakeup(p: Seq<Note>) -> Option<u64> {
    if p.len() == 0 {
        None
    } else {
        Some(p[earliest(p)].due_at)
    }
}

/// The notification to deliver at `now`: the one that falls due first, if it has.
pub open spec fn due_now(p: Seq<Note>, now: u64) -> Option<Note> {
    if p.len() > 0 && p[earliest(p)].due_at <= now {
        Some(p[earliest(p)])
    } else {
        None
    }
}

/// The position that `earliest` names holds a notification, none falls due before it, and
/// none in front of it falls due with it.
pub proof fn lemma_earliest(p: Seq<Note>)
    requires
        p.len() > 0,
    ensures
        0 <= earliest(p) < p.len(),
        forall|j: int| 0 <= j < p.len() ==> p[earliest(p)].due_at <= (#[trigger] p[j]).due_at,
        forall|j: int| 0 <= j < earliest(p) ==> p[earliest(p)].due_at < (#[trigger] p[j]).due_at,
    decreases p.len(),
{
    if p.len() > 1 {
        let q = p.drop_last();
        lemma_earliest(q);
        assert forall|j: int| 0 <= j < q.len() implies q[j] == p[j] by {}
        let e = earliest(p);
        assert forall|j: int| 0 <= j < p.len() implies p[e].due_at <= (#[trigger] p[j]).due_at by {
            if j < q.len() {
                assert(q[earliest(q)].due_at <= q[j].due_at);
            }
        }
        assert forall|j: int| 0 <= j < e implies p[e].due_at < (#[trigger] p[j]).due_at by {
            assert(q[earliest(q)].due_at <= q[j].due_at);
            if e < q.len() {
                assert(q[e].due_at < q[j].due_at);
            }
        }
    }
}

/// Among orderly notifications an id stands at one position only.
pub proof fn lemma_slot_unique(p: Seq<Note>, next_id: u64, id: u64, i: int)
    requires
        orderly(p, next_id),
        listed_at(p, id, i),
    ensures
        is_pending(p, id),
        slot_of(p, id) == i,
{
    let j = slot_of(p, id);
    assert(listed_at(p, id, j));
    if j != i {
        assert(p[i].id != p[j].id);
    }
}

/// A record written or deleted under a key of its own leaves a held notification held.
pub proof fn lemma_committed_elsewhere(slots: Seq<SlotView>, n: Note, key: Seq<u8>, value: Seq<u8>)
    requires
        well_formed(slots),
        committed(slots, n),
        key != key_of(n.id),
    ensures
        key.len() > 0 ==> committed(put(slots, key, value), n),
        committed(discard(slots, key), n),
{
    if key.len() > 0 {
        lemma_put(slots, key, value);
    }
    lemma_discard(slots, key);
}

/// A write or a deletion under a key that belongs to no waiting notification keeps the
/// store a mirror of them.
pub proof fn lemma_mirrored_elsewhere(
    p: Seq<Note>,
    slots: Seq<SlotView>,
    key: Seq<u8>,
    value: Seq<u8>,
)
    requires
        well_formed(slots),
        mirrored(p, slots),
        forall|i: int| 0 <= i < p.len() ==> key_of((#[trigger] p[i]).id) != key,
    ensures
        key.len() > 0 ==> mirrored(p, put(slots, key, value)),
        mirrored(p, discard(slots, key)),
{
    assert forall|i: int| 0 <= i < p.len() implies (key.len() > 0 ==> committed(
        put(slots, key, value),
        #[trigger] p[i],
    )) && committed(discard(slots, key), p[i]) by {
        lemma_committed_elsewhere(slots, p[i], key, value);
    }
}

/// Scheduling: the new notification joins the others, and the store with its record added
/// mirrors them all.
pub proof fn lemma_schedule(p: Seq<Note>, next_id: u64, slots: Seq<SlotView>, n: Note)
    requires
        orderly(p, next_id),
        well_formed(slots),
        mirrored(p, slots),
        n.waiting(),
        n.id == next_id,
    ensures
        key_of(n.id).len() > 0,
        orderly(p.push(n), (next_id + 1) as u64),
        mirrored(p.push(n), put(slots, key_of(n.id), encode_note(n))),
        is_pending(p.push(n), n.id),
{
    let q = p.push(n);
    let key = key_of(n.id);
    crate::notification::lemma_key_id(n.id);
    lemma_put(slots, key, encode_note(n));
    assert forall|i: int| 0 <= i < q.len() implies committed(
        put(slots, key, encode_note(n)),
        #[trigger] q[i],
    ) by {
        if i < p.len() {
            lemma_keys_differ(p[i].id, n.id);
            lemma_committed_elsewhere(slots, p[i], key, encode_note(n));
        }
    }
    assert(listed_at(q, n.id, p.len() as int));
}

/// Withdrawing: the others stay as they were, the id waits no more, and the store without
/// its record mirrors those that are left.
pub proof fn lemma_withdraw(p: Seq<Note>, next_id: u64, slots: Seq<SlotView>, id: u64)
    requires
        orderly(p, next_id),
        well_formed(slots),
        mirrored(p, slots),
    ensures
        orderly(without(p, id), next_id),
        !is_pending(without(p, id), id),
        forall|other: u64|
            other != id ==> (is_pending(without(p, id), other) <==> is_pending(p, other)),
        mirrored(without(p, id), discard(slots, key_of(id))),
{
    let q = without(p, id);
    let key = key_of(id);
    lemma_discard(slots, key);
    if is_pending(p, id) {
        let s = slot_of(p, id);
        assert(listed_at(p, id, s));
        assert forall|i: int| 0 <= i < q.len() implies q[i] == p[if i < s {
            i
        } else {
            i + 1
        }] by {}
        assert forall|i: int, j: int|
            0 <= i < q.len() && 0 <= j < q.len() && i != j implies (#[trigger] q[i]).id != (
        #[trigger] q[j]).id by {
            let a = if i < s {
                i
            } else {
                i + 1
            };
            let b = if j < s {
                j
            } else {
                j + 1
            };
            assert(p[a].id != p[b].id);
        }
        assert forall|i: int| 0 <= i < q.len() implies (#[trigger] q[i]).id != id && committed(
            discard(slots, key),
            q[i],
        ) by {
            let a = if i < s {
                i
            } else {
                i + 1
            };
            assert(p[a].id != p[s].id);
            lemma_keys_differ(p[a].id, id);
            lemma_committed_elsewhere(slots, p[a], key, Seq::empty());
        }
        assert(!is_pending(q, id)) by {
            if is_pending(q, id) {
                let i = slot_of(q, id);
                assert(listed_at(q, id, i));
            }
        }
        assert forall|other: u64| other != id implies (is_pending(q, other) <==> is_pending(
            p,
            other,
        )) by {
            if is_pending(p, other) {
                let i = slot_of(p, other);
                assert(listed_at(p, other, i));
                let a = if i < s {
                    i
                } else {
                    i - 1
                };
                assert(listed_at(q, other, a));
            }
            if is_pending(q, other) {
                let i = slot_of(q, other);
                assert(listed_at(q, other, i));
                let a = if i < s {
                    i
                } else {
                    i + 1
                };
                assert(listed_at(p, other, a));
            }
        }
    } else {
        assert forall|i: int| 0 <= i < q.len() implies committed(
            discard(slots, key),
            #[trigger] q[i],
        ) by {
            assert(!listed_at(p, id, i));
            lemma_keys_differ(p[i].id, id);
            lemma_committed_elsewhere(slots, p[i], key, Seq::empty());
        }
    }
}

/// A notification that may be tried again still waits after the retry.
pub proof fn lemma_retried_waiting(n: Note)
    requires
        n.waiting(),
        may_retry(n),
    ensures
        retried(n).waiting(),
        retried(n).id == n.id,
        retried(n).attempts == n.attempts + 1,
        retried(n).due_at == n.due_at + backoff(n.attempts as nat),
        retried(n).due_at > n.due_at,
{
    lemma_backoff_bounded(n.attempts as nat);
    assert(n.due_at + backoff(n.attempts as nat) <= HORIZON + (n.attempts + 1) * BACKOFF_CAP)
        by (nonlinear_arith)
        requires
            n.due_at <= HORIZON + n.attempts * BACKOFF_CAP,
            backoff(n.attempts as nat) <= BACKOFF_CAP,
    ;
}

/// Retrying: the notification keeps its place with one try less and a later due instant,
/// and the store with its record rewritten mirrors them all.
pub proof fn lemma_retry(p: Seq<Note>, next_id: u64, slots: Seq<SlotView>, i: int)
    requires
        orderly(p, next_id),
        well_formed(slots),
        mirrored(p, slots),
        0 <= i < p.len(),
        may_retry(p[i]),
    ensures
        key_of(p[i].id).len() > 0,
        orderly(p.update(i, retried(p[i])), next_id),
        mirrored(
            p.update(i, retried(p[i])),
            put(slots, key_of(p[i].id), encode_note(retried(p[i]))),
        ),
{
    let n = retried(p[i]);
    let q = p.update(i, n);
    let key = key_of(p[i].id);
    crate::notification::lemma_key_id(p[i].id);
    lemma_retried_waiting(p[i]);
    lemma_put(slots, key, encode_note(n));
    assert forall|a: int, b: int|
        0 <= a < q.len() && 0 <= b < q.len() && a != b implies (#[trigger] q[a]).id != (
    #[trigger] q[b]).id by {
        assert(p[a].id != p[b].id);
    }
    assert forall|a: int| 0 <= a < q.len() implies committed(
        put(slots, key, encode_note(n)),
        #[trigger] q[a],
    ) by {
        if a != i {
            assert(p[a].id != p[i].id);
            lemma_keys_differ(p[a].id, p[i].id);
            lemma_committed_elsewhere(slots, p[a], key, encode_note(n));
        }
    }
}

} // verus!

use crate::bytes::copy_bytes;
use crate::notification::{
    backoff_for, counter_bytes, counter_key, counter_key_bytes, decode_counter, decode_note,
    encode_counter, encode_note, id_of, key_of, lemma_counter, lemma_keys_differ, namespace,
    namespace_bytes, read_counter, Note, NotificationId, ScheduledNotification, Status, HORIZON,
    RETRY_CEILING,
};
use crate::pending::{
    after_report, committed, due_now, earliest, is_pending, lemma_mirrored_elsewhere, lemma_retry,
    lemma_schedule, lemma_slot_unique, lemma_withdraw, listed_at, may_retry, mirrored, orderly,
    retried, slot_of, status_after, wakeup, without,
};
use crate::records::{content, damaged, discard, lemma_put, put};
use crate::store::{entry_views, listed, Entry, Outcome, Store, StoreError};
use crate::wire::{image_of, parse, SlotView};
use vstd::prelude::*;

verus! {

/// Why a scheduler operation did not succeed.
#[derive(Debug, Clone, Copy, PartialEq, Eq)]
pub enum SchedulerError {
    /// The durable store did not take the change.
    Store(StoreError),
}

impl SchedulerError {
    /// The text under which the error is shown to the host application.
    pub fn message(&self) -> (text: &'static str)
        ensures
            text@ == match self {
                SchedulerError::Store(e) => match e {
                    StoreError::IoFailure => "storage medium unavailable"@,
                    StoreError::Corrupt => "stored record is corrupt"@,
                },
            },
    {
        match self {
            SchedulerError::Store(e) => e.message(),
        }
    }
}

/// Why the delivery collaborator did not deliver a notification.
#[derive(Debug, Clone, Copy, PartialEq, Eq)]
pub enum DeliveryError {
    /// The collaborator could not present the notification this time.
    DeliveryFailure,
}

/// What is handed to the delivery collaborator for one notification.
#[derive(Debug, PartialEq, Eq)]
pub struct Delivery {
    pub id: NotificationId,
    pub title: Vec<u8>,
    pub body: Vec<u8>,
}

/// The views of a sequence of notifications, in order.
pub open spec fn notes(list: Seq<ScheduledNotification>) -> Seq<Note> {
    list.map_values(|n: ScheduledNotification| n@)
}

/// The notification that `schedule` creates.
pub open spec fn drafted(id: u64, title: Seq<u8>, body: Seq<u8>, now: u64, delay: u64) -> Note {
    Note { id, title, body, due_at: (now + delay) as u64, attempts: 0, status: Status::Pending }
}

/// The waiting notifications with the one that a stored entry describes added, where it
/// describes one whose id does not wait already.
pub open spec fn enroll(acc: Seq<Note>, entry: (Seq<u8>, Seq<u8>)) -> Seq<Note> {
    match id_of(entry.0) {
        Some(id) => match decode_note(id, entry.1) {
            Some(n) => if is_pending(acc, id) {
                acc
            } else {
                acc.push(n)
            },
            None => acc,
        },
        None => acc,
    }
}

/// The waiting notifications that a listing of the scheduler's namespace describes.
pub open spec fn restored(entries: Seq<(Seq<u8>, Seq<u8>)>) -> Seq<Note>
    decreases entries.len(),
{
    if entries.len() == 0 {
        Seq::empty()
    } else {
        enroll(restored(entries.drop_last()), entries.last())
    }
}

/// One more than the largest id among the notifications, zero where there is none.
pub open spec fn high_water(p: Seq<Note>) -> int
    decreases p.len(),
{
    if p.len() == 0 {
        0
    } else if p.last().id + 1 > high_water(p.drop_last()) {
        p.last().id + 1
    } else {
        high_water(p.drop_last())
    }
}

/// The id that the store says the next notification gets: what an intact counter record
/// holds, zero where there is none.
pub open spec fn counter_of(slots: Seq<SlotView>) -> u64 {
    if content(slots).dom().contains(counter_key()) && !damaged(slots).contains(counter_key()) {
        decode_counter(content(slots)[counter_key()])
    } else {
        0
    }
}

/// The id at which a rebuilt scheduler goes on: past every waiting notification and not
/// below the stored counter.
pub open spec fn resume_at(p: Seq<Note>, slots: Seq<SlotView>) -> int {
    if counter_of(slots) > high_water(p) {
        counter_of(slots) as int
    } else {
        high_water(p)
    }
}

/// The records of the store after a notification was scheduled: the counter moves past
/// its id, and its record is added.
pub open spec fn records_after_schedule(slots: Seq<SlotView>, n: Note) -> Seq<SlotView> {
    put(
        put(slots, counter_key(), encode_counter((n.id + 1) as u64)),
        key_of(n.id),
        encode_note(n),
    )
}

/// The records of the store after a delivery was reported.
pub open spec fn records_after_report(
    p: Seq<Note>,
    slots: Seq<SlotView>,
    id: u64,
    delivered: bool,
) -> Seq<SlotView> {
    if !is_pending(p, id) {
        slots
    } else if !delivered && may_retry(p[slot_of(p, id)]) {
        put(slots, key_of(id), encode_note(retried(p[slot_of(p, id)])))
    } else {
        discard(slots, key_of(id))
    }
}

/// The records of the store after a cancellation.
pub open spec fn records_after_cancel(p: Seq<Note>, slots: Seq<SlotView>, id: u64) -> Seq<
    SlotView,
> {
    if is_pending(p, id) {
        discard(slots, key_of(id))
    } else {
        slots
    }
}

/// An entry of a listing stands in the store as an intact record.
proof fn lemma_listed_committed(slots: Seq<SlotView>, prefix: Seq<u8>, k: int)
    requires
        crate::records::well_formed(slots),
        0 <= k < listed(slots, prefix).len(),
    ensures
        crate::records::content(slots).dom().contains(listed(slots, prefix)[k].0),
        crate::records::content(slots)[listed(slots, prefix)[k].0] == listed(slots, prefix)[k].1,
        !crate::records::damaged(slots).contains(listed(slots, prefix)[k].0),
{
    let pred = crate::store::listable(prefix);
    let kept = slots.filter(pred);
    let s = kept[k];
    slots.lemma_filter_pred(pred, k);
    assert(kept.contains(s));
    slots.lemma_filter_contains_rev(pred, s);
    let i = choose|i: int| 0 <= i < slots.len() && slots[i] == s;
    assert(crate::records::at(slots, s.key, i));
    crate::records::lemma_index_unique(slots, s.key, i);
}

/// What decoding hands back encodes to the bytes that were decoded.
proof fn lemma_encode_decoded(id: u64, bytes: Seq<u8>)
    requires
        decode_note(id, bytes) is Some,
    ensures
        encode_note(decode_note(id, bytes)->0) == bytes,
{
    vstd::bytes::lemma_auto_spec_u64_to_from_le_bytes();
    let n = decode_note(id, bytes)->0;
    let a = bytes.subrange(0, 8);
    let b = bytes.subrange(8, 16);
    let c = bytes.subrange(16, 24);
    assert(vstd::bytes::spec_u64_to_le_bytes(vstd::bytes::spec_u64_from_le_bytes(a)) == a);
    assert(vstd::bytes::spec_u64_to_le_bytes(vstd::bytes::spec_u64_from_le_bytes(b)) == b);
    assert(vstd::bytes::spec_u64_to_le_bytes(vstd::bytes::spec_u64_from_le_bytes(c)) == c);
    assert(encode_note(n) =~= bytes);
}

/// The scheduler: the notifications that wait, and the id that the next one gets.
pub struct Scheduler {
    pending: Vec<ScheduledNotification>,
    next_id: u64,
}

/// The position of the notification with this id, if it waits.
fn find_pending(pending: &Vec<ScheduledNotification>, id: u64) -> (found: Option<usize>)
    ensures
        match found {
            Some(i) => listed_at(notes(pending@), id, i as int),
            None => !is_pending(notes(pending@), id),
        },
{
    let ghost all = notes(pending@);
    let mut i: usize = 0;
    while i < pending.len()
        invariant
            i <= pending.len(),
            all == notes(pending@),
            forall|k: int| 0 <= k < i ==> !listed_at(all, id, k),
        decreases pending.len() - i,
    {
        if pending[i].id.0 == id {
            return Some(i);
        }
        i = i + 1;
    }
    None
}

/// The position of the notification that falls due first.
fn find_earliest(pending: &Vec<ScheduledNotification>) -> (e: usize)
    requires
        pending.len() > 0,
    ensures
        e == earliest(notes(pending@)),
        e < pending.len(),
{
    let ghost all = notes(pending@);
    let mut e: usize = 0;
    let mut i: usize = 1;
    proof {
        assert(all.take(1).len() == 1);
    }
    while i < pending.len()
        invariant
            1 <= i <= pending.len(),
            all == notes(pending@),
            e < i,
            e == earliest(all.take(i as int)),
        decreases pending.len() - i,
    {
        proof {
            assert(all.take(i + 1).drop_last() =~= all.take(i as int));
        }
        if pending[i].due_at < pending[e].due_at {
            e = i;
        }
        i = i + 1;
    }
    proof {
        assert(all.take(pending.len() as int) =~= all);
    }
    e
}

impl Scheduler {
    /// The notifications that wait, in the order in which they were admitted.
    pub closed spec fn pending(&self) -> Seq<Note> {
        notes(self.pending@)
    }

    /// The id that the next scheduled notification gets.
    pub closed spec fn next_id(&self) -> u64 {
        self.next_id
    }

    /// Every notification waits under an id of its own that was handed out already.
    pub open spec fn wf(&self) -> bool {
        orderly(self.pending(), self.next_id())
    }

    /// The store holds every waiting notification under its key.
    pub open spec fn mirrors(&self, store: &Store) -> bool {
        mirrored(self.pending(), store.records())
    }

    /// A scheduler with nothing to deliver.
    pub fn new() -> (fresh: Scheduler)
        ensures
            fresh.wf(),
            fresh.pending() == Seq::<Note>::empty(),
            fresh.next_id() == 0,
    {
        let fresh = Scheduler { pending: Vec::new(), next_id: 0 };
        proof {
            assert(fresh.pending() =~= Seq::<Note>::empty());
        }
        fresh
    }

    /// Rebuilds the waiting notifications from the scheduler's namespace in the store, those
    /// that are past due included. Entries that do not describe a waiting notification are
    /// passed over.
    pub fn recover(store: &Store) -> (rebuilt: Scheduler)
        requires
            store.wf(),
        ensures
            rebuilt.wf(),
            rebuilt.mirrors(store),
            rebuilt.pending() == restored(listed(store.records(), namespace())),
            rebuilt.next_id() == resume_at(rebuilt.pending(), store.records()),
    {
        let prefix = namespace_bytes();
        let entries = store.list_prefix(&prefix);
        let ghost all = entry_views(entries@);
        let ghost slots = store.records();
        let mut pending: Vec<ScheduledNotification> = Vec::new();
        let mut next_id: u64 = 0;
        let mut i: usize = 0;
        proof {
            assert(all.take(0) =~= Seq::<(Seq<u8>, Seq<u8>)>::empty());
            assert(notes(pending@) =~= Seq::<Note>::empty());
        }
        while i < entries.len()
            invariant
                i <= entries.len(),
                all == entry_views(entries@),
                all == listed(slots, namespace()),
                slots == store.records(),
                crate::records::well_formed(slots),
                notes(pending@) == restored(all.take(i as int)),
                orderly(notes(pending@), next_id),
                mirrored(notes(pending@), slots),
                next_id == high_water(notes(pending@)),
            decreases entries.len() - i,
        {
            let ghost before = notes(pending@);
            proof {
                assert(all.take(i + 1).drop_last() =~= all.take(i as int));
                assert(all.take(i + 1).last() == all[i as int]);
                assert(all[i as int] == entries@[i as int]@);
            }
            let entry: &Entry = &entries[i];
            match NotificationId::from_key(&entry.key) {
                Some(id) => {
                    match ScheduledNotification::decode(id, &entry.value) {
                        Some(n) => {
                            if find_pending(&pending, id.0).is_none() {
                                proof {
                                    lemma_listed_committed(slots, namespace(), i as int);
                                    lemma_encode_decoded(id.0, entry.value@);
                                    crate::notification::lemma_id_key(entry.key@);
                                    let after = before.push(n@);
                                    assert(notes(pending@.push(n)) =~= after);
                                    assert(after.drop_last() =~= before);
                                    assert forall|a: int, b: int|
                                        0 <= a < after.len() && 0 <= b < after.len() && a
                                            != b implies (#[trigger] after[a]).id != (
                                    #[trigger] after[b]).id by {
                                        if a < before.len() && b < before.len() {
                                            assert(before[a].id != before[b].id);
                                        } else if a < before.len() {
                                            assert(!listed_at(before, id.0, a));
                                        } else {
                                            assert(!listed_at(before, id.0, b));
                                        }
                                    }
                                    assert(committed(slots, n@));
                                }
                                if n.id.0 >= next_id {
                                    next_id = n.id.0 + 1;
                                }
                                pending.push(n);
                            }
                        },
                        None => {},
                    }
                },
                None => {},
            }
            i = i + 1;
        }
        proof {
            assert(all.take(entries.len() as int) =~= all);
        }
        let stored = match store.load(&counter_key_bytes()) {
            Ok(Some(bytes)) => read_counter(&bytes),
            _ => 0,
        };
        if stored > next_id {
            next_id = stored;
        }
        Scheduler { pending, next_id }
    }

    /// How many notifications wait.
    pub fn len(&self) -> (count: usize)
        ensures
            count == self.pending().len(),
    {
        self.pending.len()
    }

    /// Whether the notification with this id waits.
    pub fn is_pending(&self, id: NotificationId) -> (yes: bool)
        ensures
            yes == is_pending(self.pending(), id.0),
    {
        find_pending(&self.pending, id.0).is_some()
    }

    /// Whether `schedule` can take this request: the due instant lies within the horizon and
    /// an id is left to hand out.
    pub fn can_schedule(&self, delay: u64, now: u64) -> (yes: bool)
        ensures
            yes == (now + delay <= HORIZON && self.next_id() < u64::MAX),
    {
        self.next_id < u64::MAX && now <= HORIZON && delay <= HORIZON - now
    }

    /// The image that the medium must hold for `schedule` with these arguments to succeed.
    pub fn image_after_schedule(
        &self,
        store: &Store,
        title: &Vec<u8>,
        body: &Vec<u8>,
        delay: u64,
        now: u64,
    ) -> (image: Vec<u8>)
        requires
            store.wf(),
            now + delay <= HORIZON,
            self.next_id() < u64::MAX,
        ensures
            image@ == image_of(
                records_after_schedule(
                    store.records(),
                    drafted(self.next_id(), title@, body@, now, delay),
                ),
            ),
            parse(image@) == Some(
                records_after_schedule(
                    store.records(),
                    drafted(self.next_id(), title@, body@, now, delay),
                ),
            ),
    {
        let n = ScheduledNotification {
            id: NotificationId(self.next_id),
            title: copy_bytes(title),
            body: copy_bytes(body),
            due_at: now + delay,
            attempts: 0,
            status: Status::Pending,
        };
        let key = n.id.key();
        let value = n.encode();
        let mut next = store.duplicate();
        proof {
            lemma_counter((self.next_id + 1) as u64);
            lemma_put(next.records(), counter_key(), encode_counter((self.next_id + 1) as u64));
            crate::notification::lemma_key_id(self.next_id);
        }
        let _ = next.save(counter_key_bytes(), counter_bytes(self.next_id + 1), Outcome::Durable);
        let _ = next.save(key, value, Outcome::Durable);
        next.image()
    }

    /// Admits a notification that falls due `delay` milliseconds after `now`, given what the
    /// medium answered for `image_after_schedule`. Once its record is durable the
    /// notification waits and its id is returned; where the write failed nothing changes.
    pub fn schedule(
        &mut self,
        store: &mut Store,
        title: Vec<u8>,
        body: Vec<u8>,
        delay: u64,
        now: u64,
        outcome: Outcome,
    ) -> (scheduled: Result<NotificationId, SchedulerError>)
        requires
            old(self).wf(),
            old(store).wf(),
            old(self).mirrors(old(store)),
            now + delay <= HORIZON,
            old(self).next_id() < u64::MAX,
        ensures
            final(self).wf(),
            final(store).wf(),
            final(self).mirrors(final(store)),
            match outcome {
                Outcome::Durable => {
                    let n = drafted(old(self).next_id(), title@, body@, now, delay);
                    &&& scheduled == Ok::<NotificationId, SchedulerError>(
                        NotificationId(old(self).next_id()),
                    )
                    &&& final(self).pending() == old(self).pending().push(n)
                    &&& final(self).next_id() == old(self).next_id() + 1
                    &&& final(store).records() == records_after_schedule(old(store).records(), n)
                },
                Outcome::Failed => {
                    &&& scheduled == Err::<NotificationId, SchedulerError>(
                        SchedulerError::Store(StoreError::IoFailure),
                    )
                    &&& final(self).pending() == old(self).pending()
                    &&& final(self).next_id() == old(self).next_id()
                    &&& final(store).records() == old(store).records()
                },
            },
    {
        let id = NotificationId(self.next_id);
        let title_len = title.len();
        let n = ScheduledNotification {
            id,
            title,
            body,
            due_at: now + delay,
            attempts: 0,
            status: Status::Pending,
        };
        let ghost before = store.records();
        let ghost counted = put(before, counter_key(), encode_counter((self.next_id + 1) as u64));
        proof {
            assert(n@.title.len() == title_len);
            lemma_counter((self.next_id + 1) as u64);
            lemma_put(before, counter_key(), encode_counter((self.next_id + 1) as u64));
            assert forall|i: int| 0 <= i < self.pending().len() implies key_of(
                (#[trigger] self.pending()[i]).id,
            ) != counter_key() by {
                lemma_keys_differ(self.pending()[i].id, u64::MAX);
            }
            lemma_mirrored_elsewhere(
                self.pending(),
                before,
                counter_key(),
                encode_counter((self.next_id + 1) as u64),
            );
            lemma_schedule(self.pending(), self.next_id, counted, n@);
        }
        match store.save(counter_key_bytes(), counter_bytes(self.next_id + 1), outcome) {
            Ok(()) => {},
            Err(e) => {
                return Err(SchedulerError::Store(e));
            },
        }
        let key = id.key();
        let value = n.encode();
        match store.save(key, value, outcome) {
            Ok(()) => {
                proof {
                    assert(notes(self.pending@.push(n)) =~= self.pending().push(n@));
                }
                self.pending.push(n);
                self.next_id = self.next_id + 1;
                Ok(id)
            },
            Err(e) => Err(SchedulerError::Store(e)),
        }
    }

    /// The image that the medium must hold for `cancel(id, ..)` to succeed.
    pub fn image_after_cancel(&self, store: &Store, id: NotificationId) -> (image: Vec<u8>)
        requires
            store.wf(),
        ensures
            image@ == image_of(records_after_cancel(self.pending(), store.records(), id.0)),
            parse(image@) == Some(records_after_cancel(self.pending(), store.records(), id.0)),
    {
        if self.is_pending(id) {
            let key = id.key();
            store.image_after_delete(&key)
        } else {
            store.image()
        }
    }

    /// Withdraws the notification with this id, given what the medium answered for
    /// `image_after_cancel(id)`. Where no such notification waits there is nothing to do and
    /// the call succeeds whatever the medium answered.
    pub fn cancel(&mut self, store: &mut Store, id: NotificationId, outcome: Outcome) -> (cancelled:
        Result<(), SchedulerError>)
        requires
            old(self).wf(),
            old(store).wf(),
            old(self).mirrors(old(store)),
        ensures
            final(self).wf(),
            final(store).wf(),
            final(self).mirrors(final(store)),
            final(self).next_id() == old(self).next_id(),
            if outcome == Outcome::Failed && is_pending(old(self).pending(), id.0) {
                &&& cancelled == Err::<(), SchedulerError>(
                    SchedulerError::Store(StoreError::IoFailure),
                )
                &&& final(self).pending() == old(self).pending()
                &&& final(store).records() == old(store).records()
            } else {
                &&& cancelled is Ok
                &&& final(self).pending() == without(old(self).pending(), id.0)
                &&& !is_pending(final(self).pending(), id.0)
                &&& final(store).records() == records_after_cancel(
                    old(self).pending(),
                    old(store).records(),
                    id.0,
                )
            },
    {
        proof {
            lemma_withdraw(self.pending(), self.next_id, store.records(), id.0);
        }
        match find_pending(&self.pending, id.0) {
            Some(i) => {
                proof {
                    lemma_slot_unique(self.pending(), self.next_id, id.0, i as int);
                    assert(committed(store.records(), self.pending()[i as int]));
                }
                let key = id.key();
                match store.delete(&key, outcome) {
                    Ok(()) => {
                        let ghost before = self.pending();
                        let _ = self.pending.remove(i);
                        proof {
                            assert(self.pending() =~= before.remove(i as int));
                        }
                        Ok(())
                    },
                    Err(e) => Err(SchedulerError::Store(e)),
                }
            },
            None => Ok(()),
        }
    }

    /// The instant at which the timer has to wake the scheduler next: the earliest due
    /// instant among the waiting notifications.
    pub fn next_wakeup(&self) -> (instant: Option<u64>)
        ensures
            instant == wakeup(self.pending()),
    {
        if self.pending.len() == 0 {
            None
        } else {
            let e = find_earliest(&self.pending);
            Some(self.pending[e].due_at)
        }
    }

    /// What to hand to the delivery collaborator at `now`: the waiting notification that
    /// falls due first, if its due instant has come. Nothing changes until the delivery is
    /// reported.
    pub fn poll(&self, now: u64) -> (handed: Option<Delivery>)
        ensures
            match handed {
                Some(d) => {
                    &&& due_now(self.pending(), now) is Some
                    &&& d.id.0 == due_now(self.pending(), now)->0.id
                    &&& d.title@ == due_now(self.pending(), now)->0.title
                    &&& d.body@ == due_now(self.pending(), now)->0.body
                },
                None => due_now(self.pending(), now) is None,
            },
    {
        if self.pending.len() == 0 {
            return None;
        }
        let e = find_earliest(&self.pending);
        let n = &self.pending[e];
        if n.due_at <= now {
            Some(Delivery { id: n.id, title: copy_bytes(&n.title), body: copy_bytes(&n.body) })
        } else {
            None
        }
    }

    /// The image that the medium must hold for `report(id, delivery, ..)` to succeed.
    pub fn image_after_report(
        &self,
        store: &Store,
        id: NotificationId,
        delivery: Result<(), DeliveryError>,
    ) -> (image: Vec<u8>)
        requires
            self.wf(),
            store.wf(),
        ensures
            image@ == image_of(
                records_after_report(self.pending(), store.records(), id.0, delivery is Ok),
            ),
            parse(image@) == Some(
                records_after_report(self.pending(), store.records(), id.0, delivery is Ok),
            ),
    {
        let delivered = delivery.is_ok();
        match find_pending(&self.pending, id.0) {
            Some(i) => {
                proof {
                    lemma_slot_unique(self.pending(), self.next_id, id.0, i as int);
                }
                let n = &self.pending[i];
                let key = id.key();
                if !delivered && n.attempts + 1 < RETRY_CEILING {
                    proof {
                        crate::pending::lemma_retried_waiting(n@);
                    }
                    let next = ScheduledNotification {
                        id,
                        title: copy_bytes(&n.title),
                        body: copy_bytes(&n.body),
                        due_at: n.due_at + backoff_for(n.attempts),
                        attempts: n.attempts + 1,
                        status: Status::Pending,
                    };
                    let value = next.encode();
                    store.image_after_save(&key, &value)
                } else {
                    store.image_after_delete(&key)
                }
            },
            None => store.image(),
        }
    }

    /// Takes the collaborator's report on the delivery of the notification with this id,
    /// given what the medium answered for `image_after_report`. A delivered notification is
    /// fired and leaves; one that failed waits again after its backoff, or leaves as failed
    /// once its tries are used up; one that no longer waits was cancelled and nothing is
    /// done. Where the write failed nothing changes.
    pub fn report(
        &mut self,
        store: &mut Store,
        id: NotificationId,
        delivery: Result<(), DeliveryError>,
        outcome: Outcome,
    ) -> (reported: Result<Status, SchedulerError>)
        requires
            old(self).wf(),
            old(store).wf(),
            old(self).mirrors(old(store)),
        ensures
            final(self).wf(),
            final(store).wf(),
            final(self).mirrors(final(store)),
            final(self).next_id() == old(self).next_id(),
            if outcome == Outcome::Failed && is_pending(old(self).pending(), id.0) {
                &&& reported == Err::<Status, SchedulerError>(
                    SchedulerError::Store(StoreError::IoFailure),
                )
                &&& final(self).pending() == old(self).pending()
                &&& final(store).records() == old(store).records()
            } else {
                &&& reported == Ok::<Status, SchedulerError>(
                    status_after(old(self).pending(), id.0, delivery is Ok),
                )
                &&& final(self).pending() == after_report(
                    old(self).pending(),
                    id.0,
                    delivery is Ok,
                )
                &&& final(store).records() == records_after_report(
                    old(self).pending(),
                    old(store).records(),
                    id.0,
                    delivery is Ok,
                )
            },
    {
        let delivered = delivery.is_ok();
        let found = find_pending(&self.pending, id.0);
        match found {
            None => Ok(Status::Cancelled),
            Some(i) => {
                let ghost before = self.pending();
                proof {
                    lemma_slot_unique(before, self.next_id, id.0, i as int);
                    lemma_withdraw(before, self.next_id, store.records(), id.0);
                    assert(committed(store.records(), before[i as int]));
                }
                let key = id.key();
                let retry = !delivered && self.pending[i].attempts + 1 < RETRY_CEILING;
                if retry {
                    proof {
                        lemma_retry(before, self.next_id, store.records(), i as int);
                        crate::pending::lemma_retried_waiting(before[i as int]);
                    }
                    let n = &self.pending[i];
                    let next = ScheduledNotification {
                        id,
                        title: copy_bytes(&n.title),
                        body: copy_bytes(&n.body),
                        due_at: n.due_at + backoff_for(n.attempts),
                        attempts: n.attempts + 1,
                        status: Status::Pending,
                    };
                    let value = next.encode();
                    match store.save(key, value, outcome) {
                        Ok(()) => {
                            self.pending.set(i, next);
                            proof {
                                assert(self.pending() =~= before.update(
                                    i as int,
                                    retried(before[i as int]),
                                ));
                            }
                            Ok(Status::Pending)
                        },
                        Err(e) => Err(SchedulerError::Store(e)),
                    }
                } else {
                    match store.delete(&key, outcome) {
                        Ok(()) => {
                            let _ = self.pending.remove(i);
                            proof {
                                assert(self.pending() =~= before.remove(i as int));
                            }
                            if delivered {
                                Ok(Status::Fired)
                            } else {
                                Ok(Status::Failed)
                            }
                        },
                        Err(e) => Err(SchedulerError::Store(e)),
                    }
                }
            },
        }
    }
}

} // verus!

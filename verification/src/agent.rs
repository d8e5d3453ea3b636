use crate::bytes::append_bytes;
use crate::clock::{sleep_for, Timer};
use crate::notification::{encode_note, key_of, namespace, NotificationId, Status, HORIZON};
use crate::pending::{
    after_report, due_now, is_pending, lemma_mirrored_elsewhere, status_after, wakeup, without,
};
use crate::records::{damaged, discard, lemma_put, put};
use crate::scheduler::{
    drafted, records_after_cancel, records_after_report, records_after_schedule, restored,
    resume_at, Delivery, DeliveryError, Scheduler, SchedulerError,
};
use crate::store::{listed, Outcome, Store, StoreError};
use crate::wire::{image_of, parse, SlotView};
use vstd::prelude::*;

verus! {

/// The bytes in front of every key that holds application data: `data/`.
pub open spec fn data_space() -> Seq<u8> {
    seq![100u8, 97u8, 116u8, 97u8, 47u8]
}

/// The key under which the store holds the application's value for `key`.
pub open spec fn data_key(key: Seq<u8>) -> Seq<u8> {
    data_space() + key
}

/// The application's mapping, as the records of the store hold it.
pub open spec fn data_of(slots: Seq<SlotView>) -> Map<Seq<u8>, Seq<u8>> {
    Map::new(
        |k: Seq<u8>| crate::records::content(slots).dom().contains(data_key(k)),
        |k: Seq<u8>| crate::records::content(slots)[data_key(k)],
    )
}

/// Keys of application data are never empty, differ where the application's keys differ,
/// and are no keys of the scheduler.
pub proof fn lemma_data_key(key: Seq<u8>)
    ensures
        data_key(key).len() > 0,
        forall|other: Seq<u8>| other != key ==> #[trigger] data_key(other) != data_key(key),
        forall|id: u64| #[trigger] key_of(id) != data_key(key),
{
    assert forall|other: Seq<u8>| other != key implies #[trigger] data_key(other) != data_key(
        key,
    ) by {
        assert(data_key(other).skip(5) =~= other);
        assert(data_key(key).skip(5) =~= key);
    }
    assert forall|id: u64| #[trigger] key_of(id) != data_key(key) by {
        assert(key_of(id)[0] == 95u8);
        assert(data_key(key)[0] == 100u8);
    }
}

/// The key under which the store holds the application's value for `key`.
fn data_key_bytes(key: &Vec<u8>) -> (full: Vec<u8>)
    ensures
        full@ == data_key(key@),
{
    let mut full: Vec<u8> = vec![100u8, 97u8, 116u8, 97u8, 47u8];
    proof {
        assert(full@ =~= data_space());
    }
    append_bytes(&mut full, key);
    full
}

/// The agent: the durable store, the scheduler whose notifications the store mirrors, and
/// the timer that is armed for the notification that falls due first.
pub struct Agent {
    store: Store,
    scheduler: Scheduler,
    timer: Timer,
}

impl Agent {
    /// The durable store.
    pub closed spec fn store(&self) -> Store {
        self.store
    }

    /// The scheduler.
    pub closed spec fn scheduler(&self) -> Scheduler {
        self.scheduler
    }

    /// The instant for which the timer is armed, if it is.
    pub closed spec fn armed(&self) -> Option<u64> {
        self.timer@
    }

    /// Store and scheduler are each in order, the store holds every waiting notification,
    /// and the timer is armed for the one that falls due first.
    pub open spec fn wf(&self) -> bool {
        &&& self.store().wf()
        &&& self.scheduler().wf()
        &&& self.scheduler().mirrors(&self.store())
        &&& self.armed() == wakeup(self.pending())
    }

    /// The committed records.
    pub open spec fn records(&self) -> Seq<SlotView> {
        self.store().records()
    }

    /// The application's committed mapping.
    pub open spec fn data(&self) -> Map<Seq<u8>, Seq<u8>> {
        data_of(self.records())
    }

    /// The waiting notifications.
    pub open spec fn pending(&self) -> Seq<crate::notification::Note> {
        self.scheduler().pending()
    }

    /// Starts the agent on the image that the medium holds: the store is opened and the
    /// waiting notifications are rebuilt from it. An image that the store refuses is
    /// reported as corrupt.
    pub fn start(image: &Vec<u8>) -> (started: Result<Agent, StoreError>)
        ensures
            match started {
                Ok(agent) => {
                    &&& agent.wf()
                    &&& parse(image@) == Some(agent.records())
                    &&& agent.pending() == restored(listed(agent.records(), namespace()))
                    &&& agent.scheduler().next_id() == resume_at(agent.pending(), agent.records())
                },
                Err(e) => e == StoreError::Corrupt && match parse(image@) {
                    Some(slots) => !crate::records::well_formed(slots),
                    None => true,
                },
            },
    {
        match Store::open(image) {
            Ok(store) => {
                let scheduler = Scheduler::recover(&store);
                let mut timer = Timer::idle();
                timer.arm(scheduler.next_wakeup());
                Ok(Agent { store, scheduler, timer })
            },
            Err(e) => Err(e),
        }
    }

    /// The image of the committed state.
    pub fn image(&self) -> (image: Vec<u8>)
        ensures
            image@ == image_of(self.records()),
            parse(image@) == Some(self.records()),
    {
        self.store.image()
    }

    /// The image that the medium must hold for `save(key, value, ..)` to succeed.
    pub fn image_after_save(&self, key: &Vec<u8>, value: &Vec<u8>) -> (image: Vec<u8>)
        requires
            self.wf(),
        ensures
            image@ == image_of(put(self.records(), data_key(key@), value@)),
            parse(image@) == Some(put(self.records(), data_key(key@), value@)),
    {
        let full = data_key_bytes(key);
        self.store.image_after_save(&full, value)
    }

    /// Commits the application's `value` under `key`, given what the medium answered for
    /// `image_after_save(key, value)`. The waiting notifications are not touched.
    pub fn save(&mut self, key: &Vec<u8>, value: Vec<u8>, outcome: Outcome) -> (saved: Result<
        (),
        StoreError,
    >)
        requires
            old(self).wf(),
        ensures
            final(self).wf(),
            final(self).pending() == old(self).pending(),
            final(self).scheduler().next_id() == old(self).scheduler().next_id(),
            match outcome {
                Outcome::Durable => {
                    &&& saved is Ok
                    &&& final(self).data() == old(self).data().insert(key@, value@)
                    &&& damaged(final(self).records()) == damaged(old(self).records()).remove(
                        data_key(key@),
                    )
                    &&& final(self).records() == put(old(self).records(), data_key(key@), value@)
                },
                Outcome::Failed => {
                    &&& saved == Err::<(), StoreError>(StoreError::IoFailure)
                    &&& final(self).records() == old(self).records()
                },
            },
    {
        let full = data_key_bytes(key);
        proof {
            lemma_data_key(key@);
            lemma_mirrored_elsewhere(self.pending(), self.records(), full@, value@);
            lemma_put(self.records(), full@, value@);
            let after = put(self.records(), full@, value@);
            assert forall|k: Seq<u8>| k != key@ implies #[trigger] data_key(k) != data_key(
                key@,
            ) by {
                lemma_data_key(key@);
            }
            assert(data_of(after) =~= data_of(self.records()).insert(key@, value@));
        }
        self.store.save(full, value, outcome)
    }

    /// The application's committed value for `key`: the empty value where none was saved.
    /// A record that fails its integrity check is reported as corrupt.
    pub fn load(&self, key: &Vec<u8>) -> (loaded: Result<Vec<u8>, StoreError>)
        requires
            self.wf(),
        ensures
            match loaded {
                Ok(value) => {
                    &&& !damaged(self.records()).contains(data_key(key@))
                    &&& value@ == if self.data().dom().contains(key@) {
                        self.data()[key@]
                    } else {
                        Seq::<u8>::empty()
                    }
                },
                Err(e) => e == StoreError::Corrupt && damaged(self.records()).contains(
                    data_key(key@),
                ),
            },
    {
        let full = data_key_bytes(key);
        match self.store.load(&full) {
            Ok(Some(value)) => Ok(value),
            Ok(None) => Ok(Vec::new()),
            Err(e) => Err(e),
        }
    }

    /// Whether `schedule` can take this request.
    pub fn can_schedule(&self, delay_ms: u64, now: u64) -> (yes: bool)
        ensures
            yes == (now + delay_ms <= HORIZON && self.scheduler().next_id() < u64::MAX),
    {
        self.scheduler.can_schedule(delay_ms, now)
    }

    /// The image that the medium must hold for `schedule` with these arguments
    /// to succeed.
    pub fn image_after_schedule(
        &self,
        title: &Vec<u8>,
        body: &Vec<u8>,
        delay_ms: u64,
        now: u64,
    ) -> (image: Vec<u8>)
        requires
            self.wf(),
            now + delay_ms <= HORIZON,
            self.scheduler().next_id() < u64::MAX,
        ensures
            image@ == image_of(
                records_after_schedule(
                    self.records(),
                    drafted(self.scheduler().next_id(), title@, body@, now, delay_ms),
                ),
            ),
            parse(image@) == Some(
                records_after_schedule(
                    self.records(),
                    drafted(self.scheduler().next_id(), title@, body@, now, delay_ms),
                ),
            ),
    {
        self.scheduler.image_after_schedule(&self.store, title, body, delay_ms, now)
    }

    /// Schedules a notification to be delivered `delay_ms` milliseconds after `now`, given
    /// what the medium answered for `image_after_schedule`. The application's
    /// data is not touched.
    pub fn schedule(
        &mut self,
        title: Vec<u8>,
        body: Vec<u8>,
        delay_ms: u64,
        now: u64,
        outcome: Outcome,
    ) -> (scheduled: Result<NotificationId, SchedulerError>)
        requires
            old(self).wf(),
            now + delay_ms <= HORIZON,
            old(self).scheduler().next_id() < u64::MAX,
        ensures
            final(self).wf(),
            match outcome {
                Outcome::Durable => {
                    let n = drafted(old(self).scheduler().next_id(), title@, body@, now, delay_ms);
                    &&& scheduled == Ok::<NotificationId, SchedulerError>(NotificationId(n.id))
                    &&& final(self).pending() == old(self).pending().push(n)
                    &&& final(self).scheduler().next_id() == n.id + 1
                    &&& final(self).records() == records_after_schedule(old(self).records(), n)
                    &&& final(self).data() == old(self).data()
                },
                Outcome::Failed => {
                    &&& scheduled == Err::<NotificationId, SchedulerError>(
                        SchedulerError::Store(StoreError::IoFailure),
                    )
                    &&& final(self).pending() == old(self).pending()
                    &&& final(self).scheduler().next_id() == old(self).scheduler().next_id()
                    &&& final(self).records() == old(self).records()
                },
            },
    {
        proof {
            let n = drafted(self.scheduler.next_id(), title@, body@, now, delay_ms);
            let counter = crate::notification::encode_counter((n.id + 1) as u64);
            let counted = put(self.records(), crate::notification::counter_key(), counter);
            lemma_scheduler_key_keeps_data(self.records(), u64::MAX, counter);
            crate::notification::lemma_counter((n.id + 1) as u64);
            lemma_put(self.records(), crate::notification::counter_key(), counter);
            lemma_scheduler_key_keeps_data(counted, n.id, encode_note(n));
        }
        let scheduled = self.scheduler.schedule(
            &mut self.store,
            title,
            body,
            delay_ms,
            now,
            outcome,
        );
        self.timer.arm(self.scheduler.next_wakeup());
        scheduled
    }

    /// The image that the medium must hold for `cancel(id, ..)` to succeed.
    pub fn image_after_cancel(&self, id: NotificationId) -> (image: Vec<u8>)
        requires
            self.wf(),
        ensures
            image@ == image_of(records_after_cancel(self.pending(), self.records(), id.0)),
            parse(image@) == Some(records_after_cancel(self.pending(), self.records(), id.0)),
    {
        self.scheduler.image_after_cancel(&self.store, id)
    }

    /// Withdraws the notification with this id, given what the medium answered for
    /// `image_after_cancel(id)`. Where no such notification waits the call succeeds and
    /// nothing changes.
    pub fn cancel(&mut self, id: NotificationId, outcome: Outcome) -> (cancelled: Result<
        (),
        SchedulerError,
    >)
        requires
            old(self).wf(),
        ensures
            final(self).wf(),
            final(self).data() == old(self).data(),
            final(self).scheduler().next_id() == old(self).scheduler().next_id(),
            if outcome == Outcome::Failed && is_pending(old(self).pending(), id.0) {
                &&& cancelled == Err::<(), SchedulerError>(
                    SchedulerError::Store(StoreError::IoFailure),
                )
                &&& final(self).pending() == old(self).pending()
                &&& final(self).records() == old(self).records()
            } else {
                &&& cancelled is Ok
                &&& final(self).pending() == without(old(self).pending(), id.0)
                &&& !is_pending(final(self).pending(), id.0)
                &&& final(self).records() == records_after_cancel(
                    old(self).pending(),
                    old(self).records(),
                    id.0,
                )
            },
    {
        proof {
            lemma_scheduler_key_keeps_data(self.records(), id.0, Seq::empty());
        }
        let cancelled = self.scheduler.cancel(&mut self.store, id, outcome);
        self.timer.arm(self.scheduler.next_wakeup());
        cancelled
    }

    /// The instant for which the timer is armed: the earliest due instant among the waiting
    /// notifications.
    pub fn next_wakeup(&self) -> (instant: Option<u64>)
        requires
            self.wf(),
        ensures
            instant == wakeup(self.pending()),
    {
        self.timer.target()
    }

    /// How long the worker may sleep at `now` before a notification falls due: nothing where
    /// one is due already, and no answer where none waits.
    pub fn sleep(&self, now: u64) -> (wait: Option<u64>)
        requires
            self.wf(),
        ensures
            wait == sleep_for(wakeup(self.pending()), now),
    {
        self.timer.sleep(now)
    }

    /// What to hand to the delivery collaborator at `now`, if anything has fallen due.
    pub fn poll(&self, now: u64) -> (handed: Option<Delivery>)
        ensures
            match handed {
                Some(d) => {
                    &&& due_now(self.pending(), now) is Some
                    &&& d.id.0 == due_now(self.pending(), now)->0.id
                    &&& d.title@ == due_now(self.pending(), now)->0.title
                    &&& d.body@ == due_now(self.pending(), now)->0.body
                },
                None => due_now(self.pending(), now) is None,
            },
    {
        self.scheduler.poll(now)
    }

    /// The image that the medium must hold for `report(id, delivery, ..)` to succeed.
    pub fn image_after_report(
        &self,
        id: NotificationId,
        delivery: Result<(), DeliveryError>,
    ) -> (image: Vec<u8>)
        requires
            self.wf(),
        ensures
            image@ == image_of(
                records_after_report(self.pending(), self.records(), id.0, delivery is Ok),
            ),
            parse(image@) == Some(
                records_after_report(self.pending(), self.records(), id.0, delivery is Ok),
            ),
    {
        self.scheduler.image_after_report(&self.store, id, delivery)
    }

    /// Takes the collaborator's report on the delivery of the notification with this id,
    /// given what the medium answered for `image_after_report`.
    pub fn report(
        &mut self,
        id: NotificationId,
        delivery: Result<(), DeliveryError>,
        outcome: Outcome,
    ) -> (reported: Result<Status, SchedulerError>)
        requires
            old(self).wf(),
        ensures
            final(self).wf(),
            final(self).data() == old(self).data(),
            final(self).scheduler().next_id() == old(self).scheduler().next_id(),
            if outcome == Outcome::Failed && is_pending(old(self).pending(), id.0) {
                &&& reported == Err::<Status, SchedulerError>(
                    SchedulerError::Store(StoreError::IoFailure),
                )
                &&& final(self).pending() == old(self).pending()
                &&& final(self).records() == old(self).records()
            } else {
                &&& reported == Ok::<Status, SchedulerError>(
                    status_after(old(self).pending(), id.0, delivery is Ok),
                )
                &&& final(self).pending() == after_report(
                    old(self).pending(),
                    id.0,
                    delivery is Ok,
                )
                &&& final(self).records() == records_after_report(
                    old(self).pending(),
                    old(self).records(),
                    id.0,
                    delivery is Ok,
                )
            },
    {
        proof {
            let p = self.pending();
            if is_pending(p, id.0) {
                let n = crate::pending::retried(p[crate::pending::slot_of(p, id.0)]);
                lemma_scheduler_key_keeps_data(self.records(), id.0, encode_note(n));
            }
        }
        let reported = self.scheduler.report(&mut self.store, id, delivery, outcome);
        self.timer.arm(self.scheduler.next_wakeup());
        reported
    }
}

/// A write or a deletion under a key of the scheduler leaves the application's mapping as
/// it was.
pub proof fn lemma_scheduler_key_keeps_data(slots: Seq<SlotView>, id: u64, value: Seq<u8>)
    requires
        crate::records::well_formed(slots),
    ensures
        data_of(put(slots, key_of(id), value)) == data_of(slots),
        data_of(discard(slots, key_of(id))) == data_of(slots),
{
    crate::notification::lemma_key_id(id);
    lemma_put(slots, key_of(id), value);
    crate::records::lemma_discard(slots, key_of(id));
    assert forall|k: Seq<u8>| #[trigger] data_key(k) != key_of(id) by {
        lemma_data_key(k);
    }
    assert(data_of(put(slots, key_of(id), value)) =~= data_of(slots));
    assert(data_of(discard(slots, key_of(id))) =~= data_of(slots));
}

} // verus!

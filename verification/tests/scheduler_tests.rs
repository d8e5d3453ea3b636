use agent_core::notification::{
    backoff_for, NotificationId, ScheduledNotification, Status, BACKOFF_CAP, HORIZON,
    RETRY_CEILING,
};
use agent_core::scheduler::{Delivery, DeliveryError, Scheduler, SchedulerError};
use agent_core::store::{Outcome, Store, StoreError};

fn b(text: &str) -> Vec<u8> {
    text.as_bytes().to_vec()
}

fn fresh() -> (Store, Scheduler) {
    (Store::new(), Scheduler::new())
}

#[test]
fn key_of_an_id_is_namespace_then_little_endian_id() {
    let key = NotificationId(0x0102).key();
    let mut expected = b("__sched__/");
    expected.extend_from_slice(&[2, 1, 0, 0, 0, 0, 0, 0]);
    assert_eq!(key, expected);
    assert_eq!(NotificationId::from_key(&key), Some(NotificationId(0x0102)));
}

#[test]
fn from_key_refuses_foreign_keys() {
    assert_eq!(NotificationId::from_key(&b("data/k")), None);
    assert_eq!(NotificationId::from_key(&b("__sched__/")), None);
    assert_eq!(NotificationId::from_key(&b("__sched__/123456789")), None);
    let mut wrong = b("__sched_x/");
    wrong.extend_from_slice(&[0; 8]);
    assert_eq!(NotificationId::from_key(&wrong), None);
    let mut last = b("__sched__/");
    last.extend_from_slice(&[0xff; 8]);
    assert_eq!(NotificationId::from_key(&last), None);
}

#[test]
fn notification_bytes_have_the_documented_layout() {
    let n = ScheduledNotification {
        id: NotificationId(1),
        title: b("hi"),
        body: b("there"),
        due_at: 258,
        attempts: 3,
        status: Status::Pending,
    };
    let mut expected: Vec<u8> = Vec::new();
    expected.extend_from_slice(&[2, 1, 0, 0, 0, 0, 0, 0]);
    expected.extend_from_slice(&[3, 0, 0, 0, 0, 0, 0, 0]);
    expected.extend_from_slice(&[2, 0, 0, 0, 0, 0, 0, 0]);
    expected.extend_from_slice(b"hithere");
    assert_eq!(n.encode(), expected);
    assert_eq!(ScheduledNotification::decode(NotificationId(1), &expected), Some(n));
}

#[test]
fn decode_refuses_what_is_no_waiting_notification() {
    let id = NotificationId(1);
    assert_eq!(ScheduledNotification::decode(id, &b("short")), None);
    let sound = ScheduledNotification {
        id,
        title: b("t"),
        body: Vec::new(),
        due_at: 5,
        attempts: 0,
        status: Status::Pending,
    }
    .encode();
    let mut long_title = sound.clone();
    long_title[16] = 2;
    assert_eq!(ScheduledNotification::decode(id, &long_title), None);
    let mut spent = sound.clone();
    spent[8] = RETRY_CEILING as u8;
    assert_eq!(ScheduledNotification::decode(id, &spent), None);
    let mut late = sound.clone();
    for byte in late.iter_mut().take(8) {
        *byte = 0xff;
    }
    assert_eq!(ScheduledNotification::decode(id, &late), None);
    assert_eq!(ScheduledNotification::decode(NotificationId(u64::MAX), &sound), None);
    assert!(ScheduledNotification::decode(id, &sound).is_some());
}

#[test]
fn backoff_doubles_up_to_its_cap() {
    assert_eq!(backoff_for(0), 1000);
    assert_eq!(backoff_for(1), 2000);
    assert_eq!(backoff_for(2), 4000);
    assert_eq!(backoff_for(3), 8000);
    assert_eq!(backoff_for(4), 16000);
    assert_eq!(backoff_for(5), 32000);
    assert_eq!(backoff_for(6), BACKOFF_CAP);
    assert_eq!(backoff_for(60), 60000);
}

#[test]
fn scheduled_notification_is_delivered_once_at_its_due_instant() {
    let (mut store, mut scheduler) = fresh();
    let now = 1_000_000;
    let id = scheduler
        .schedule(&mut store, b("title"), b("body"), 100, now, Outcome::Durable)
        .expect("durable");
    assert_eq!(scheduler.poll(now), None);
    assert_eq!(scheduler.poll(now + 99), None);
    assert_eq!(
        scheduler.poll(now + 100),
        Some(Delivery { id, title: b("title"), body: b("body") })
    );
    assert_eq!(scheduler.report(&mut store, id, Ok(()), Outcome::Durable), Ok(Status::Fired));
    assert_eq!(scheduler.poll(now + 100), None);
    assert_eq!(scheduler.poll(u64::MAX), None);
    assert_eq!(scheduler.len(), 0);
    assert_eq!(store.load(&id.key()), Ok(None));
}

#[test]
fn zero_delay_is_due_at_once() {
    let (mut store, mut scheduler) = fresh();
    let id = scheduler.schedule(&mut store, b("t"), b("b"), 0, 7, Outcome::Durable).unwrap();
    assert_eq!(scheduler.poll(7).map(|d| d.id), Some(id));
}

#[test]
fn schedule_stores_the_record_before_it_returns() {
    let (mut store, mut scheduler) = fresh();
    let id = scheduler.schedule(&mut store, b("t"), b("b"), 50, 10, Outcome::Durable).unwrap();
    let stored = store.load(&id.key()).unwrap().expect("the record");
    let read = ScheduledNotification::decode(id, &stored).expect("a waiting notification");
    assert_eq!(read.due_at, 60);
    assert_eq!(read.attempts, 0);
    assert_eq!(read.title, b("t"));
    assert_eq!(read.body, b("b"));
    assert_eq!(read.status, Status::Pending);
}

#[test]
fn ids_are_handed_out_in_order() {
    let (mut store, mut scheduler) = fresh();
    let a = scheduler.schedule(&mut store, b("a"), b(""), 1, 0, Outcome::Durable).unwrap();
    let c = scheduler.schedule(&mut store, b("c"), b(""), 1, 0, Outcome::Durable).unwrap();
    assert_eq!(a, NotificationId(0));
    assert_eq!(c, NotificationId(1));
    assert!(scheduler.is_pending(a));
    assert!(scheduler.is_pending(c));
    assert!(!scheduler.is_pending(NotificationId(2)));
}

#[test]
fn failed_write_schedules_nothing() {
    let (mut store, mut scheduler) = fresh();
    assert_eq!(
        scheduler.schedule(&mut store, b("t"), b("b"), 1, 0, Outcome::Failed),
        Err(SchedulerError::Store(StoreError::IoFailure))
    );
    assert_eq!(scheduler.len(), 0);
    assert_eq!(scheduler.poll(u64::MAX), None);
    assert_eq!(store.image(), Vec::<u8>::new());
    let id = scheduler.schedule(&mut store, b("t"), b("b"), 1, 0, Outcome::Durable).unwrap();
    assert_eq!(id, NotificationId(0));
}

#[test]
fn can_schedule_is_the_bound_on_the_due_instant() {
    let scheduler = Scheduler::new();
    assert!(scheduler.can_schedule(0, 0));
    assert!(scheduler.can_schedule(HORIZON, 0));
    assert!(scheduler.can_schedule(1, HORIZON - 1));
    assert!(!scheduler.can_schedule(1, HORIZON));
    assert!(!scheduler.can_schedule(u64::MAX, u64::MAX));
    assert!(!scheduler.can_schedule(0, HORIZON + 1));
}

#[test]
fn cancel_before_due_means_no_delivery() {
    let (mut store, mut scheduler) = fresh();
    let id = scheduler.schedule(&mut store, b("t"), b("b"), 100, 0, Outcome::Durable).unwrap();
    assert_eq!(scheduler.cancel(&mut store, id, Outcome::Durable), Ok(()));
    assert_eq!(scheduler.poll(100), None);
    assert_eq!(scheduler.poll(u64::MAX), None);
    assert_eq!(store.load(&id.key()), Ok(None));
    assert_eq!(scheduler.next_wakeup(), None);
}

#[test]
fn cancel_twice_or_of_an_unknown_id_succeeds() {
    let (mut store, mut scheduler) = fresh();
    let id = scheduler.schedule(&mut store, b("t"), b("b"), 100, 0, Outcome::Durable).unwrap();
    assert_eq!(scheduler.cancel(&mut store, id, Outcome::Durable), Ok(()));
    assert_eq!(scheduler.cancel(&mut store, id, Outcome::Durable), Ok(()));
    assert_eq!(scheduler.cancel(&mut store, NotificationId(12345), Outcome::Durable), Ok(()));
    assert_eq!(scheduler.cancel(&mut store, NotificationId(12345), Outcome::Failed), Ok(()));
}

#[test]
fn cancel_after_delivery_succeeds() {
    let (mut store, mut scheduler) = fresh();
    let id = scheduler.schedule(&mut store, b("t"), b("b"), 0, 0, Outcome::Durable).unwrap();
    scheduler.report(&mut store, id, Ok(()), Outcome::Durable).unwrap();
    assert_eq!(scheduler.cancel(&mut store, id, Outcome::Durable), Ok(()));
}

#[test]
fn cancel_leaves_the_others_waiting() {
    let (mut store, mut scheduler) = fresh();
    let a = scheduler.schedule(&mut store, b("a"), b(""), 10, 0, Outcome::Durable).unwrap();
    let c = scheduler.schedule(&mut store, b("c"), b(""), 20, 0, Outcome::Durable).unwrap();
    scheduler.cancel(&mut store, a, Outcome::Durable).unwrap();
    assert_eq!(scheduler.poll(10), None);
    assert_eq!(scheduler.poll(20).map(|d| d.id), Some(c));
    assert!(store.load(&c.key()).unwrap().is_some());
}

#[test]
fn failed_write_cancels_nothing() {
    let (mut store, mut scheduler) = fresh();
    let id = scheduler.schedule(&mut store, b("t"), b("b"), 5, 0, Outcome::Durable).unwrap();
    assert_eq!(
        scheduler.cancel(&mut store, id, Outcome::Failed),
        Err(SchedulerError::Store(StoreError::IoFailure))
    );
    assert_eq!(scheduler.poll(5).map(|d| d.id), Some(id));
}

#[test]
fn report_on_a_cancelled_notification_does_nothing() {
    let (mut store, mut scheduler) = fresh();
    let id = scheduler.schedule(&mut store, b("t"), b("b"), 0, 0, Outcome::Durable).unwrap();
    let handed = scheduler.poll(0).expect("due");
    scheduler.cancel(&mut store, id, Outcome::Durable).unwrap();
    assert_eq!(
        scheduler.report(&mut store, handed.id, Ok(()), Outcome::Durable),
        Ok(Status::Cancelled)
    );
    assert_eq!(
        scheduler.report(&mut store, handed.id, Err(DeliveryError::DeliveryFailure), Outcome::Failed),
        Ok(Status::Cancelled)
    );
    assert_eq!(scheduler.len(), 0);
}

#[test]
fn earliest_due_is_handed_first() {
    let (mut store, mut scheduler) = fresh();
    let late = scheduler.schedule(&mut store, b("late"), b(""), 300, 0, Outcome::Durable).unwrap();
    let early =
        scheduler.schedule(&mut store, b("early"), b(""), 100, 0, Outcome::Durable).unwrap();
    let tie = scheduler.schedule(&mut store, b("tie"), b(""), 100, 0, Outcome::Durable).unwrap();
    assert_eq!(scheduler.next_wakeup(), Some(100));
    assert_eq!(scheduler.poll(1000).map(|d| d.id), Some(early));
    scheduler.report(&mut store, early, Ok(()), Outcome::Durable).unwrap();
    assert_eq!(scheduler.poll(1000).map(|d| d.id), Some(tie));
    scheduler.report(&mut store, tie, Ok(()), Outcome::Durable).unwrap();
    assert_eq!(scheduler.next_wakeup(), Some(300));
    assert_eq!(scheduler.poll(299), None);
    assert_eq!(scheduler.poll(300).map(|d| d.id), Some(late));
}

#[test]
fn failed_delivery_waits_for_its_backoff() {
    let (mut store, mut scheduler) = fresh();
    let id = scheduler.schedule(&mut store, b("t"), b("b"), 100, 0, Outcome::Durable).unwrap();
    assert_eq!(
        scheduler.report(&mut store, id, Err(DeliveryError::DeliveryFailure), Outcome::Durable),
        Ok(Status::Pending)
    );
    assert_eq!(scheduler.next_wakeup(), Some(1100));
    assert_eq!(scheduler.poll(1099), None);
    assert_eq!(scheduler.poll(1100).map(|d| d.id), Some(id));
    let stored = store.load(&id.key()).unwrap().expect("the record");
    let read = ScheduledNotification::decode(id, &stored).expect("a waiting notification");
    assert_eq!(read.attempts, 1);
    assert_eq!(read.due_at, 1100);
    assert_eq!(
        scheduler.report(&mut store, id, Err(DeliveryError::DeliveryFailure), Outcome::Durable),
        Ok(Status::Pending)
    );
    assert_eq!(scheduler.next_wakeup(), Some(3100));
    assert_eq!(scheduler.report(&mut store, id, Ok(()), Outcome::Durable), Ok(Status::Fired));
    assert_eq!(scheduler.next_wakeup(), None);
}

#[test]
fn delivery_is_given_up_at_the_retry_ceiling() {
    let (mut store, mut scheduler) = fresh();
    let id = scheduler.schedule(&mut store, b("t"), b("b"), 0, 0, Outcome::Durable).unwrap();
    for _ in 0..RETRY_CEILING - 1 {
        assert_eq!(
            scheduler.report(&mut store, id, Err(DeliveryError::DeliveryFailure), Outcome::Durable),
            Ok(Status::Pending)
        );
    }
    assert_eq!(scheduler.next_wakeup(), Some(1000 + 2000 + 4000 + 8000));
    assert_eq!(
        scheduler.report(&mut store, id, Err(DeliveryError::DeliveryFailure), Outcome::Durable),
        Ok(Status::Failed)
    );
    assert_eq!(scheduler.len(), 0);
    assert_eq!(scheduler.poll(u64::MAX), None);
    assert_eq!(store.load(&id.key()), Ok(None));
}

#[test]
fn failed_write_leaves_a_report_undone() {
    let (mut store, mut scheduler) = fresh();
    let id = scheduler.schedule(&mut store, b("t"), b("b"), 0, 0, Outcome::Durable).unwrap();
    assert_eq!(
        scheduler.report(&mut store, id, Ok(()), Outcome::Failed),
        Err(SchedulerError::Store(StoreError::IoFailure))
    );
    assert!(scheduler.is_pending(id));
    assert_eq!(
        scheduler.report(&mut store, id, Err(DeliveryError::DeliveryFailure), Outcome::Failed),
        Err(SchedulerError::Store(StoreError::IoFailure))
    );
    assert_eq!(scheduler.next_wakeup(), Some(0));
}

#[test]
fn images_planned_by_the_scheduler_are_the_images_once_done() {
    let (mut store, mut scheduler) = fresh();
    let planned = scheduler.image_after_schedule(&store, &b("t"), &b("b"), 10, 5);
    let id = scheduler.schedule(&mut store, b("t"), b("b"), 10, 5, Outcome::Durable).unwrap();
    assert_eq!(store.image(), planned);
    let planned = scheduler.image_after_report(&store, id, Err(DeliveryError::DeliveryFailure));
    scheduler.report(&mut store, id, Err(DeliveryError::DeliveryFailure), Outcome::Durable).unwrap();
    assert_eq!(store.image(), planned);
    let planned = scheduler.image_after_cancel(&store, id);
    scheduler.cancel(&mut store, id, Outcome::Durable).unwrap();
    assert_eq!(store.image(), planned);
    assert_eq!(scheduler.image_after_cancel(&store, id), store.image());
    assert_eq!(scheduler.image_after_report(&store, id, Ok(())), store.image());
}

#[test]
fn restart_keeps_the_due_instant() {
    let (mut store, mut scheduler) = fresh();
    let id = scheduler.schedule(&mut store, b("t"), b("b"), 5000, 0, Outcome::Durable).unwrap();
    let image = store.image();
    drop(scheduler);
    drop(store);
    let mut store = Store::open(&image).expect("a sound image");
    let mut scheduler = Scheduler::recover(&store);
    assert_eq!(scheduler.next_wakeup(), Some(5000));
    assert_eq!(scheduler.poll(2000), None);
    assert_eq!(scheduler.poll(4999), None);
    assert_eq!(scheduler.poll(5000), Some(Delivery { id, title: b("t"), body: b("b") }));
    assert_eq!(scheduler.report(&mut store, id, Ok(()), Outcome::Durable), Ok(Status::Fired));
    assert_eq!(scheduler.poll(u64::MAX), None);
}

#[test]
fn restart_hands_out_what_is_past_due() {
    let (mut store, mut scheduler) = fresh();
    let id = scheduler.schedule(&mut store, b("t"), b("b"), 10, 0, Outcome::Durable).unwrap();
    let store = Store::open(&store.image()).unwrap();
    let scheduler = Scheduler::recover(&store);
    assert_eq!(scheduler.poll(1_000_000).map(|d| d.id), Some(id));
}

#[test]
fn restart_does_not_reuse_a_waiting_id() {
    let (mut store, mut scheduler) = fresh();
    let a = scheduler.schedule(&mut store, b("a"), b(""), 10, 0, Outcome::Durable).unwrap();
    let c = scheduler.schedule(&mut store, b("c"), b(""), 10, 0, Outcome::Durable).unwrap();
    scheduler.cancel(&mut store, a, Outcome::Durable).unwrap();
    let mut store = Store::open(&store.image()).unwrap();
    let mut scheduler = Scheduler::recover(&store);
    assert_eq!(scheduler.len(), 1);
    let next = scheduler.schedule(&mut store, b("n"), b(""), 10, 0, Outcome::Durable).unwrap();
    assert_eq!(next, NotificationId(c.0 + 1));
}

#[test]
fn recover_passes_over_what_is_no_notification() {
    let mut store = Store::new();
    store.save(b("data/k"), b("v"), Outcome::Durable).unwrap();
    store.save(b("__sched__/short"), b("v"), Outcome::Durable).unwrap();
    store.save(NotificationId(4).key(), b("not a record"), Outcome::Durable).unwrap();
    let scheduler = Scheduler::recover(&store);
    assert_eq!(scheduler.len(), 0);
    assert_eq!(scheduler.next_wakeup(), None);
}

#[test]
fn recover_passes_over_a_damaged_record() {
    let (mut store, mut scheduler) = fresh();
    scheduler.schedule(&mut store, b("t"), b("body"), 10, 0, Outcome::Durable).unwrap();
    let mut image = store.image();
    let last = image.len() - 1;
    image[last] ^= 0x40;
    let store = Store::open(&image).expect("frames are whole");
    let scheduler = Scheduler::recover(&store);
    assert_eq!(scheduler.len(), 0);
}

#[test]
fn restart_does_not_reuse_the_id_of_a_delivered_notification() {
    let (mut store, mut scheduler) = fresh();
    let first = scheduler.schedule(&mut store, b("a"), b(""), 0, 0, Outcome::Durable).unwrap();
    scheduler.report(&mut store, first, Ok(()), Outcome::Durable).unwrap();
    let mut store = Store::open(&store.image()).unwrap();
    let mut scheduler = Scheduler::recover(&store);
    assert_eq!(scheduler.len(), 0);
    let second = scheduler.schedule(&mut store, b("b"), b(""), 0, 0, Outcome::Durable).unwrap();
    assert_eq!(first, NotificationId(0));
    assert_eq!(second, NotificationId(1));
    assert_eq!(scheduler.cancel(&mut store, first, Outcome::Durable), Ok(()));
    assert_eq!(scheduler.poll(0).map(|d| d.id), Some(second));
}

#[test]
fn schedule_stores_the_counter_beside_the_record() {
    let (mut store, mut scheduler) = fresh();
    scheduler.schedule(&mut store, b("a"), b(""), 0, 0, Outcome::Durable).unwrap();
    scheduler.schedule(&mut store, b("b"), b(""), 0, 0, Outcome::Durable).unwrap();
    let counter = store.load(&NotificationId(u64::MAX).key()).unwrap().expect("the counter");
    assert_eq!(counter, vec![2, 0, 0, 0, 0, 0, 0, 0]);
}

#[test]
fn errors_have_their_messages() {
    assert_eq!(StoreError::IoFailure.message(), "storage medium unavailable");
    assert_eq!(StoreError::Corrupt.message(), "stored record is corrupt");
    assert_eq!(
        SchedulerError::Store(StoreError::IoFailure).message(),
        "storage medium unavailable"
    );
}

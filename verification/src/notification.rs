use crate::bytes::{append_bytes, starts_with};
use vstd::bytes::{
    lemma_auto_spec_u64_to_from_le_bytes, spec_u64_from_le_bytes, spec_u64_to_le_bytes,
    u64_from_le_bytes, u64_to_le_bytes,
};
use vstd::prelude::*;
use vstd::slice::{slice_subrange, slice_to_vec};

verus! {

/// Deliveries that may fail before a notification is given up.
pub const RETRY_CEILING: u64 = 5;

/// Milliseconds to wait after the first failed delivery; each further failure doubles it.
pub const BACKOFF_BASE: u64 = 1000;

/// The longest wait between two deliveries, in milliseconds.
pub const BACKOFF_CAP: u64 = 60000;

/// The latest instant at which a notification may first fall due: retries can then move it
/// on by `RETRY_CEILING` times `BACKOFF_CAP` and still stay within `u64`.
pub const HORIZON: u64 = 18446744073709251615;

/// Bytes in front of the title in a stored notification: due instant, failed deliveries
/// and title length, eight bytes each.
pub const PREAMBLE: usize = 24;

/// Length of a key in the scheduler's namespace: the namespace, then eight bytes of id.
pub const KEY_LENGTH: usize = 18;

/// Names one scheduled notification.
#[derive(Debug, Clone, Copy, PartialEq, Eq, Structural)]
pub struct NotificationId(pub u64);

/// Where a notification stands in its life.
#[derive(Debug, Clone, Copy, PartialEq, Eq, Structural)]
pub enum Status {
    /// Waiting for its due instant, or for another try after a failed delivery.
    Pending,
    /// Delivered.
    Fired,
    /// Withdrawn before it was delivered.
    Cancelled,
    /// Given up after `RETRY_CEILING` failed deliveries.
    Failed,
}

/// A notification that waits to be delivered. Title and body are carried as bytes.
#[derive(Debug, PartialEq, Eq)]
pub struct ScheduledNotification {
    pub id: NotificationId,
    pub title: Vec<u8>,
    pub body: Vec<u8>,
    /// Milliseconds on the wall clock at or after which it is to be delivered.
    pub due_at: u64,
    /// Deliveries that have failed so far.
    pub attempts: u64,
    pub status: Status,
}

/// The mathematical content of a [`ScheduledNotification`].
pub ghost struct Note {
    pub id: u64,
    pub title: Seq<u8>,
    pub body: Seq<u8>,
    pub due_at: u64,
    pub attempts: u64,
    pub status: Status,
}

impl View for ScheduledNotification {
    type V = Note;

    open spec fn view(&self) -> Note {
        Note {
            id: self.id.0,
            title: self.title@,
            body: self.body@,
            due_at: self.due_at,
            attempts: self.attempts,
            status: self.status,
        }
    }
}

impl Note {
    /// What holds of every notification that waits: it is pending, has tries left, and its
    /// due instant leaves room for the waits that may still be added.
    pub open spec fn waiting(self) -> bool {
        &&& self.status == Status::Pending
        &&& self.id < u64::MAX
        &&& self.attempts < RETRY_CEILING
        &&& self.due_at <= HORIZON + self.attempts * BACKOFF_CAP
        &&& self.title.len() <= u64::MAX
    }
}

/// The wait after the delivery that failed as number `failures` (counted from zero):
/// `BACKOFF_BASE`, doubled for each earlier failure, never more than `BACKOFF_CAP`.
pub open spec fn backoff(failures: nat) -> nat
    decreases failures,
{
    if failures == 0 {
        BACKOFF_BASE as nat
    } else if 2 * backoff((failures - 1) as nat) > BACKOFF_CAP {
        BACKOFF_CAP as nat
    } else {
        2 * backoff((failures - 1) as nat)
    }
}

/// Every wait lies between the base and the cap.
pub proof fn lemma_backoff_bounded(failures: nat)
    ensures
        BACKOFF_BASE <= backoff(failures) <= BACKOFF_CAP,
    decreases failures,
{
    if failures > 0 {
        lemma_backoff_bounded((failures - 1) as nat);
    }
}

/// Computes the wait after the delivery that failed as number `failures`.
pub fn backoff_for(failures: u64) -> (wait: u64)
    ensures
        wait == backoff(failures as nat),
        BACKOFF_BASE <= wait <= BACKOFF_CAP,
{
    let mut wait: u64 = BACKOFF_BASE;
    let mut i: u64 = 0;
    while i < failures
        invariant
            i <= failures,
            wait == backoff(i as nat),
            BACKOFF_BASE <= wait <= BACKOFF_CAP,
        decreases failures - i,
    {
        if 2 * wait > BACKOFF_CAP {
            wait = BACKOFF_CAP;
        } else {
            wait = 2 * wait;
        }
        i = i + 1;
    }
    wait
}

/// The bytes in front of every key of the scheduler: `__sched__/`.
pub open spec fn namespace() -> Seq<u8> {
    seq![95u8, 95u8, 115u8, 99u8, 104u8, 101u8, 100u8, 95u8, 95u8, 47u8]
}

/// The key under which the notification with this id is stored.
pub open spec fn key_of(id: u64) -> Seq<u8> {
    namespace() + spec_u64_to_le_bytes(id)
}

/// The id that a key of the scheduler's namespace names, if it is such a key.
pub open spec fn id_of(key: Seq<u8>) -> Option<u64> {
    if key.len() == KEY_LENGTH && namespace().is_prefix_of(key) && spec_u64_from_le_bytes(
        key.subrange(10, 18),
    ) < u64::MAX {
        Some(spec_u64_from_le_bytes(key.subrange(10, 18)))
    } else {
        None
    }
}

/// The key under which the scheduler keeps the id that the next notification gets. It is
/// the key of the one id that no notification ever has.
pub open spec fn counter_key() -> Seq<u8> {
    key_of(u64::MAX)
}

/// The stored bytes of the id that the next notification gets.
pub open spec fn encode_counter(next_id: u64) -> Seq<u8> {
    spec_u64_to_le_bytes(next_id)
}

/// The id that stored bytes of the counter name, zero where they name none.
pub open spec fn decode_counter(bytes: Seq<u8>) -> u64 {
    if bytes.len() == 8 {
        spec_u64_from_le_bytes(bytes)
    } else {
        0
    }
}

/// The stored bytes of a counter name that counter.
pub proof fn lemma_counter(next_id: u64)
    ensures
        decode_counter(encode_counter(next_id)) == next_id,
        counter_key().len() == KEY_LENGTH,
        id_of(counter_key()) is None,
{
    lemma_auto_spec_u64_to_from_le_bytes();
    assert(counter_key().subrange(10, 18) =~= spec_u64_to_le_bytes(u64::MAX));
}

/// A key names the id it was made from, and only keys made from an id name one.
pub proof fn lemma_key_id(id: u64)
    ensures
        key_of(id).len() == KEY_LENGTH,
        namespace().is_prefix_of(key_of(id)),
        id < u64::MAX ==> id_of(key_of(id)) == Some(id),
{
    lemma_auto_spec_u64_to_from_le_bytes();
    assert(key_of(id).subrange(10, 18) =~= spec_u64_to_le_bytes(id));
    assert(key_of(id).subrange(0, 10) =~= namespace());
}

/// A key that names an id is the key made from that id.
pub proof fn lemma_id_key(key: Seq<u8>)
    requires
        id_of(key) is Some,
    ensures
        key_of(id_of(key)->0) == key,
{
    lemma_auto_spec_u64_to_from_le_bytes();
    let tail = key.subrange(10, 18);
    assert(spec_u64_to_le_bytes(spec_u64_from_le_bytes(tail)) == tail);
    assert(key_of(id_of(key)->0) =~= key);
}

/// Different ids have different keys.
pub proof fn lemma_keys_differ(a: u64, b: u64)
    requires
        a != b,
    ensures
        key_of(a) != key_of(b),
{
    lemma_auto_spec_u64_to_from_le_bytes();
    if key_of(a) == key_of(b) {
        assert(key_of(a).subrange(10, 18) =~= spec_u64_to_le_bytes(a));
        assert(key_of(b).subrange(10, 18) =~= spec_u64_to_le_bytes(b));
        assert(spec_u64_from_le_bytes(spec_u64_to_le_bytes(a)) == a);
        assert(spec_u64_from_le_bytes(spec_u64_to_le_bytes(b)) == b);
    }
}

/// The stored bytes of a notification: due instant, failed deliveries, title length, title,
/// body.
pub open spec fn encode_note(n: Note) -> Seq<u8> {
    spec_u64_to_le_bytes(n.due_at) + spec_u64_to_le_bytes(n.attempts) + spec_u64_to_le_bytes(
        n.title.len() as u64,
    ) + n.title + n.body
}

/// The waiting notification that stored bytes describe, if they describe one.
pub open spec fn decode_note(id: u64, bytes: Seq<u8>) -> Option<Note> {
    if bytes.len() < PREAMBLE {
        None
    } else {
        let title_len = spec_u64_from_le_bytes(bytes.subrange(16, 24)) as int;
        let n = Note {
            id,
            title: bytes.subrange(PREAMBLE as int, PREAMBLE + title_len),
            body: bytes.skip(PREAMBLE + title_len),
            due_at: spec_u64_from_le_bytes(bytes.subrange(0, 8)),
            attempts: spec_u64_from_le_bytes(bytes.subrange(8, 16)),
            status: Status::Pending,
        };
        if title_len <= bytes.len() - PREAMBLE && n.waiting() {
            Some(n)
        } else {
            None
        }
    }
}

/// The stored bytes of a waiting notification describe that notification.
pub proof fn lemma_decode_encode(n: Note)
    requires
        n.waiting(),
    ensures
        decode_note(n.id, encode_note(n)) == Some(n),
{
    lemma_auto_spec_u64_to_from_le_bytes();
    let bytes = encode_note(n);
    assert(bytes.subrange(0, 8) =~= spec_u64_to_le_bytes(n.due_at));
    assert(bytes.subrange(8, 16) =~= spec_u64_to_le_bytes(n.attempts));
    assert(bytes.subrange(16, 24) =~= spec_u64_to_le_bytes(n.title.len() as u64));
    let title_len = n.title.len() as int;
    assert(bytes.subrange(PREAMBLE as int, PREAMBLE + title_len) =~= n.title);
    assert(bytes.skip(PREAMBLE + title_len) =~= n.body);
}

/// The bytes in front of every key of the scheduler.
pub fn namespace_bytes() -> (prefix: Vec<u8>)
    ensures
        prefix@ == namespace(),
{
    let prefix: Vec<u8> = vec![95u8, 95u8, 115u8, 99u8, 104u8, 101u8, 100u8, 95u8, 95u8, 47u8];
    proof {
        assert(prefix@ =~= namespace());
    }
    prefix
}

/// The key under which the scheduler keeps the id that the next notification gets.
pub fn counter_key_bytes() -> (key: Vec<u8>)
    ensures
        key@ == counter_key(),
{
    NotificationId(u64::MAX).key()
}

/// The bytes to store for the counter.
pub fn counter_bytes(next_id: u64) -> (bytes: Vec<u8>)
    ensures
        bytes@ == encode_counter(next_id),
{
    u64_to_le_bytes(next_id)
}

/// Reads the counter from stored bytes.
pub fn read_counter(bytes: &Vec<u8>) -> (next_id: u64)
    ensures
        next_id == decode_counter(bytes@),
{
    if bytes.len() == 8 {
        u64_from_le_bytes(bytes.as_slice())
    } else {
        0
    }
}

impl NotificationId {
    /// The key under which the notification with this id is stored.
    pub fn key(&self) -> (key: Vec<u8>)
        ensures
            key@ == key_of(self.0),
    {
        let mut key = namespace_bytes();
        let tail = u64_to_le_bytes(self.0);
        append_bytes(&mut key, &tail);
        key
    }

    /// The id that a stored key names, if it is a key of the scheduler's namespace.
    pub fn from_key(key: &Vec<u8>) -> (id: Option<NotificationId>)
        ensures
            match id {
                Some(found) => id_of(key@) == Some(found.0),
                None => id_of(key@) is None,
            },
    {
        if key.len() != KEY_LENGTH {
            return None;
        }
        let prefix = namespace_bytes();
        if !starts_with(key, &prefix) {
            return None;
        }
        let raw = u64_from_le_bytes(slice_subrange(key.as_slice(), 10, 18));
        if raw == u64::MAX {
            return None;
        }
        Some(NotificationId(raw))
    }
}

impl ScheduledNotification {
    /// The bytes to store for this notification.
    pub fn encode(&self) -> (bytes: Vec<u8>)
        ensures
            bytes@ == encode_note(self@),
    {
        let mut bytes = u64_to_le_bytes(self.due_at);
        let attempts = u64_to_le_bytes(self.attempts);
        let title_len = u64_to_le_bytes(self.title.len() as u64);
        append_bytes(&mut bytes, &attempts);
        append_bytes(&mut bytes, &title_len);
        append_bytes(&mut bytes, &self.title);
        append_bytes(&mut bytes, &self.body);
        bytes
    }

    /// Reads the waiting notification that stored bytes describe, if they describe one.
    pub fn decode(id: NotificationId, bytes: &Vec<u8>) -> (read: Option<ScheduledNotification>)
        ensures
            match read {
                Some(n) => decode_note(id.0, bytes@) == Some(n@),
                None => decode_note(id.0, bytes@) is None,
            },
    {
        let all = bytes.as_slice();
        let total: usize = all.len();
        if total < PREAMBLE {
            return None;
        }
        let due_at = u64_from_le_bytes(slice_subrange(all, 0, 8));
        let attempts = u64_from_le_bytes(slice_subrange(all, 8, 16));
        let title_len = u64_from_le_bytes(slice_subrange(all, 16, 24));
        if title_len > (total - PREAMBLE) as u64 {
            return None;
        }
        if id.0 == u64::MAX || attempts >= RETRY_CEILING {
            return None;
        }
        if due_at > HORIZON + attempts * BACKOFF_CAP {
            return None;
        }
        let split: usize = PREAMBLE + title_len as usize;
        let title = slice_to_vec(slice_subrange(all, PREAMBLE, split));
        let body = slice_to_vec(slice_subrange(all, split, total));
        proof {
            assert(bytes@.skip(split as int) =~= bytes@.subrange(split as int, total as int));
        }
        Some(
            ScheduledNotification {
                id,
                title,
                body,
                due_at,
                attempts,
                status: Status::Pending,
            },
        )
    }
}

} // verus!

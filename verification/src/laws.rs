use crate::notification::{
    decode_note, encode_note, id_of, key_of, lemma_decode_encode, lemma_id_key, lemma_key_id,
    namespace, Note,
};
use crate::pending::{
    after_report, committed, due_now, earliest, is_pending, lemma_earliest, lemma_withdraw,
    listed_at, mirrored, orderly, slot_of, without,
};
use crate::records::{
    at, content, damaged, discard, holds, index_of, lemma_discard, lemma_index_unique, lemma_put,
    put, well_formed,
};
use crate::notification::{counter_key, lemma_counter};
use crate::scheduler::{counter_of, enroll, records_after_schedule, restored, resume_at};
use crate::store::{listable, listed};
use crate::wire::{image_of, lemma_parse_image, parse, SlotView};
use vstd::prelude::*;

verus! {

/// A value that was saved under a key is the value that a load of that key returns.
pub proof fn law_load_after_save(slots: Seq<SlotView>, key: Seq<u8>, value: Seq<u8>)
    requires
        well_formed(slots),
        key.len() > 0,
    ensures
        content(put(slots, key, value)).dom().contains(key),
        content(put(slots, key, value))[key] == value,
        !damaged(put(slots, key, value)).contains(key),
{
    lemma_put(slots, key, value);
}

/// Text that was saved is the text that a load returns: two texts with the same UTF-8
/// encoding are the same text.
pub proof fn law_text_round_trip(saved: Seq<char>, loaded: Seq<char>)
    requires
        vstd::utf8::encode_utf8(loaded) == vstd::utf8::encode_utf8(saved),
    ensures
        loaded == saved,
{
    vstd::utf8::encode_utf8_decode_utf8(saved);
    vstd::utf8::encode_utf8_decode_utf8(loaded);
}

/// A key that was never written is absent: the empty store holds no key, and a write or a
/// deletion under another key leaves an absent key absent.
pub proof fn law_absent_until_written(
    slots: Seq<SlotView>,
    key: Seq<u8>,
    other: Seq<u8>,
    value: Seq<u8>,
)
    requires
        well_formed(slots),
        other.len() > 0,
        other != key,
        !content(slots).dom().contains(key),
    ensures
        !content(Seq::<SlotView>::empty()).dom().contains(key),
        !damaged(Seq::<SlotView>::empty()).contains(key),
        !content(put(slots, other, value)).dom().contains(key),
        !damaged(put(slots, other, value)).contains(key),
        !content(discard(slots, other)).dom().contains(key),
        !damaged(discard(slots, other)).contains(key),
{
    lemma_put(slots, other, value);
    lemma_discard(slots, other);
    let none = Seq::<SlotView>::empty();
    assert(!holds(none, key)) by {
        if holds(none, key) {
            assert(at(none, key, index_of(none, key)));
        }
    }
    assert(!damaged(slots).contains(key));
}

/// Once a save has succeeded its image is on the medium, and the store that a restart opens
/// on that image holds the saved value under its key.
pub proof fn law_saved_value_survives_restart(slots: Seq<SlotView>, key: Seq<u8>, value: Seq<u8>)
    requires
        well_formed(slots),
        forall|i: int| 0 <= i < slots.len() ==> (#[trigger] slots[i]).fits(),
        0 < key.len() <= u64::MAX,
        value.len() <= u64::MAX,
    ensures
        parse(image_of(put(slots, key, value))) == Some(put(slots, key, value)),
        well_formed(put(slots, key, value)),
        content(put(slots, key, value)).dom().contains(key),
        content(put(slots, key, value))[key] == value,
        !damaged(put(slots, key, value)).contains(key),
{
    lemma_put(slots, key, value);
    let after = put(slots, key, value);
    assert forall|i: int| 0 <= i < after.len() implies (#[trigger] after[i]).fits() by {
        if holds(slots, key) {
            if i != index_of(slots, key) {
                assert(after[i] == slots[i]);
            }
        } else {
            if i < slots.len() {
                assert(after[i] == slots[i]);
            }
        }
    }
    lemma_parse_image(after);
}

/// The records after a run of writes, one after another.
pub open spec fn write_all(slots: Seq<SlotView>, writes: Seq<(Seq<u8>, Seq<u8>)>) -> Seq<
    SlotView,
>
    decreases writes.len(),
{
    if writes.len() == 0 {
        slots
    } else {
        put(write_all(slots, writes.drop_last()), writes.last().0, writes.last().1)
    }
}

/// Writes that are taken one after another, in whatever order they arrived, leave under
/// each key the value of the last write to it: writes to different keys do not disturb
/// each other, and of several writes to one key the last is the one that is read.
pub proof fn law_serialized_writes(
    slots: Seq<SlotView>,
    writes: Seq<(Seq<u8>, Seq<u8>)>,
    i: int,
)
    requires
        well_formed(slots),
        forall|j: int| 0 <= j < writes.len() ==> (#[trigger] writes[j]).0.len() > 0,
        0 <= i < writes.len(),
        forall|j: int| i < j < writes.len() ==> (#[trigger] writes[j]).0 != writes[i].0,
    ensures
        well_formed(write_all(slots, writes)),
        content(write_all(slots, writes)).dom().contains(writes[i].0),
        content(write_all(slots, writes))[writes[i].0] == writes[i].1,
        !damaged(write_all(slots, writes)).contains(writes[i].0),
    decreases writes.len(),
{
    let earlier = writes.drop_last();
    lemma_write_all_well_formed(slots, earlier);
    lemma_put(write_all(slots, earlier), writes.last().0, writes.last().1);
    if i < writes.len() - 1 {
        assert forall|j: int| 0 <= j < earlier.len() implies (#[trigger] earlier[j]).0.len()
            > 0 by {
            assert(earlier[j] == writes[j]);
        }
        assert forall|j: int| i < j < earlier.len() implies (#[trigger] earlier[j]).0
            != earlier[i].0 by {
            assert(earlier[j] == writes[j]);
        }
        law_serialized_writes(slots, earlier, i);
        assert(writes.last() == writes[writes.len() - 1]);
    }
}

/// A run of writes with keys that are not empty keeps the records well formed.
pub proof fn lemma_write_all_well_formed(slots: Seq<SlotView>, writes: Seq<(Seq<u8>, Seq<u8>)>)
    requires
        well_formed(slots),
        forall|j: int| 0 <= j < writes.len() ==> (#[trigger] writes[j]).0.len() > 0,
    ensures
        well_formed(write_all(slots, writes)),
    decreases writes.len(),
{
    if writes.len() > 0 {
        let earlier = writes.drop_last();
        assert forall|j: int| 0 <= j < earlier.len() implies (#[trigger] earlier[j]).0.len()
            > 0 by {
            assert(earlier[j] == writes[j]);
        }
        lemma_write_all_well_formed(slots, earlier);
        assert(writes.last() == writes[writes.len() - 1]);
        lemma_put(write_all(slots, earlier), writes.last().0, writes.last().1);
    }
}

/// Nothing is handed to the collaborator before its due instant: what `poll` hands out at
/// `now` was due at or before `now`, so a notification whose due instant lies after `now`
/// is not the one.
pub proof fn law_nothing_delivered_early(p: Seq<Note>, next_id: u64, i: int, now: u64)
    requires
        orderly(p, next_id),
        0 <= i < p.len(),
        now < p[i].due_at,
    ensures
        due_now(p, now) matches Some(d) ==> d.due_at <= now && d.id != p[i].id,
{
    lemma_earliest(p);
    if due_now(p, now) is Some {
        let e = earliest(p);
        if e != i {
            assert(p[e].id != p[i].id);
        }
    }
}

/// Once the due instant of a waiting notification has come, `poll` hands something out, and
/// what it hands out waits and was due no later than that notification.
pub proof fn law_due_is_handed(p: Seq<Note>, i: int, now: u64)
    requires
        0 <= i < p.len(),
        p[i].due_at <= now,
    ensures
        due_now(p, now) is Some,
        is_pending(p, due_now(p, now)->0.id),
        due_now(p, now)->0.due_at <= p[i].due_at,
{
    lemma_earliest(p);
    assert(listed_at(p, p[earliest(p)].id, earliest(p)));
}

/// A notification is delivered once: after its delivery was reported it waits no more, so
/// `poll` never hands it out again.
pub proof fn law_delivered_once(
    p: Seq<Note>,
    next_id: u64,
    slots: Seq<SlotView>,
    id: u64,
    now: u64,
)
    requires
        orderly(p, next_id),
        well_formed(slots),
        mirrored(p, slots),
    ensures
        !is_pending(after_report(p, id, true), id),
        due_now(after_report(p, id, true), now) matches Some(d) ==> d.id != id,
{
    lemma_withdraw(p, next_id, slots, id);
    let q = after_report(p, id, true);
    if due_now(q, now) is Some {
        lemma_earliest(q);
        assert(listed_at(q, q[earliest(q)].id, earliest(q)));
    }
}

/// A cancelled notification is never delivered: after `cancel` it waits no more, so `poll`
/// does not hand it out at any instant.
pub proof fn law_cancelled_is_never_delivered(
    p: Seq<Note>,
    next_id: u64,
    slots: Seq<SlotView>,
    id: u64,
    now: u64,
)
    requires
        orderly(p, next_id),
        well_formed(slots),
        mirrored(p, slots),
    ensures
        !is_pending(without(p, id), id),
        due_now(without(p, id), now) matches Some(d) ==> d.id != id,
{
    lemma_withdraw(p, next_id, slots, id);
    let q = without(p, id);
    if due_now(q, now) is Some {
        lemma_earliest(q);
        assert(listed_at(q, q[earliest(q)].id, earliest(q)));
    }
}

/// An id that was handed out and waits no more never waits again: neither scheduling, nor
/// cancelling, nor a report on any notification brings it back.
pub proof fn law_gone_stays_gone(
    p: Seq<Note>,
    next_id: u64,
    slots: Seq<SlotView>,
    id: u64,
    fresh: Note,
    other: u64,
    delivered: bool,
)
    requires
        orderly(p, next_id),
        well_formed(slots),
        mirrored(p, slots),
        id < next_id,
        !is_pending(p, id),
        fresh.id == next_id,
    ensures
        !is_pending(p.push(fresh), id),
        !is_pending(without(p, other), id),
        !is_pending(after_report(p, other, delivered), id),
{
    lemma_withdraw(p, next_id, slots, other);
    assert(!is_pending(p.push(fresh), id)) by {
        let q = p.push(fresh);
        if is_pending(q, id) {
            let i = slot_of(q, id);
            assert(listed_at(q, id, i));
            if i < p.len() {
                assert(listed_at(p, id, i));
            }
        }
    }
    if other == id {
    } else {
        let r = after_report(p, other, delivered);
        if r != without(p, other) {
            let s = slot_of(p, other);
            if is_pending(r, id) {
                let i = slot_of(r, id);
                assert(listed_at(r, id, i));
                assert(listed_at(p, other, s));
                if i != s {
                    assert(listed_at(p, id, i));
                }
            }
        }
    }
}

/// An id is handed out once, across restarts too: scheduling leaves the stored counter
/// past the id it handed out, a write or a deletion under any other key leaves the counter
/// as it is, and a scheduler that is rebuilt goes on at or after the counter.
pub proof fn law_ids_outlive_restart(
    slots: Seq<SlotView>,
    n: Note,
    later: Seq<SlotView>,
    key: Seq<u8>,
    value: Seq<u8>,
    p: Seq<Note>,
)
    requires
        well_formed(slots),
        well_formed(later),
        n.id < u64::MAX,
        key != counter_key(),
    ensures
        counter_of(records_after_schedule(slots, n)) == n.id + 1,
        key.len() > 0 ==> counter_of(put(later, key, value)) == counter_of(later),
        counter_of(discard(later, key)) == counter_of(later),
        resume_at(p, later) >= counter_of(later),
{
    let counter = crate::notification::encode_counter((n.id + 1) as u64);
    lemma_counter((n.id + 1) as u64);
    lemma_key_id(n.id);
    crate::notification::lemma_keys_differ(n.id, u64::MAX);
    lemma_put(slots, counter_key(), counter);
    lemma_put(put(slots, counter_key(), counter), key_of(n.id), encode_note(n));
    if key.len() > 0 {
        lemma_put(later, key, value);
    }
    lemma_discard(later, key);
}

/// Cancelling twice is cancelling once, and cancelling an id that does not wait changes
/// nothing.
pub proof fn law_cancel_idempotent(p: Seq<Note>, next_id: u64, slots: Seq<SlotView>, id: u64)
    requires
        orderly(p, next_id),
        well_formed(slots),
        mirrored(p, slots),
    ensures
        without(without(p, id), id) == without(p, id),
        !is_pending(p, id) ==> without(p, id) == p,
{
    lemma_withdraw(p, next_id, slots, id);
}

/// Every notification that a listing restores was described by an entry of that listing.
pub proof fn lemma_restored_sound(entries: Seq<(Seq<u8>, Seq<u8>)>, a: int) -> (k: int)
    requires
        0 <= a < restored(entries).len(),
    ensures
        0 <= k < entries.len(),
        id_of(entries[k].0) == Some(restored(entries)[a].id),
        decode_note(restored(entries)[a].id, entries[k].1) == Some(restored(entries)[a]),
    decreases entries.len(),
{
    let acc = restored(entries.drop_last());
    if a < acc.len() {
        assert(restored(entries)[a] == acc[a]);
        lemma_restored_sound(entries.drop_last(), a)
    } else {
        assert(restored(entries) == enroll(acc, entries.last()));
        entries.len() - 1
    }
}

/// A listing restores the notification that one of its entries holds, where every entry
/// under that id holds the same bytes.
pub proof fn lemma_restored_holds(entries: Seq<(Seq<u8>, Seq<u8>)>, j: int, n: Note)
    requires
        n.waiting(),
        0 <= j < entries.len(),
        entries[j] == (key_of(n.id), encode_note(n)),
        forall|k: int|
            0 <= k < entries.len() && id_of((#[trigger] entries[k]).0) == Some(n.id)
                ==> entries[k].1 == encode_note(n),
    ensures
        restored(entries).contains(n),
    decreases entries.len(),
{
    let front = entries.drop_last();
    let acc = restored(front);
    lemma_key_id(n.id);
    lemma_decode_encode(n);
    if j < entries.len() - 1 {
        assert forall|k: int|
            0 <= k < front.len() && id_of((#[trigger] front[k]).0) == Some(
                n.id,
            ) implies front[k].1 == encode_note(n) by {
            assert(front[k] == entries[k]);
        }
        assert(front[j] == entries[j]);
        lemma_restored_holds(front, j, n);
        let a = choose|a: int| 0 <= a < acc.len() && acc[a] == n;
        assert(restored(entries)[a] == n);
    } else {
        if is_pending(acc, n.id) {
            let a = slot_of(acc, n.id);
            assert(listed_at(acc, n.id, a));
            let k = lemma_restored_sound(front, a);
            assert(front[k] == entries[k]);
            assert(acc[a] == n);
            assert(restored(entries)[a] == n);
        } else {
            assert(restored(entries) == acc.push(n));
            assert(restored(entries)[acc.len() as int] == n);
        }
    }
}

/// A waiting notification that the store holds is among those that a restart rebuilds, with
/// the due instant it was scheduled for.
pub proof fn law_waiting_survives_restart(slots: Seq<SlotView>, n: Note)
    requires
        well_formed(slots),
        committed(slots, n),
        n.waiting(),
    ensures
        restored(listed(slots, namespace())).contains(n),
{
    let key = key_of(n.id);
    let pred = listable(namespace());
    let pair = |s: SlotView| (s.key, s.value);
    let kept = slots.filter(pred);
    let entries = listed(slots, namespace());
    lemma_key_id(n.id);
    let i = index_of(slots, key);
    assert(at(slots, key, i));
    assert(pred(slots[i]));
    slots.lemma_filter_contains(pred, i);
    let j = choose|j: int| 0 <= j < kept.len() && kept[j] == slots[i];
    assert(entries[j] == (key, encode_note(n)));
    assert forall|k: int|
        0 <= k < entries.len() && id_of((#[trigger] entries[k]).0) == Some(
            n.id,
        ) implies entries[k].1 == encode_note(n) by {
        lemma_id_key(entries[k].0);
        let s = kept[k];
        slots.lemma_filter_pred(pred, k);
        assert(kept.contains(s));
        slots.lemma_filter_contains_rev(pred, s);
        let m = choose|m: int| 0 <= m < slots.len() && slots[m] == s;
        assert(at(slots, key, m));
        lemma_index_unique(slots, key, m);
    }
    lemma_restored_holds(entries, j, n);
}

} // verus!

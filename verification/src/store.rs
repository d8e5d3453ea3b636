use crate::bytes::{append_bytes, copy_bytes, same_bytes, starts_with};
use crate::checksum;
use crate::records::{
    at, content, discard, holds, lemma_discard, lemma_index_unique, lemma_put, put,
    well_formed,
};
use crate::wire::{
    decode, encode, image_of, lemma_parse_image, parse, seal, views, Slot, SlotView,
};
use vstd::prelude::*;

verus! {

/// Why a store operation did not succeed.
#[derive(Debug, Clone, Copy, PartialEq, Eq)]
pub enum StoreError {
    /// The medium did not take the write.
    IoFailure,
    /// A stored record fails its integrity check, or an image does not hold whole records.
    Corrupt,
}

impl StoreError {
    /// The text under which the error is shown to the host application.
    pub fn message(&self) -> (text: &'static str)
        ensures
            text@ == match self {
                StoreError::IoFailure => "storage medium unavailable"@,
                StoreError::Corrupt => "stored record is corrupt"@,
            },
    {
        match self {
            StoreError::IoFailure => "storage medium unavailable",
            StoreError::Corrupt => "stored record is corrupt",
        }
    }
}

/// What the medium answered when it was handed an image to put in place of the old one.
#[derive(Debug, Clone, Copy, PartialEq, Eq)]
pub enum Outcome {
    /// The image replaced the old one and will be read back after a restart.
    Durable,
    /// The old image is still in place.
    Failed,
}

/// One key with its value, as `list_prefix` hands it out.
#[derive(Debug, PartialEq, Eq)]
pub struct Entry {
    pub key: Vec<u8>,
    pub value: Vec<u8>,
}

impl View for Entry {
    type V = (Seq<u8>, Seq<u8>);

    open spec fn view(&self) -> (Seq<u8>, Seq<u8>) {
        (self.key@, self.value@)
    }
}

/// The views of a sequence of entries, in order.
pub open spec fn entry_views(entries: Seq<Entry>) -> Seq<(Seq<u8>, Seq<u8>)> {
    entries.map_values(|e: Entry| e@)
}

/// A record is listed under `prefix` when its key begins with it and the record is intact.
pub open spec fn listable(prefix: Seq<u8>) -> spec_fn(SlotView) -> bool {
    |s: SlotView| prefix.is_prefix_of(s.key) && s.intact()
}

/// What `list_prefix` hands out for these records: the listable ones, in stored order.
pub open spec fn listed(slots: Seq<SlotView>, prefix: Seq<u8>) -> Seq<(Seq<u8>, Seq<u8>)> {
    slots.filter(listable(prefix)).map_values(|s: SlotView| (s.key, s.value))
}

/// The committed state of the durable store: the records that the medium holds.
pub struct Store {
    slots: Vec<Slot>,
}

impl View for Store {
    type V = Map<Seq<u8>, Seq<u8>>;

    /// The committed mapping from keys to values.
    open spec fn view(&self) -> Map<Seq<u8>, Seq<u8>> {
        content(self.records())
    }
}

/// Records that a vector holds have lengths that a header can carry, so their image parses
/// back to them.
pub proof fn lemma_image_parses(slots: Seq<Slot>)
    ensures
        parse(image_of(views(slots))) == Some(views(slots)),
{
    let all = views(slots);
    assert forall|i: int| 0 <= i < all.len() implies (#[trigger] all[i]).fits() by {
        let s = slots[i];
        assert(s.key.len() == s.key@.len());
        assert(s.value.len() == s.value@.len());
    }
    lemma_parse_image(all);
}

/// The check value of a key and a value.
fn seal_of(key: &Vec<u8>, value: &Vec<u8>) -> (check: u64)
    ensures
        check == seal(key@, value@),
{
    let mut joined = vstd::bytes::u64_to_le_bytes(key.len() as u64);
    append_bytes(&mut joined, key);
    append_bytes(&mut joined, value);
    checksum::compute(&joined) as u64
}

/// Whether no key is empty and no key occurs twice.
fn check_well_formed(slots: &Vec<Slot>) -> (ok: bool)
    ensures
        ok == well_formed(views(slots@)),
{
    let ghost all = views(slots@);
    let mut i: usize = 0;
    while i < slots.len()
        invariant
            i <= slots.len(),
            all == views(slots@),
            well_formed(all.take(i as int)),
        decreases slots.len() - i,
    {
        if slots[i].key.len() == 0 {
            proof {
                assert(all[i as int].key.len() == 0);
            }
            return false;
        }
        let mut j: usize = 0;
        while j < i
            invariant
                j <= i,
                i < slots.len(),
                all == views(slots@),
                forall|k: int| 0 <= k < j ==> (#[trigger] all[k]).key != all[i as int].key,
            decreases i - j,
        {
            if same_bytes(&slots[j].key, &slots[i].key) {
                proof {
                    assert(all[j as int].key == all[i as int].key);
                }
                return false;
            }
            j = j + 1;
        }
        proof {
            let before = all.take(i as int);
            let now = all.take(i + 1);
            assert forall|a: int, b: int|
                0 <= a < now.len() && 0 <= b < now.len() && a != b implies (#[trigger] now[a]).key
                != (#[trigger] now[b]).key by {
                if a < i && b < i {
                    assert(before[a].key != before[b].key);
                }
            }
            assert forall|a: int| 0 <= a < now.len() implies (#[trigger] now[a]).key.len()
                > 0 by {
                if a < i {
                    assert(before[a].key.len() > 0);
                }
            }
        }
        i = i + 1;
    }
    proof {
        assert(all.take(slots.len() as int) =~= all);
    }
    true
}

/// The position of the record of `key`, if there is one.
fn find(slots: &Vec<Slot>, key: &Vec<u8>) -> (found: Option<usize>)
    ensures
        match found {
            Some(i) => at(views(slots@), key@, i as int),
            None => !holds(views(slots@), key@),
        },
{
    let ghost all = views(slots@);
    let mut i: usize = 0;
    while i < slots.len()
        invariant
            i <= slots.len(),
            all == views(slots@),
            forall|k: int| 0 <= k < i ==> !at(all, key@, k),
        decreases slots.len() - i,
    {
        if same_bytes(&slots[i].key, key) {
            return Some(i);
        }
        i = i + 1;
    }
    None
}

/// A fresh copy of the records.
fn copy_slots(slots: &Vec<Slot>) -> (out: Vec<Slot>)
    ensures
        views(out@) == views(slots@),
{
    let mut out: Vec<Slot> = Vec::new();
    let mut i: usize = 0;
    while i < slots.len()
        invariant
            i <= slots.len(),
            views(out@) == views(slots@).take(i as int),
        decreases slots.len() - i,
    {
        let slot = Slot {
            key: copy_bytes(&slots[i].key),
            value: copy_bytes(&slots[i].value),
            check: slots[i].check,
        };
        proof {
            let all = views(slots@);
            assert(slot@ == all[i as int]);
            assert(views(out@.push(slot)) =~= views(out@).push(slot@));
            assert(all.take(i + 1) =~= all.take(i as int).push(all[i as int]));
        }
        out.push(slot);
        i = i + 1;
    }
    proof {
        assert(views(slots@).take(slots.len() as int) =~= views(slots@));
    }
    out
}

/// Writes `value` under `key` into the records.
fn put_slot(slots: &mut Vec<Slot>, key: Vec<u8>, value: Vec<u8>)
    requires
        well_formed(views(old(slots)@)),
    ensures
        views(final(slots)@) == put(views(old(slots)@), key@, value@),
{
    let check = seal_of(&key, &value);
    let found = find(slots, &key);
    let slot = Slot { key, value, check };
    let ghost before = views(slots@);
    match found {
        Some(i) => {
            proof {
                lemma_index_unique(before, slot@.key, i as int);
            }
            slots.set(i, slot);
            proof {
                assert(views(slots@) =~= before.update(i as int, slot@));
            }
        },
        None => {
            slots.push(slot);
            proof {
                assert(views(slots@) =~= before.push(slot@));
            }
        },
    }
}

/// Takes the record of `key` out of the records, if there is one.
fn discard_slot(slots: &mut Vec<Slot>, key: &Vec<u8>)
    requires
        well_formed(views(old(slots)@)),
    ensures
        views(final(slots)@) == discard(views(old(slots)@), key@),
{
    let found = find(slots, key);
    let ghost before = views(slots@);
    match found {
        Some(i) => {
            proof {
                lemma_index_unique(before, key@, i as int);
            }
            let _ = slots.remove(i);
            proof {
                assert(views(slots@) =~= before.remove(i as int));
            }
        },
        None => {},
    }
}

impl Store {
    /// The committed records, in stored order.
    pub closed spec fn records(&self) -> Seq<SlotView> {
        views(self.slots@)
    }

    /// No key is empty and no key occurs twice.
    pub open spec fn wf(&self) -> bool {
        well_formed(self.records())
    }

    /// The keys whose committed record fails its integrity check.
    pub open spec fn damaged(&self) -> Set<Seq<u8>> {
        crate::records::damaged(self.records())
    }

    /// A store over a medium that holds nothing yet.
    pub fn new() -> (store: Store)
        ensures
            store.wf(),
            store.records() == Seq::<SlotView>::empty(),
            store@ == Map::<Seq<u8>, Seq<u8>>::empty(),
    {
        let store = Store { slots: Vec::new() };
        proof {
            assert(store.records() =~= Seq::<SlotView>::empty());
            assert(store@ =~= Map::<Seq<u8>, Seq<u8>>::empty());
        }
        store
    }

    /// Rebuilds the committed state from the image that the medium holds. The image is
    /// refused as corrupt where it does not divide into whole records, or where a key is
    /// empty or occurs twice.
    pub fn open(image: &Vec<u8>) -> (opened: Result<Store, StoreError>)
        ensures
            match opened {
                Ok(store) => store.wf() && parse(image@) == Some(store.records()),
                Err(e) => e == StoreError::Corrupt && match parse(image@) {
                    Some(slots) => !well_formed(slots),
                    None => true,
                },
            },
    {
        match decode(image) {
            Some(slots) => {
                if check_well_formed(&slots) {
                    Ok(Store { slots })
                } else {
                    Err(StoreError::Corrupt)
                }
            },
            None => Err(StoreError::Corrupt),
        }
    }

    /// A second store with the same committed records.
    pub fn duplicate(&self) -> (twin: Store)
        ensures
            twin.records() == self.records(),
    {
        Store { slots: copy_slots(&self.slots) }
    }

    /// The image of the committed state.
    pub fn image(&self) -> (image: Vec<u8>)
        ensures
            image@ == image_of(self.records()),
            parse(image@) == Some(self.records()),
    {
        proof {
            lemma_image_parses(self.slots@);
        }
        encode(&self.slots)
    }

    /// The image that the medium must hold for `save(key, value, ..)` to succeed.
    pub fn image_after_save(&self, key: &Vec<u8>, value: &Vec<u8>) -> (image: Vec<u8>)
        requires
            self.wf(),
        ensures
            image@ == image_of(put(self.records(), key@, value@)),
            parse(image@) == Some(put(self.records(), key@, value@)),
    {
        let mut next = copy_slots(&self.slots);
        put_slot(&mut next, copy_bytes(key), copy_bytes(value));
        proof {
            lemma_image_parses(next@);
        }
        encode(&next)
    }

    /// The image that the medium must hold for `delete(key, ..)` to succeed.
    pub fn image_after_delete(&self, key: &Vec<u8>) -> (image: Vec<u8>)
        requires
            self.wf(),
        ensures
            image@ == image_of(discard(self.records(), key@)),
            parse(image@) == Some(discard(self.records(), key@)),
    {
        let mut next = copy_slots(&self.slots);
        discard_slot(&mut next, key);
        proof {
            lemma_image_parses(next@);
        }
        encode(&next)
    }

    /// Whether a record is committed under `key`, intact or not.
    pub fn contains(&self, key: &Vec<u8>) -> (yes: bool)
        ensures
            yes == self@.dom().contains(key@),
    {
        find(&self.slots, key).is_some()
    }

    /// The committed value of `key`, `None` where none is committed, or `Corrupt` where the
    /// committed record fails its integrity check.
    pub fn load(&self, key: &Vec<u8>) -> (loaded: Result<Option<Vec<u8>>, StoreError>)
        requires
            self.wf(),
        ensures
            match loaded {
                Ok(Some(value)) => self@.dom().contains(key@) && !self.damaged().contains(key@)
                    && value@ == self@[key@],
                Ok(None) => !self@.dom().contains(key@),
                Err(e) => e == StoreError::Corrupt && self.damaged().contains(key@),
            },
    {
        match find(&self.slots, key) {
            Some(i) => {
                proof {
                    lemma_index_unique(self.records(), key@, i as int);
                }
                let slot = &self.slots[i];
                if seal_of(&slot.key, &slot.value) == slot.check {
                    Ok(Some(copy_bytes(&slot.value)))
                } else {
                    Err(StoreError::Corrupt)
                }
            },
            None => Ok(None),
        }
    }

    /// Commits `value` under `key`, given what the medium answered for
    /// `image_after_save(key, value)`. Once the image is durable the value is what `load`
    /// returns; where the write failed nothing changes.
    pub fn save(&mut self, key: Vec<u8>, value: Vec<u8>, outcome: Outcome) -> (saved: Result<
        (),
        StoreError,
    >)
        requires
            old(self).wf(),
            key@.len() > 0,
        ensures
            final(self).wf(),
            match outcome {
                Outcome::Durable => saved is Ok && final(self).records() == put(
                    old(self).records(),
                    key@,
                    value@,
                ) && final(self)@ == old(self)@.insert(key@, value@) && final(self).damaged()
                    == old(self).damaged().remove(key@),
                Outcome::Failed => saved == Err::<(), StoreError>(StoreError::IoFailure)
                    && final(self).records() == old(self).records(),
            },
    {
        match outcome {
            Outcome::Durable => {
                proof {
                    lemma_put(self.records(), key@, value@);
                }
                put_slot(&mut self.slots, key, value);
                Ok(())
            },
            Outcome::Failed => Err(StoreError::IoFailure),
        }
    }

    /// Commits the removal of `key`, given what the medium answered for
    /// `image_after_delete(key)`. Where nothing is committed under `key` there is nothing to
    /// remove and the call succeeds whatever the medium answered.
    pub fn delete(&mut self, key: &Vec<u8>, outcome: Outcome) -> (deleted: Result<(), StoreError>)
        requires
            old(self).wf(),
        ensures
            final(self).wf(),
            if outcome == Outcome::Failed && old(self)@.dom().contains(key@) {
                deleted == Err::<(), StoreError>(StoreError::IoFailure) && final(self).records()
                    == old(self).records()
            } else {
                deleted is Ok && final(self).records() == discard(old(self).records(), key@)
                    && final(self)@ == old(self)@.remove(key@) && final(self).damaged() == old(
                    self,
                ).damaged().remove(key@)
            },
    {
        proof {
            lemma_discard(self.records(), key@);
        }
        match outcome {
            Outcome::Durable => {
                discard_slot(&mut self.slots, key);
                Ok(())
            },
            Outcome::Failed => {
                if self.contains(key) {
                    Err(StoreError::IoFailure)
                } else {
                    Ok(())
                }
            },
        }
    }

    /// A snapshot of the intact records whose key begins with `prefix`, in stored order.
    pub fn list_prefix(&self, prefix: &Vec<u8>) -> (entries: Vec<Entry>)
        ensures
            entry_views(entries@) == listed(self.records(), prefix@),
    {
        let ghost all = self.records();
        let ghost pred = listable(prefix@);
        let ghost pair = |s: SlotView| (s.key, s.value);
        let mut entries: Vec<Entry> = Vec::new();
        let mut i: usize = 0;
        proof {
            assert(all.take(0) =~= Seq::<SlotView>::empty());
            reveal(Seq::filter);
            assert(entry_views(entries@) =~= all.take(0).filter(pred).map_values(pair));
        }
        while i < self.slots.len()
            invariant
                i <= self.slots.len(),
                all == views(self.slots@),
                pred == listable(prefix@),
                pair == |s: SlotView| (s.key, s.value),
                entry_views(entries@) == all.take(i as int).filter(pred).map_values(pair),
            decreases self.slots.len() - i,
        {
            let slot = &self.slots[i];
            proof {
                assert(all.take(i + 1) =~= all.take(i as int).push(all[i as int]));
                all.take(i as int).lemma_filter_push(all[i as int], pred);
            }
            if starts_with(&slot.key, prefix) && seal_of(&slot.key, &slot.value) == slot.check {
                let entry = Entry { key: copy_bytes(&slot.key), value: copy_bytes(&slot.value) };
                proof {
                    let kept = all.take(i as int).filter(pred);
                    assert(entry@ == pair(all[i as int]));
                    assert(entry_views(entries@.push(entry)) =~= entry_views(entries@).push(
                        entry@,
                    ));
                    assert(kept.push(all[i as int]).map_values(pair) =~= kept.map_values(
                        pair,
                    ).push(pair(all[i as int])));
                }
                entries.push(entry);
            }
            i = i + 1;
        }
        proof {
            assert(all.take(self.slots.len() as int) =~= all);
        }
        entries
    }
}

} // verus!

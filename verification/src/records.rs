use crate::wire::{seal, SlotView};
use vstd::prelude::*;

verus! {

/// Position `i` of `slots` holds the record of `key`.
pub open spec fn at(slots: Seq<SlotView>, key: Seq<u8>, i: int) -> bool {
    0 <= i < slots.len() && slots[i].key == key
}

/// Some record of `slots` has this key.
pub open spec fn holds(slots: Seq<SlotView>, key: Seq<u8>) -> bool {
    exists|i: int| at(slots, key, i)
}

/// A position that holds the record of `key`, where there is one.
pub open spec fn index_of(slots: Seq<SlotView>, key: Seq<u8>) -> int {
    choose|i: int| at(slots, key, i)
}

/// No key is empty and no key occurs twice.
pub open spec fn well_formed(slots: Seq<SlotView>) -> bool {
    &&& forall|i: int| 0 <= i < slots.len() ==> (#[trigger] slots[i]).key.len() > 0
    &&& forall|i: int, j: int|
        0 <= i < slots.len() && 0 <= j < slots.len() && i != j ==> (#[trigger] slots[i]).key != (
        #[trigger] slots[j]).key
}

/// The mapping that the records stand for: each key to the value stored with it.
pub open spec fn content(slots: Seq<SlotView>) -> Map<Seq<u8>, Seq<u8>> {
    Map::new(|k: Seq<u8>| holds(slots, k), |k: Seq<u8>| slots[index_of(slots, k)].value)
}

/// The keys whose record fails its integrity check.
pub open spec fn damaged(slots: Seq<SlotView>) -> Set<Seq<u8>> {
    Set::new(|k: Seq<u8>| holds(slots, k) && !slots[index_of(slots, k)].intact())
}

/// The record that a fresh write of `value` under `key` leaves.
pub open spec fn sealed(key: Seq<u8>, value: Seq<u8>) -> SlotView {
    SlotView { key, value, check: seal(key, value) as u64 }
}

/// The records after `value` was written under `key`: the record of `key` is replaced where
/// it stood, or added at the end.
pub open spec fn put(slots: Seq<SlotView>, key: Seq<u8>, value: Seq<u8>) -> Seq<SlotView> {
    if holds(slots, key) {
        slots.update(index_of(slots, key), sealed(key, value))
    } else {
        slots.push(sealed(key, value))
    }
}

/// The records after `key` was deleted: its record is taken out, the others keep their
/// order.
pub open spec fn discard(slots: Seq<SlotView>, key: Seq<u8>) -> Seq<SlotView> {
    if holds(slots, key) {
        slots.remove(index_of(slots, key))
    } else {
        slots
    }
}

/// In well-formed records a key stands at one position only.
pub proof fn lemma_index_unique(slots: Seq<SlotView>, key: Seq<u8>, i: int)
    requires
        well_formed(slots),
        at(slots, key, i),
    ensures
        holds(slots, key),
        index_of(slots, key) == i,
{
    let j = index_of(slots, key);
    assert(at(slots, key, j));
    if j != i {
        assert(slots[i].key != slots[j].key);
    }
}

/// A freshly sealed record is intact.
pub proof fn lemma_sealed_intact(key: Seq<u8>, value: Seq<u8>)
    ensures
        sealed(key, value).intact(),
{
    crate::checksum::lemma_sums_bounded(crate::wire::sealed_bytes(key, value));
}

/// Writing a value keeps the records well formed, maps the key to the value, clears any
/// damage on that key, and leaves every other key as it was.
pub proof fn lemma_put(slots: Seq<SlotView>, key: Seq<u8>, value: Seq<u8>)
    requires
        well_formed(slots),
        key.len() > 0,
    ensures
        well_formed(put(slots, key, value)),
        content(put(slots, key, value)) == content(slots).insert(key, value),
        damaged(put(slots, key, value)) == damaged(slots).remove(key),
{
    let after = put(slots, key, value);
    let fresh = sealed(key, value);
    lemma_sealed_intact(key, value);
    let p = if holds(slots, key) {
        index_of(slots, key)
    } else {
        slots.len() as int
    };
    if holds(slots, key) {
        assert(at(slots, key, p));
    }
    assert(after.len() > p && after[p] == fresh);
    assert forall|i: int| 0 <= i < after.len() && i != p implies after[i] == slots[i]
        && slots[i].key != key by {
        if slots[i].key == key {
            assert(at(slots, key, i));
            if holds(slots, key) {
                lemma_index_unique(slots, key, i);
            }
        }
    }
    assert(well_formed(after)) by {
        assert forall|i: int, j: int|
            0 <= i < after.len() && 0 <= j < after.len() && i != j implies (
        #[trigger] after[i]).key != (#[trigger] after[j]).key by {
            if i != p && j != p {
                assert(slots[i].key != slots[j].key);
            }
        }
    }
    assert(at(after, key, p));
    lemma_index_unique(after, key, p);
    assert forall|k: Seq<u8>| k != key implies (holds(after, k) <==> holds(slots, k)) && (holds(
        slots,
        k,
    ) ==> after[index_of(after, k)] == slots[index_of(slots, k)]) by {
        if holds(slots, k) {
            let i = index_of(slots, k);
            assert(at(slots, k, i));
            assert(at(after, k, i));
            lemma_index_unique(after, k, i);
        }
        if holds(after, k) {
            let i = index_of(after, k);
            assert(at(after, k, i));
            assert(at(slots, k, i));
        }
    }
    assert(content(after) =~= content(slots).insert(key, value));
    assert(damaged(after) =~= damaged(slots).remove(key));
}

/// Deleting a key keeps the records well formed, takes the key out of the mapping and of
/// the damaged keys, and leaves every other key as it was.
pub proof fn lemma_discard(slots: Seq<SlotView>, key: Seq<u8>)
    requires
        well_formed(slots),
    ensures
        well_formed(discard(slots, key)),
        content(discard(slots, key)) == content(slots).remove(key),
        damaged(discard(slots, key)) == damaged(slots).remove(key),
{
    let after = discard(slots, key);
    if holds(slots, key) {
        let p = index_of(slots, key);
        assert(at(slots, key, p));
        assert forall|i: int| 0 <= i < after.len() implies after[i] == slots[if i < p {
            i
        } else {
            i + 1
        }] by {}
        assert(well_formed(after)) by {
            assert forall|i: int, j: int|
                0 <= i < after.len() && 0 <= j < after.len() && i != j implies (
            #[trigger] after[i]).key != (#[trigger] after[j]).key by {
                let a = if i < p {
                    i
                } else {
                    i + 1
                };
                let b = if j < p {
                    j
                } else {
                    j + 1
                };
                assert(slots[a].key != slots[b].key);
            }
        }
        assert(!holds(after, key)) by {
            if holds(after, key) {
                let i = index_of(after, key);
                assert(at(after, key, i));
                let a = if i < p {
                    i
                } else {
                    i + 1
                };
                assert(at(slots, key, a));
                lemma_index_unique(slots, key, a);
            }
        }
        assert forall|k: Seq<u8>| k != key implies (holds(after, k) <==> holds(slots, k)) && (
        holds(slots, k) ==> after[index_of(after, k)] == slots[index_of(slots, k)]) by {
            if holds(slots, k) {
                let i = index_of(slots, k);
                assert(at(slots, k, i));
                let a = if i < p {
                    i
                } else {
                    i - 1
                };
                assert(at(after, k, a));
                lemma_index_unique(after, k, a);
            }
            if holds(after, k) {
                let i = index_of(after, k);
                assert(at(after, k, i));
                let a = if i < p {
                    i
                } else {
                    i + 1
                };
                assert(at(slots, k, a));
            }
        }
        assert(content(after) =~= content(slots).remove(key));
        assert(damaged(after) =~= damaged(slots).remove(key));
    } else {
        assert(content(after) =~= content(slots).remove(key));
        assert(damaged(after) =~= damaged(slots).remove(key));
    }
}

} // verus!

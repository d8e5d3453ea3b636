use crate::bytes::append_bytes;
use crate::checksum;
use vstd::bytes::{
    lemma_auto_spec_u64_to_from_le_bytes, spec_u64_from_le_bytes, spec_u64_to_le_bytes,
    u64_from_le_bytes, u64_to_le_bytes,
};
use vstd::prelude::*;
use vstd::slice::{slice_subrange, slice_to_vec};

verus! {

/// Bytes in a record header: key length, value length and check value, eight bytes each.
pub const HEADER: usize = 24;

/// One stored record as it lies on the medium: a key, a value, and the check value that
/// was written beside them.
pub struct Slot {
    pub key: Vec<u8>,
    pub value: Vec<u8>,
    pub check: u64,
}

/// The mathematical content of a [`Slot`].
pub ghost struct SlotView {
    pub key: Seq<u8>,
    pub value: Seq<u8>,
    pub check: u64,
}

impl View for Slot {
    type V = SlotView;

    open spec fn view(&self) -> SlotView {
        SlotView { key: self.key@, value: self.value@, check: self.check }
    }
}

/// The bytes that the check value of a record covers: the length of the key, the key and
/// the value, so that a key and a value with the border between them moved are told apart.
pub open spec fn sealed_bytes(key: Seq<u8>, value: Seq<u8>) -> Seq<u8> {
    spec_u64_to_le_bytes(key.len() as u64) + key + value
}

/// The check value that belongs to a key and a value.
pub open spec fn seal(key: Seq<u8>, value: Seq<u8>) -> int {
    checksum::digest(sealed_bytes(key, value))
}

impl SlotView {
    /// The stored check value is the one that belongs to the stored key and value.
    pub open spec fn intact(self) -> bool {
        self.check == seal(self.key, self.value)
    }

    /// Both lengths can be written into a header field.
    pub open spec fn fits(self) -> bool {
        self.key.len() <= u64::MAX && self.value.len() <= u64::MAX
    }
}

/// The views of a sequence of slots, in order.
pub open spec fn views(slots: Seq<Slot>) -> Seq<SlotView> {
    slots.map_values(|s: Slot| s@)
}

/// The bytes of one record: header, then key, then value.
pub open spec fn frame(s: SlotView) -> Seq<u8> {
    spec_u64_to_le_bytes(s.key.len() as u64) + spec_u64_to_le_bytes(s.value.len() as u64)
        + spec_u64_to_le_bytes(s.check) + s.key + s.value
}

/// The image of a sequence of records: their frames one after another.
pub open spec fn image_of(slots: Seq<SlotView>) -> Seq<u8>
    decreases slots.len(),
{
    if slots.len() == 0 {
        Seq::empty()
    } else {
        frame(slots.first()) + image_of(slots.drop_first())
    }
}

/// Puts a record in front of an already parsed rest, if there is one.
pub open spec fn prepend(s: SlotView, rest: Option<Seq<SlotView>>) -> Option<Seq<SlotView>> {
    match rest {
        Some(r) => Some(seq![s] + r),
        None => None,
    }
}

/// Appends an already parsed rest, if there is one, to the records read so far.
pub open spec fn extend(done: Seq<SlotView>, rest: Option<Seq<SlotView>>) -> Option<
    Seq<SlotView>,
> {
    match rest {
        Some(r) => Some(done + r),
        None => None,
    }
}

/// The records that an image holds, or `None` where the bytes do not divide into whole
/// frames.
pub open spec fn parse(bytes: Seq<u8>) -> Option<Seq<SlotView>>
    decreases bytes.len(),
{
    if bytes.len() == 0 {
        Some(Seq::empty())
    } else if bytes.len() < HEADER {
        None
    } else {
        let klen = spec_u64_from_le_bytes(bytes.subrange(0, 8)) as int;
        let vlen = spec_u64_from_le_bytes(bytes.subrange(8, 16)) as int;
        let check = spec_u64_from_le_bytes(bytes.subrange(16, 24));
        if klen + vlen > bytes.len() - HEADER {
            None
        } else {
            let s = SlotView {
                key: bytes.subrange(HEADER as int, HEADER + klen),
                value: bytes.subrange(HEADER + klen, HEADER + klen + vlen),
                check,
            };
            prepend(s, parse(bytes.skip(HEADER + klen + vlen)))
        }
    }
}

/// A frame in front of any bytes parses to its record in front of what those bytes hold.
pub proof fn lemma_parse_frame(s: SlotView, tail: Seq<u8>)
    requires
        s.fits(),
    ensures
        parse(frame(s) + tail) == prepend(s, parse(tail)),
{
    lemma_auto_spec_u64_to_from_le_bytes();
    let bytes = frame(s) + tail;
    let k = spec_u64_to_le_bytes(s.key.len() as u64);
    let v = spec_u64_to_le_bytes(s.value.len() as u64);
    let c = spec_u64_to_le_bytes(s.check);
    assert(bytes.subrange(0, 8) =~= k);
    assert(bytes.subrange(8, 16) =~= v);
    assert(bytes.subrange(16, 24) =~= c);
    let klen = s.key.len() as int;
    let vlen = s.value.len() as int;
    assert(bytes.subrange(HEADER as int, HEADER + klen) =~= s.key);
    assert(bytes.subrange(HEADER + klen, HEADER + klen + vlen) =~= s.value);
    assert(bytes.skip(HEADER + klen + vlen) =~= tail);
}

/// Every image parses back to the records it was made of.
pub proof fn lemma_parse_image(slots: Seq<SlotView>)
    requires
        forall|i: int| 0 <= i < slots.len() ==> (#[trigger] slots[i]).fits(),
    ensures
        parse(image_of(slots)) == Some(slots),
    decreases slots.len(),
{
    if slots.len() > 0 {
        let rest = slots.drop_first();
        assert forall|i: int| 0 <= i < rest.len() implies (#[trigger] rest[i]).fits() by {
            assert(rest[i] == slots[i + 1]);
        }
        lemma_parse_image(rest);
        lemma_parse_frame(slots.first(), image_of(rest));
        assert(seq![slots.first()] + rest =~= slots);
    }
}

/// The image of records with one more at the end is the image so far, then its frame.
pub proof fn lemma_image_push(slots: Seq<SlotView>, s: SlotView)
    ensures
        image_of(slots.push(s)) == image_of(slots) + frame(s),
    decreases slots.len(),
{
    if slots.len() == 0 {
        assert(slots.push(s).drop_first() =~= Seq::<SlotView>::empty());
        assert(slots.push(s).first() == s);
        assert(image_of(slots.push(s).drop_first()) =~= Seq::<u8>::empty());
        assert(image_of(slots) =~= Seq::<u8>::empty());
        assert(image_of(slots.push(s)) =~= image_of(slots) + frame(s));
    } else {
        lemma_image_push(slots.drop_first(), s);
        assert(slots.push(s).drop_first() =~= slots.drop_first().push(s));
        assert(slots.push(s).first() == slots.first());
        assert(image_of(slots.push(s)) =~= image_of(slots) + frame(s));
    }
}

/// Appends the frame of one record to `out`.
pub fn put_frame(out: &mut Vec<u8>, slot: &Slot)
    ensures
        final(out)@ == old(out)@ + frame(slot@),
{
    let k = u64_to_le_bytes(slot.key.len() as u64);
    let v = u64_to_le_bytes(slot.value.len() as u64);
    let c = u64_to_le_bytes(slot.check);
    append_bytes(out, &k);
    append_bytes(out, &v);
    append_bytes(out, &c);
    append_bytes(out, &slot.key);
    append_bytes(out, &slot.value);
    proof {
        assert(out@ =~= old(out)@ + frame(slot@));
    }
}

/// Writes the image of `slots`.
pub fn encode(slots: &Vec<Slot>) -> (image: Vec<u8>)
    ensures
        image@ == image_of(views(slots@)),
{
    let mut image: Vec<u8> = Vec::new();
    let mut i: usize = 0;
    while i < slots.len()
        invariant
            i <= slots.len(),
            image@ == image_of(views(slots@).take(i as int)),
        decreases slots.len() - i,
    {
        proof {
            let all = views(slots@);
            lemma_image_push(all.take(i as int), all[i as int]);
            assert(all.take(i + 1) =~= all.take(i as int).push(all[i as int]));
        }
        put_frame(&mut image, &slots[i]);
        i = i + 1;
    }
    proof {
        assert(views(slots@).take(slots.len() as int) =~= views(slots@));
    }
    image
}

/// Reads the records of an image, or reports that the bytes do not divide into whole
/// frames.
pub fn decode(image: &Vec<u8>) -> (slots: Option<Vec<Slot>>)
    ensures
        match slots {
            Some(v) => parse(image@) == Some(views(v@)),
            None => parse(image@) is None,
        },
{
    let bytes = image.as_slice();
    let total: usize = bytes.len();
    let mut slots: Vec<Slot> = Vec::new();
    let mut pos: usize = 0;
    proof {
        assert(image@.skip(0) =~= image@);
        match parse(image@) {
            Some(r) => {
                assert(views(slots@) + r =~= r);
            },
            None => {},
        }
    }
    while pos < total
        invariant
            pos <= total,
            total == bytes@.len(),
            bytes@ == image@,
            parse(image@) == extend(views(slots@), parse(image@.skip(pos as int))),
        decreases total - pos,
    {
        let ghost rest = image@.skip(pos as int);
        let left: usize = total - pos;
        if left < HEADER {
            return None;
        }
        let klen = u64_from_le_bytes(slice_subrange(bytes, pos, pos + 8));
        let vlen = u64_from_le_bytes(slice_subrange(bytes, pos + 8, pos + 16));
        let check = u64_from_le_bytes(slice_subrange(bytes, pos + 16, pos + 24));
        proof {
            assert(image@.subrange(pos as int, pos + 8) =~= rest.subrange(0, 8));
            assert(image@.subrange(pos + 8, pos + 16) =~= rest.subrange(8, 16));
            assert(image@.subrange(pos + 16, pos + 24) =~= rest.subrange(16, 24));
        }
        let body: usize = left - HEADER;
        if klen > body as u64 {
            return None;
        }
        if vlen > body as u64 - klen {
            return None;
        }
        let kend: usize = pos + HEADER + klen as usize;
        let vend: usize = kend + vlen as usize;
        let key = slice_to_vec(slice_subrange(bytes, pos + HEADER, kend));
        let value = slice_to_vec(slice_subrange(bytes, kend, vend));
        let slot = Slot { key, value, check };
        proof {
            assert(image@.subrange(pos + HEADER, kend as int) =~= rest.subrange(
                HEADER as int,
                HEADER + klen,
            ));
            assert(image@.subrange(kend as int, vend as int) =~= rest.subrange(
                HEADER + klen,
                HEADER + klen + vlen,
            ));
            assert(rest.skip(HEADER + klen + vlen) =~= image@.skip(vend as int));
            let done = views(slots@);
            assert(views(slots@.push(slot)) =~= done.push(slot@));
            match parse(image@.skip(vend as int)) {
                Some(r) => {
                    assert(done.push(slot@) + r =~= done + (seq![slot@] + r));
                },
                None => {},
            }
        }
        slots.push(slot);
        pos = vend;
    }
    proof {
        assert(image@.skip(pos as int) =~= Seq::<u8>::empty());
        assert(views(slots@) + Seq::<SlotView>::empty() =~= views(slots@));
    }
    Some(slots)
}

} // verus!

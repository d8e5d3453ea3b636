use agent_core::checksum;
use agent_core::store::{Entry, Outcome, Store, StoreError};
use agent_core::wire::{decode, encode, Slot};

fn b(text: &str) -> Vec<u8> {
    text.as_bytes().to_vec()
}

#[test]
fn checksum_of_nothing_is_one() {
    assert_eq!(checksum::compute(&Vec::new()), 1);
}

#[test]
fn checksum_of_known_inputs() {
    assert_eq!(checksum::compute(&b("a")), 6422626);
    assert_eq!(checksum::compute(&b("Wikipedia")), 300286872);
}

#[test]
fn checksum_tells_swapped_bytes_apart() {
    assert_ne!(checksum::compute(&b("ab")), checksum::compute(&b("ba")));
}

#[test]
fn frame_has_the_documented_layout() {
    let slots = vec![Slot { key: b("k"), value: b("vw"), check: 7 }];
    let image = encode(&slots);
    let mut expected: Vec<u8> = Vec::new();
    expected.extend_from_slice(&[1, 0, 0, 0, 0, 0, 0, 0]);
    expected.extend_from_slice(&[2, 0, 0, 0, 0, 0, 0, 0]);
    expected.extend_from_slice(&[7, 0, 0, 0, 0, 0, 0, 0]);
    expected.extend_from_slice(b"k");
    expected.extend_from_slice(b"vw");
    assert_eq!(image, expected);
}

#[test]
fn decode_reads_back_what_encode_wrote() {
    let slots = vec![
        Slot { key: b("alpha"), value: b("1"), check: 11 },
        Slot { key: b("beta"), value: Vec::new(), check: 22 },
    ];
    let image = encode(&slots);
    let read = decode(&image).expect("whole frames");
    assert_eq!(read.len(), 2);
    assert_eq!(read[0].key, b("alpha"));
    assert_eq!(read[0].value, b("1"));
    assert_eq!(read[0].check, 11);
    assert_eq!(read[1].key, b("beta"));
    assert_eq!(read[1].value, Vec::<u8>::new());
    assert_eq!(read[1].check, 22);
}

#[test]
fn decode_of_nothing_is_no_records() {
    assert_eq!(decode(&Vec::new()).expect("empty image").len(), 0);
}

#[test]
fn decode_refuses_a_cut_header() {
    let image = encode(&vec![Slot { key: b("k"), value: b("v"), check: 0 }]);
    assert!(decode(&image[..10].to_vec()).is_none());
}

#[test]
fn decode_refuses_a_cut_body() {
    let image = encode(&vec![Slot { key: b("key"), value: b("value"), check: 0 }]);
    assert!(decode(&image[..image.len() - 1].to_vec()).is_none());
}

#[test]
fn decode_refuses_a_length_beyond_the_image() {
    let mut image = encode(&vec![Slot { key: b("k"), value: b("v"), check: 0 }]);
    image[7] = 0xff;
    assert!(decode(&image).is_none());
}

#[test]
fn save_then_load_returns_the_value() {
    let mut store = Store::new();
    assert_eq!(store.save(b("k"), b("v"), Outcome::Durable), Ok(()));
    assert_eq!(store.load(&b("k")), Ok(Some(b("v"))));
}

#[test]
fn save_overwrites_the_earlier_value() {
    let mut store = Store::new();
    store.save(b("k"), b("one"), Outcome::Durable).unwrap();
    store.save(b("k"), b("two"), Outcome::Durable).unwrap();
    assert_eq!(store.load(&b("k")), Ok(Some(b("two"))));
    assert_eq!(store.list_prefix(&Vec::new()).len(), 1);
}

#[test]
fn load_of_a_key_never_written_is_absent() {
    let mut store = Store::new();
    assert_eq!(store.load(&b("k")), Ok(None));
    store.save(b("other"), b("v"), Outcome::Durable).unwrap();
    assert_eq!(store.load(&b("k")), Ok(None));
    assert!(!store.contains(&b("k")));
}

#[test]
fn failed_write_reports_io_failure_and_keeps_the_prior_value() {
    let mut store = Store::new();
    store.save(b("k"), b("old"), Outcome::Durable).unwrap();
    assert_eq!(store.save(b("k"), b("new"), Outcome::Failed), Err(StoreError::IoFailure));
    assert_eq!(store.load(&b("k")), Ok(Some(b("old"))));
    assert_eq!(store.save(b("fresh"), b("x"), Outcome::Failed), Err(StoreError::IoFailure));
    assert_eq!(store.load(&b("fresh")), Ok(None));
}

#[test]
fn saved_value_survives_a_restart() {
    let mut store = Store::new();
    store.save(b("a"), b("1"), Outcome::Durable).unwrap();
    let image = store.image_after_save(&b("k"), &b("v"));
    store.save(b("k"), b("v"), Outcome::Durable).unwrap();
    drop(store);
    let reopened = Store::open(&image).expect("a sound image");
    assert_eq!(reopened.load(&b("k")), Ok(Some(b("v"))));
    assert_eq!(reopened.load(&b("a")), Ok(Some(b("1"))));
}

#[test]
fn crash_before_the_write_leaves_the_prior_state() {
    let mut store = Store::new();
    store.save(b("k"), b("old"), Outcome::Durable).unwrap();
    let durable = store.image();
    let _never_written = store.image_after_save(&b("k"), &b("new"));
    let reopened = Store::open(&durable).expect("a sound image");
    assert_eq!(reopened.load(&b("k")), Ok(Some(b("old"))));
}

#[test]
fn image_after_save_is_the_image_once_saved() {
    let mut store = Store::new();
    store.save(b("a"), b("1"), Outcome::Durable).unwrap();
    let planned = store.image_after_save(&b("b"), &b("2"));
    store.save(b("b"), b("2"), Outcome::Durable).unwrap();
    assert_eq!(store.image(), planned);
    let planned = store.image_after_delete(&b("a"));
    store.delete(&b("a"), Outcome::Durable).unwrap();
    assert_eq!(store.image(), planned);
}

#[test]
fn delete_removes_and_is_idempotent() {
    let mut store = Store::new();
    store.save(b("k"), b("v"), Outcome::Durable).unwrap();
    assert_eq!(store.delete(&b("k"), Outcome::Durable), Ok(()));
    assert_eq!(store.load(&b("k")), Ok(None));
    assert_eq!(store.delete(&b("k"), Outcome::Durable), Ok(()));
    assert_eq!(store.delete(&b("never"), Outcome::Durable), Ok(()));
    assert_eq!(store.delete(&b("never"), Outcome::Failed), Ok(()));
}

#[test]
fn failed_delete_keeps_the_value() {
    let mut store = Store::new();
    store.save(b("k"), b("v"), Outcome::Durable).unwrap();
    assert_eq!(store.delete(&b("k"), Outcome::Failed), Err(StoreError::IoFailure));
    assert_eq!(store.load(&b("k")), Ok(Some(b("v"))));
}

#[test]
fn list_prefix_gives_matching_entries_in_stored_order() {
    let mut store = Store::new();
    store.save(b("x/1"), b("a"), Outcome::Durable).unwrap();
    store.save(b("y/1"), b("b"), Outcome::Durable).unwrap();
    store.save(b("x/2"), b("c"), Outcome::Durable).unwrap();
    let listed = store.list_prefix(&b("x/"));
    assert_eq!(
        listed,
        vec![Entry { key: b("x/1"), value: b("a") }, Entry { key: b("x/2"), value: b("c") }]
    );
    assert_eq!(store.list_prefix(&b("z")).len(), 0);
    assert_eq!(store.list_prefix(&Vec::new()).len(), 3);
    assert_eq!(store.list_prefix(&b("x/1")).len(), 1);
    assert_eq!(store.list_prefix(&b("x/12")).len(), 0);
}

#[test]
fn list_prefix_is_a_snapshot() {
    let mut store = Store::new();
    store.save(b("x/1"), b("a"), Outcome::Durable).unwrap();
    let listed = store.list_prefix(&b("x/"));
    store.save(b("x/2"), b("b"), Outcome::Durable).unwrap();
    assert_eq!(listed.len(), 1);
}

#[test]
fn damaged_record_is_corrupt_and_the_others_stay_usable() {
    let mut store = Store::new();
    store.save(b("good"), b("fine"), Outcome::Durable).unwrap();
    store.save(b("bad"), b("value"), Outcome::Durable).unwrap();
    let mut image = store.image();
    let last = image.len() - 1;
    image[last] ^= 0x01;
    let mut reopened = Store::open(&image).expect("frames are whole");
    assert_eq!(reopened.load(&b("bad")), Err(StoreError::Corrupt));
    assert_eq!(reopened.load(&b("good")), Ok(Some(b("fine"))));
    assert_eq!(reopened.list_prefix(&Vec::new()).len(), 1);
    reopened.save(b("bad"), b("again"), Outcome::Durable).unwrap();
    assert_eq!(reopened.load(&b("bad")), Ok(Some(b("again"))));
}

#[test]
fn open_refuses_a_cut_image() {
    let mut store = Store::new();
    store.save(b("k"), b("v"), Outcome::Durable).unwrap();
    let image = store.image();
    assert!(matches!(Store::open(&image[..image.len() - 1].to_vec()), Err(StoreError::Corrupt)));
}

#[test]
fn open_refuses_a_key_that_occurs_twice() {
    let slots = vec![
        Slot { key: b("k"), value: b("1"), check: 0 },
        Slot { key: b("k"), value: b("2"), check: 0 },
    ];
    assert!(matches!(Store::open(&encode(&slots)), Err(StoreError::Corrupt)));
}

#[test]
fn open_refuses_an_empty_key() {
    let slots = vec![Slot { key: Vec::new(), value: b("1"), check: 0 }];
    assert!(matches!(Store::open(&encode(&slots)), Err(StoreError::Corrupt)));
}

#[test]
fn open_of_an_empty_medium_is_an_empty_store() {
    let store = Store::open(&Vec::new()).expect("nothing is sound");
    assert_eq!(store.image(), Vec::<u8>::new());
    assert_eq!(store.load(&b("k")), Ok(None));
}

#[test]
fn hundred_saves_to_distinct_keys_are_all_loadable() {
    let mut store = Store::new();
    for i in 0..100u32 {
        let key = format!("key-{}", i).into_bytes();
        let value = format!("value-{}", i).into_bytes();
        assert_eq!(store.save(key, value, Outcome::Durable), Ok(()));
    }
    for i in (0..100u32).rev() {
        let key = format!("key-{}", i).into_bytes();
        assert_eq!(store.load(&key), Ok(Some(format!("value-{}", i).into_bytes())));
    }
}

#[test]
fn hundred_saves_to_one_key_leave_the_last_value() {
    let mut store = Store::new();
    for i in 0..100u32 {
        store.save(b("k"), format!("value-{}", i).into_bytes(), Outcome::Durable).unwrap();
    }
    assert_eq!(store.load(&b("k")), Ok(Some(b("value-99"))));
    assert_eq!(store.list_prefix(&Vec::new()).len(), 1);
}

#[test]
fn saves_to_distinct_keys_in_either_order_agree() {
    let mut first = Store::new();
    first.save(b("a"), b("1"), Outcome::Durable).unwrap();
    first.save(b("b"), b("2"), Outcome::Durable).unwrap();
    let mut second = Store::new();
    second.save(b("b"), b("2"), Outcome::Durable).unwrap();
    second.save(b("a"), b("1"), Outcome::Durable).unwrap();
    for key in [b("a"), b("b")] {
        assert_eq!(first.load(&key), second.load(&key));
    }
}

#[test]
fn moved_border_between_key_and_value_is_corrupt() {
    let mut store = Store::new();
    store.save(b("ab"), b("c"), Outcome::Durable).unwrap();
    let mut image = store.image();
    assert_eq!(image[0], 2);
    assert_eq!(image[8], 1);
    image[0] = 1;
    image[8] = 2;
    let reopened = Store::open(&image).expect("frames are whole");
    assert_eq!(reopened.load(&b("a")), Err(StoreError::Corrupt));
    assert_eq!(reopened.load(&b("ab")), Ok(None));
}

#[test]
fn saved_record_carries_its_check_value() {
    let mut store = Store::new();
    store.save(b("k"), b("v"), Outcome::Durable).unwrap();
    let slots = decode(&store.image()).expect("whole frames");
    let mut covered = vec![1u8, 0, 0, 0, 0, 0, 0, 0];
    covered.extend_from_slice(b"kv");
    assert_eq!(slots[0].check, u64::from(checksum::compute(&covered)));
}

use agent_core::agent::Agent;
use agent_core::facade::{
    image_after_save_data, image_after_schedule_notification, load_data, save_data,
    schedule_notification,
};
use agent_core::scheduler::Delivery;
use agent_core::notification::NotificationId;
use agent_core::store::Outcome;

fn fresh() -> Agent {
    Agent::start(&Vec::new()).expect("an empty medium")
}

#[test]
fn save_data_then_load_data_returns_the_text() {
    let mut agent = fresh();
    assert_eq!(save_data(&mut agent, "greeting", "héllo wörld ✓", Outcome::Durable), Ok(()));
    assert_eq!(load_data(&agent, "greeting"), Ok(String::from("héllo wörld ✓")));
}

#[test]
fn load_data_of_a_key_never_saved_is_the_empty_text() {
    let mut agent = fresh();
    assert_eq!(load_data(&agent, "missing"), Ok(String::new()));
    save_data(&mut agent, "other", "v", Outcome::Durable).unwrap();
    assert_eq!(load_data(&agent, "missing"), Ok(String::new()));
}

#[test]
fn save_data_overwrites() {
    let mut agent = fresh();
    save_data(&mut agent, "k", "one", Outcome::Durable).unwrap();
    save_data(&mut agent, "k", "two", Outcome::Durable).unwrap();
    assert_eq!(load_data(&agent, "k"), Ok(String::from("two")));
}

#[test]
fn save_data_reports_a_failed_write_as_text() {
    let mut agent = fresh();
    save_data(&mut agent, "k", "old", Outcome::Durable).unwrap();
    assert_eq!(
        save_data(&mut agent, "k", "new", Outcome::Failed),
        Err(String::from("storage medium unavailable"))
    );
    assert_eq!(load_data(&agent, "k"), Ok(String::from("old")));
}

#[test]
fn load_data_reports_a_damaged_record_as_text() {
    let mut agent = fresh();
    save_data(&mut agent, "good", "fine", Outcome::Durable).unwrap();
    save_data(&mut agent, "bad", "value", Outcome::Durable).unwrap();
    let mut image = agent.image();
    let last = image.len() - 1;
    image[last] ^= 0x04;
    let agent = Agent::start(&image).expect("frames are whole");
    assert_eq!(load_data(&agent, "bad"), Err(String::from("stored record is corrupt")));
    assert_eq!(load_data(&agent, "good"), Ok(String::from("fine")));
}

#[test]
fn load_data_reports_a_value_that_is_not_text() {
    let mut agent = fresh();
    agent.save(&b"raw".to_vec(), vec![0xff, 0xfe, 0x00], Outcome::Durable).unwrap();
    assert_eq!(load_data(&agent, "raw"), Err(String::from("stored value is not text")));
    agent.save(&b"raw".to_vec(), vec![0xe2, 0x9c, 0x93], Outcome::Durable).unwrap();
    assert_eq!(load_data(&agent, "raw"), Ok(String::from("✓")));
}

#[test]
fn saved_text_survives_a_restart() {
    let mut agent = fresh();
    let image = image_after_save_data(&agent, "k", "v");
    save_data(&mut agent, "k", "v", Outcome::Durable).unwrap();
    assert_eq!(agent.image(), image);
    drop(agent);
    let agent = Agent::start(&image).expect("a sound image");
    assert_eq!(load_data(&agent, "k"), Ok(String::from("v")));
}

#[test]
fn schedule_notification_hands_the_text_to_delivery() {
    let mut agent = fresh();
    let image = image_after_schedule_notification(&agent, "Tea", "It is ready ☕", 100, 1_000);
    assert_eq!(
        schedule_notification(&mut agent, "Tea", "It is ready ☕", 100, 1_000, Outcome::Durable),
        Ok(())
    );
    assert_eq!(agent.image(), image);
    assert_eq!(agent.poll(1_099), None);
    assert_eq!(
        agent.poll(1_100),
        Some(Delivery {
            id: NotificationId(0),
            title: "Tea".as_bytes().to_vec(),
            body: "It is ready ☕".as_bytes().to_vec(),
        })
    );
}

#[test]
fn schedule_notification_refuses_a_delay_out_of_range() {
    let mut agent = fresh();
    assert_eq!(
        image_after_schedule_notification(&agent, "t", "b", u64::MAX, 1),
        Vec::<u8>::new()
    );
    assert_eq!(
        schedule_notification(&mut agent, "t", "b", u64::MAX, 1, Outcome::Durable),
        Err(String::from("delay is out of range"))
    );
    assert_eq!(agent.next_wakeup(), None);
    assert_eq!(agent.image(), Vec::<u8>::new());
}

#[test]
fn schedule_notification_reports_a_failed_write_as_text() {
    let mut agent = fresh();
    assert_eq!(
        schedule_notification(&mut agent, "t", "b", 1, 1, Outcome::Failed),
        Err(String::from("storage medium unavailable"))
    );
    assert_eq!(agent.poll(u64::MAX), None);
}

#[test]
fn hundred_texts_under_distinct_keys_are_all_loadable() {
    let mut agent = fresh();
    for i in 0..100u32 {
        let key = format!("key-{}", i);
        let value = format!("value-{}", i);
        assert_eq!(save_data(&mut agent, &key, &value, Outcome::Durable), Ok(()));
    }
    for i in 0..100u32 {
        assert_eq!(load_data(&agent, &format!("key-{}", i)), Ok(format!("value-{}", i)));
    }
}

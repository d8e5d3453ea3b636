use crate::agent::{data_key, Agent};
use crate::notification::HORIZON;
use crate::records::{damaged, put};
use crate::scheduler::{drafted, records_after_schedule};
use crate::store::Outcome;
use crate::wire::{image_of, parse};
use vstd::prelude::*;
use vstd::string::StrSliceExecFns;
use vstd::utf8::{encode_utf8, valid_utf8};

verus! {

/// `String::from_utf8`: where the bytes are UTF-8 the text whose encoding they are, and
/// nothing where they are not.
#[verifier::external_body]
fn text_of(bytes: Vec<u8>) -> (text: Option<String>)
    ensures
        match text {
            Some(t) => valid_utf8(bytes@) && encode_utf8(t@) == bytes@,
            None => !valid_utf8(bytes@),
        },
{
    match String::from_utf8(bytes) {
        Ok(text) => Some(text),
        Err(_) => None,
    }
}

/// The text shown to the host where a stored value is not UTF-8.
pub open spec fn not_text() -> Seq<char> {
    "stored value is not text"@
}

/// The text shown to the host where a notification cannot be scheduled: its due instant
/// lies past the horizon, or no id is left.
pub open spec fn out_of_range() -> Seq<char> {
    "delay is out of range"@
}

/// The text shown to the host where the medium did not take a write.
pub open spec fn unavailable() -> Seq<char> {
    "storage medium unavailable"@
}

/// The text shown to the host where a record fails its integrity check.
pub open spec fn corrupt() -> Seq<char> {
    "stored record is corrupt"@
}

/// Whether the agent can take a notification that falls due `delay_ms` after `now`.
pub open spec fn in_range(agent: &Agent, delay_ms: u64, now: u64) -> bool {
    now + delay_ms <= HORIZON && agent.scheduler().next_id() < u64::MAX
}

/// The image that the medium must hold for `save_data(key, value, ..)` to succeed.
pub fn image_after_save_data(agent: &Agent, key: &str, value: &str) -> (image: Vec<u8>)
    requires
        agent.wf(),
    ensures
        image@ == image_of(
            put(agent.records(), data_key(encode_utf8(key@)), encode_utf8(value@)),
        ),
        parse(image@) == Some(
            put(agent.records(), data_key(encode_utf8(key@)), encode_utf8(value@)),
        ),
{
    let key = key.as_bytes_vec();
    let value = value.as_bytes_vec();
    agent.image_after_save(&key, &value)
}

/// Saves the text `value` under the text `key`, given what the medium answered for
/// `image_after_save_data(key, value)`.
pub fn save_data(agent: &mut Agent, key: &str, value: &str, outcome: Outcome) -> (saved: Result<
    (),
    String,
>)
    requires
        old(agent).wf(),
    ensures
        final(agent).wf(),
        final(agent).pending() == old(agent).pending(),
        final(agent).scheduler().next_id() == old(agent).scheduler().next_id(),
        match outcome {
            Outcome::Durable => {
                &&& saved is Ok
                &&& final(agent).data() == old(agent).data().insert(
                    encode_utf8(key@),
                    encode_utf8(value@),
                )
                &&& !damaged(final(agent).records()).contains(data_key(encode_utf8(key@)))
                &&& final(agent).records() == put(
                    old(agent).records(),
                    data_key(encode_utf8(key@)),
                    encode_utf8(value@),
                )
            },
            Outcome::Failed => {
                &&& saved matches Err(text)
                &&& text@ == unavailable()
                &&& final(agent).records() == old(agent).records()
            },
        },
{
    let key = key.as_bytes_vec();
    let value = value.as_bytes_vec();
    match agent.save(&key, value, outcome) {
        Ok(()) => Ok(()),
        Err(e) => Err(e.message().to_owned()),
    }
}

/// Loads the text saved under `key`: the empty text where none was saved. A record that
/// fails its integrity check and a value that is not UTF-8 are reported.
pub fn load_data(agent: &Agent, key: &str) -> (loaded: Result<String, String>)
    requires
        agent.wf(),
    ensures
        match loaded {
            Ok(text) => {
                &&& !damaged(agent.records()).contains(data_key(encode_utf8(key@)))
                &&& encode_utf8(text@) == if agent.data().dom().contains(encode_utf8(key@)) {
                    agent.data()[encode_utf8(key@)]
                } else {
                    Seq::<u8>::empty()
                }
            },
            Err(text) => if damaged(agent.records()).contains(data_key(encode_utf8(key@))) {
                text@ == corrupt()
            } else {
                &&& agent.data().dom().contains(encode_utf8(key@))
                &&& !valid_utf8(agent.data()[encode_utf8(key@)])
                &&& text@ == not_text()
            },
        },
{
    let key = key.as_bytes_vec();
    match agent.load(&key) {
        Ok(value) => {
            proof {
                assert(valid_utf8(Seq::<u8>::empty()));
            }
            match text_of(value) {
                Some(text) => Ok(text),
                None => Err("stored value is not text".to_owned()),
            }
        },
        Err(e) => Err(e.message().to_owned()),
    }
}

/// The image that the medium must hold for `schedule_notification` with these arguments
/// to succeed: the image as it is where the request is out of range.
pub fn image_after_schedule_notification(
    agent: &Agent,
    title: &str,
    body: &str,
    delay_ms: u64,
    now: u64,
) -> (image: Vec<u8>)
    requires
        agent.wf(),
    ensures
        image@ == image_of(
            if in_range(agent, delay_ms, now) {
                records_after_schedule(
                    agent.records(),
                    drafted(
                        agent.scheduler().next_id(),
                        encode_utf8(title@),
                        encode_utf8(body@),
                        now,
                        delay_ms,
                    ),
                )
            } else {
                agent.records()
            },
        ),
        parse(image@) == Some(
            if in_range(agent, delay_ms, now) {
                records_after_schedule(
                    agent.records(),
                    drafted(
                        agent.scheduler().next_id(),
                        encode_utf8(title@),
                        encode_utf8(body@),
                        now,
                        delay_ms,
                    ),
                )
            } else {
                agent.records()
            },
        ),
{
    if agent.can_schedule(delay_ms, now) {
        let title = title.as_bytes_vec();
        let body = body.as_bytes_vec();
        agent.image_after_schedule(&title, &body, delay_ms, now)
    } else {
        agent.image()
    }
}

/// Schedules a notification with this title and body to be delivered `delay_ms`
/// milliseconds after `now`, given what the medium answered for
/// `image_after_schedule_notification`. A request that is out of range is refused and
/// changes nothing.
pub fn schedule_notification(
    agent: &mut Agent,
    title: &str,
    body: &str,
    delay_ms: u64,
    now: u64,
    outcome: Outcome,
) -> (scheduled: Result<(), String>)
    requires
        old(agent).wf(),
    ensures
        final(agent).wf(),
        final(agent).data() == old(agent).data(),
        if in_range(old(agent), delay_ms, now) && outcome == Outcome::Durable {
            let n = drafted(
                old(agent).scheduler().next_id(),
                encode_utf8(title@),
                encode_utf8(body@),
                now,
                delay_ms,
            );
            &&& scheduled is Ok
            &&& final(agent).pending() == old(agent).pending().push(n)
            &&& final(agent).scheduler().next_id() == n.id + 1
            &&& final(agent).records() == records_after_schedule(old(agent).records(), n)
        } else {
            &&& scheduled matches Err(text)
            &&& text@ == if in_range(old(agent), delay_ms, now) {
                unavailable()
            } else {
                out_of_range()
            }
            &&& final(agent).pending() == old(agent).pending()
            &&& final(agent).scheduler().next_id() == old(agent).scheduler().next_id()
            &&& final(agent).records() == old(agent).records()
        },
{
    if !agent.can_schedule(delay_ms, now) {
        return Err("delay is out of range".to_owned());
    }
    let title = title.as_bytes_vec();
    let body = body.as_bytes_vec();
    match agent.schedule(title, body, delay_ms, now, outcome) {
        Ok(_) => Ok(()),
        Err(e) => Err(e.message().to_owned()),
    }
}

} // verus!

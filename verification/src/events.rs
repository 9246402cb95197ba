//! What the store tells a subscriber, and what a caller that waits for the
//! result of an update does next.

use vstd::prelude::*;
use crate::index::Index;
use crate::keys::{update_key, update_key_spec};
use crate::schema::IndexError;
use crate::status::dec_status;
use crate::update::UpdateStatus;

verus! {

/// What happened under a prefix that is watched.
pub enum Event {
    /// A value was set under a key.
    Insert(Vec<u8>, Vec<u8>),
    /// A key was removed.
    Remove(Vec<u8>),
}

/// Whether the event sets a value. The worker, which waits on the queue while
/// it is empty, goes on at such an event and at no other.
pub fn event_is_set(event: &Event) -> (b: bool)
    ensures
        b == (*event is Insert),
{
    match event {
        Event::Insert(_, _) => true,
        _ => false,
    }
}

/// How far a caller is that waits for the result of an update.
#[derive(Clone, Copy, Debug, PartialEq, Eq, Structural)]
pub enum Waiting {
    /// It has not subscribed yet.
    Start,
    /// It has subscribed to the key of the update among the results, or was
    /// woken by an event there.
    Subscribed,
}

/// What a caller that waits for the result of an update does next.
pub enum WaitAction {
    /// Subscribe to the results under this prefix, then ask again.
    Subscribe(Vec<u8>),
    /// Block until the subscription has an event, then ask again.
    Block,
    /// Hand back the status.
    Return(UpdateStatus),
    /// Hand back the error.
    Fail(IndexError),
}

impl Index {
    /// One step of waiting for the result of update `update_id`.
    ///
    /// The caller subscribes before the results are read for the first time:
    /// an update that is completed between reading and subscribing would
    /// leave it waiting for ever. After that the status is handed back as
    /// soon as it is recorded, and the caller blocks while it is not.
    pub fn update_status_blocking(&self, update_id: u64, state: Waiting) -> (r: (
        Waiting,
        WaitAction,
    ))
        requires
            self.inv(),
        ensures
            r.0 == Waiting::Subscribed,
            match state {
                Waiting::Start => match r.1 {
                    WaitAction::Subscribe(prefix) => prefix@ == update_key_spec(update_id),
                    _ => false,
                },
                Waiting::Subscribed => match self.recorded(update_id) {
                    None => r.1 is Block,
                    Some(bytes) => match dec_status(bytes) {
                        Some(status) => match r.1 {
                            WaitAction::Return(s) => s@ == status,
                            _ => false,
                        },
                        None => match r.1 {
                            WaitAction::Fail(e) => e == IndexError::EncodingFailure,
                            _ => false,
                        },
                    },
                },
            },
    {
        match state {
            Waiting::Start => (Waiting::Subscribed, WaitAction::Subscribe(update_key(update_id))),
            Waiting::Subscribed => match self.update_status(update_id) {
                Ok(Some(status)) => (Waiting::Subscribed, WaitAction::Return(status)),
                Ok(None) => (Waiting::Subscribed, WaitAction::Block),
                Err(e) => (Waiting::Subscribed, WaitAction::Fail(e)),
            },
        }
    }
}

} // verus!

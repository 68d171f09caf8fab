//! The events that a group has for one of its users, gathered in a batch.

use vstd::prelude::*;
use crate::install::RejectionCode;
use crate::scheduler::{one_more, DEFAULT_MAX_BATCH_SIZE};
use crate::types::{Outcome, UserId};

verus! {

/// What a user's node answers to a batch of events.
#[derive(Clone, Copy, Debug, PartialEq, Eq, Structural)]
pub enum NotifyResponse {
    Success,
}

/// The events for one user, in the order in which they were added.
pub struct UserEventBatch<E> {
    user_id: UserId,
    events: Vec<E>,
    attempts: u32,
}

impl<E> View for UserEventBatch<E> {
    type V = Seq<E>;

    closed spec fn view(&self) -> Seq<E> {
        self.events@
    }
}

impl<E> UserEventBatch<E> {
    /// The user that the events are for.
    pub closed spec fn spec_key(&self) -> UserId {
        self.user_id
    }

    /// The deliveries of this batch that have failed so far.
    pub closed spec fn spec_attempts(&self) -> u32 {
        self.attempts
    }

    /// An empty batch for `user_id`.
    pub fn new(user_id: UserId) -> (batch: Self)
        ensures
            batch.spec_key() == user_id,
            batch@ == Seq::<E>::empty(),
            batch.spec_attempts() == 0,
    {
        UserEventBatch { user_id, events: Vec::new(), attempts: 0 }
    }

    /// The user that the events are for.
    #[verifier::when_used_as_spec(spec_key)]
    pub fn key(&self) -> (user_id: UserId)
        ensures
            user_id == self.spec_key(),
    {
        self.user_id
    }

    /// The deliveries of this batch that have failed so far.
    #[verifier::when_used_as_spec(spec_attempts)]
    pub fn attempts(&self) -> (attempts: u32)
        ensures
            attempts == self.spec_attempts(),
    {
        self.attempts
    }

    /// Adds `event` at the end of the batch.
    pub fn add(&mut self, event: E)
        ensures
            final(self)@ == old(self)@.push(event),
            final(self).spec_key() == old(self).spec_key(),
            final(self).spec_attempts() == old(self).spec_attempts(),
    {
        self.events.push(event)
    }

    /// The events of the batch, in order, left where they are.
    pub fn items(&self) -> (events: &Vec<E>)
        ensures
            events@ == self@,
    {
        &self.events
    }

    /// The events of the batch, in order.
    pub fn into_items(self) -> (events: Vec<E>)
        ensures
            events@ == self@,
    {
        self.events
    }

    /// The number of events in the batch.
    pub fn len(&self) -> (n: usize)
        ensures
            n == self@.len(),
    {
        self.events.len()
    }

    /// Whether the batch has reached the size at which it is sent without
    /// waiting for a tick.
    pub fn is_full(&self) -> (full: bool)
        ensures
            full == (self@.len() >= DEFAULT_MAX_BATCH_SIZE),
    {
        self.events.len() >= DEFAULT_MAX_BATCH_SIZE
    }

    /// Resolves the delivery of the batch from the answer of the user's
    /// node: an answer is a success, and a failed call is tried again,
    /// however often it has failed before.
    pub fn process(&mut self, response: Result<NotifyResponse, (RejectionCode,
        String)>) -> (outcome:
        Outcome)
        ensures
            final(self)@ == old(self)@,
            final(self).spec_key() == old(self).spec_key(),
            outcome == match response {
                Ok(NotifyResponse::Success) => Outcome::Success,
                Err(_) => Outcome::Retry { attempts: one_more(old(self).spec_attempts()) },
            },
            final(self).spec_attempts() == match response {
                Ok(NotifyResponse::Success) => old(self).spec_attempts(),
                Err(_) => one_more(old(self).spec_attempts()),
            },
    {
        match response {
            Ok(NotifyResponse::Success) => Outcome::Success,
            Err(_) => {
                if self.attempts < u32::MAX {
                    self.attempts = self.attempts + 1;
                }
                Outcome::Retry { attempts: self.attempts }
            },
        }
    }
}

} // verus!

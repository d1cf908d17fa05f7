//! The message bus: the only crossing between the concurrent network side and
//! the single-threaded simulation side. Both directions are unbounded
//! multi-producer/single-consumer channels; the simulation only ever polls
//! without blocking.

use vstd::prelude::*;

use futures_channel::mpsc::{UnboundedReceiver, UnboundedSender};

use crate::types::IncomingMessage;

verus! {

#[verifier::external_type_specification]
#[verifier::external_body]
#[verifier::reject_recursive_types(T)]
pub struct ExUnboundedSender<T>(UnboundedSender<T>);

#[verifier::external_type_specification]
#[verifier::external_body]
#[verifier::reject_recursive_types(T)]
pub struct ExUnboundedReceiver<T>(UnboundedReceiver<T>);

/// The sending half the simulation holds to push outbound messages.
pub struct MessageSender(UnboundedSender<IncomingMessage>);

impl MessageSender {
    pub fn new(sender: UnboundedSender<IncomingMessage>) -> Self {
        MessageSender(sender)
    }

    /// Relies on futures_channel's UnboundedSender::unbounded_send: queues the
    /// message without blocking; the result tells whether the receiving half
    /// was still there. What the channel later delivers depends on the other
    /// side, so nothing more is promised.
    #[verifier::external_body]
    pub(crate) fn send(&self, msg: IncomingMessage) -> bool {
        self.0.unbounded_send(msg).is_ok()
    }
}

/// The receiving half the simulation drains once per tick.
pub struct MessageReceiver(UnboundedReceiver<IncomingMessage>);

impl MessageReceiver {
    pub fn new(receiver: UnboundedReceiver<IncomingMessage>) -> Self {
        MessageReceiver(receiver)
    }

    /// Relies on futures_channel's UnboundedReceiver::try_recv: hands out the
    /// next queued message without blocking, or nothing when the queue is
    /// empty or closed. Which message (if any) arrives depends on the other
    /// side, so nothing more is promised.
    #[verifier::external_body]
    pub(crate) fn try_recv_message(&mut self) -> Option<IncomingMessage> {
        match self.0.try_recv() {
            Ok(m) => Some(m),
            Err(_) => None,
        }
    }
}

} // verus!

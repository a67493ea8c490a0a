//! The channel that the result of a wait travels through.
//!
//! Whoever holds the sending end of a channel can put one result into it, and gives the end up by
//! doing so. An end that is still held has therefore not been used: its channel is empty.

use vstd::prelude::*;

verus! {

/// The sending end of a channel of the crate `async_channel`.
#[verifier::external_type_specification]
#[verifier::external_body]
#[verifier::reject_recursive_types(T)]
pub struct ExSender<T>(async_channel::Sender<T>);

/// The receiving end of a channel of the crate `async_channel`.
#[verifier::external_type_specification]
#[verifier::external_body]
#[verifier::reject_recursive_types(T)]
pub struct ExReceiver<T>(async_channel::Receiver<T>);

/// How a wait ended.
#[derive(Debug, Clone, Copy, PartialEq, Eq, Structural)]
pub enum WaitForEventsResult {
    Completed,
    Cancelled,
}

/// Whether two ends belong to one channel. An end belongs to the channel it was made for as long
/// as it lives.
pub uninterp spec fn connected(
    sender: async_channel::Sender<WaitForEventsResult>,
    receiver: async_channel::Receiver<WaitForEventsResult>,
) -> bool;

/// How many messages the channel of a sending end was made to hold.
pub uninterp spec fn channel_capacity(
    sender: async_channel::Sender<WaitForEventsResult>,
) -> nat;

/// The only sending end of a channel, nothing having been sent on it. It cannot be copied, and
/// [`offer_message`] alone makes use of it.
#[derive(Debug)]
pub struct ResultSender {
    sender: async_channel::Sender<WaitForEventsResult>,
}

impl View for ResultSender {
    type V = async_channel::Sender<WaitForEventsResult>;

    closed spec fn view(&self) -> async_channel::Sender<WaitForEventsResult> {
        self.sender
    }
}

/// Makes a channel with `async_channel::bounded`: the two ends it returns belong to one channel,
/// which holds at most `capacity` messages at a time. A capacity of zero would make it panic.
#[verifier::external_body]
pub(crate) fn open_channel(capacity: usize) -> (ends: (
    ResultSender,
    async_channel::Receiver<WaitForEventsResult>,
))
    requires
        capacity > 0,
    ensures
        connected(ends.0@, ends.1),
        channel_capacity(ends.0@) == capacity,
{
    let (sender, receiver) = async_channel::bounded(capacity);
    (ResultSender { sender }, receiver)
}

/// That a message was handed to a channel. There is no offer but by [`offer_message`].
pub struct Offer {
    end: Ghost<async_channel::Sender<WaitForEventsResult>>,
    content: Ghost<WaitForEventsResult>,
    delivered: bool,
}

impl Offer {
    /// The sending end that the message was handed to.
    pub closed spec fn end(&self) -> async_channel::Sender<WaitForEventsResult> {
        self.end@
    }

    /// The message.
    pub closed spec fn content(&self) -> WaitForEventsResult {
        self.content@
    }

    /// Whether the channel took the message.
    pub closed spec fn was_taken(&self) -> bool {
        self.delivered
    }

    /// Whether the channel took the message.
    pub fn delivered(&self) -> (delivered: bool)
        ensures
            delivered == self.was_taken(),
    {
        self.delivered
    }
}

/// Hands `message` to the channel of `sender` with `async_channel::Sender::try_send` and drops
/// the end: the offer is of that message to that end. Whether the channel takes the message
/// depends on what it holds and on whether it is still open; nothing is said of that.
#[verifier::external_body]
pub(crate) fn offer_message(sender: ResultSender, message: WaitForEventsResult) -> (offer: Offer)
    ensures
        offer.end() == sender@,
        offer.content() == message,
{
    let delivered = sender.sender.try_send(message).is_ok();
    Offer { end: Ghost(sender@), content: Ghost(message), delivered }
}

} // verus!

//! What a server tells a connected client, as far as the client keeps
//! state for it.

use vstd::prelude::*;
use crate::message::Message;
use crate::state::{Channel, User};

verus! {

/// One inbound event of a session, in the order in which the transport
/// produced it.
#[derive(Debug, PartialEq, Eq)]
pub enum Event {
    /// A channel was created or changed.
    ChannelReceive(Channel),
    /// A channel was deleted.
    ChannelDeleteReceive(Channel),
    /// A user appeared or changed.
    UserReceive(User),
    /// A message: a newly created one where `new` is set, else one out of
    /// the history or an edited one.
    MessageReceive { message: Message, new: bool },
    /// A message was deleted.
    MessageDeleteReceive { id: usize },
    /// The server has sent the whole page that was asked for.
    MessageListReceived,
    /// A user is typing in a channel.
    TypingReceive { author: usize, channel: usize },
    /// The transport failed or was closed: the last event of a session.
    ConnectionLost,
    /// Anything that changes nothing the client keeps.
    Other,
}

/// What the reader of a session queues after one read, and whether it
/// reads on. What the transport produced is queued as it is. A read that
/// failed, for whatever reason, is queued as a lost connection, and nothing
/// is read after a lost connection.
pub fn after_read(read: Option<Event>) -> (next: (Event, bool))
    ensures
        next.0 == match read {
            Some(event) => event,
            None => Event::ConnectionLost,
        },
        next.1 == !(next.0 is ConnectionLost),
{
    match read {
        Some(Event::ConnectionLost) => (Event::ConnectionLost, false),
        Some(event) => (event, true),
        None => (Event::ConnectionLost, false),
    }
}

} // verus!

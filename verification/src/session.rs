//! One authenticated connection to one server, as the consumer sees it: the
//! replica of the server's channels and users, the cached messages, the
//! typing signals and the channel in view.
//!
//! A session changes only by the events of its server, applied one by one in
//! the order in which they came.

use vstd::prelude::*;
use crate::address::Address;
use crate::cache::{holds_id, with_edit, with_message, without_id, Anchor, MessageCache};
use crate::event::Event;
use crate::state::{Channel, ChannelView, State, UserView};
use crate::typing::{noted, Typing, NANOS_PER_SECOND};

verus! {

/// The state kept for one connected server.
pub struct Session {
    /// The server's address, which the session keeps for its lifetime.
    pub addr: Address,
    /// The id that the server gave this client when it logged in.
    pub user: usize,
    /// The channels and users of the server.
    pub state: State,
    /// The channel that the consumer is viewing on this server.
    pub current_channel: Option<usize>,
    /// The cached messages.
    pub messages: MessageCache,
    /// Who is typing.
    pub typing: Typing,
    /// Whether the connection still stands: false once it was lost.
    pub connected: bool,
}

/// What an event does to the replica: a channel or user that the server
/// names is recorded, a channel that it deleted forgotten.
pub open spec fn replica_follows(before: State, after: State, event: Event) -> bool {
    match event {
        Event::ChannelReceive(channel) => {
            &&& after.channels() == before.channels().insert(channel.id, channel@)
            &&& after.users() == before.users()
        },
        Event::ChannelDeleteReceive(channel) => {
            &&& after.channels() == before.channels().remove(channel.id)
            &&& after.users() == before.users()
        },
        Event::UserReceive(user) => {
            &&& after.channels() == before.channels()
            &&& after.users() == before.users().insert(user.id, user@)
        },
        _ => after.channels() == before.channels() && after.users() == before.users(),
    }
}

/// What an event does to the cached messages. A new message is merged into
/// its channel. One that is not new is an edit where its id is held, and a
/// message out of the history where it is not. A deleted one goes.
pub open spec fn cache_follows(before: MessageCache, after: MessageCache, event: Event) -> bool {
    match event {
        Event::MessageReceive { message, new } => forall|channel: usize|
            #[trigger] after.messages(channel) == {
                let held = if new {
                    before.messages(channel)
                } else {
                    with_edit(
                        before.messages(channel),
                        message.id,
                        message.text@,
                        message.timestamp_edit,
                    )
                };
                if channel == message.channel {
                    with_message(held, message@)
                } else {
                    held
                }
            },
        Event::MessageDeleteReceive { id } => forall|channel: usize|
            #[trigger] after.messages(channel) == without_id(before.messages(channel), id),
        _ => forall|channel: usize| #[trigger] after.messages(channel) == before.messages(channel),
    }
}

/// What an event at the time `now` does to the typing signals.
pub open spec fn typing_follows(before: Typing, after: Typing, event: Event, now: u128) -> bool {
    &&& after.last_checked() == before.last_checked()
    &&& after.timeout() == before.timeout()
    &&& after.notes() == match event {
        Event::TypingReceive { author, channel } => noted(before.notes(), author, channel, now),
        _ => before.notes(),
    }
}

/// The channel that an event is about, if it is about one. For a deleted
/// message it is a channel that held the message.
pub open spec fn implicates(before: MessageCache, event: Event, channel: Option<usize>) -> bool {
    match event {
        Event::ChannelReceive(named) => channel == Some(named.id),
        Event::ChannelDeleteReceive(named) => channel == Some(named.id),
        Event::MessageReceive { message, new } => channel == Some(message.channel),
        Event::MessageDeleteReceive { id } => match channel {
            Some(held_in) => holds_id(before.messages(held_in), id),
            None => !before.holds(id),
        },
        Event::TypingReceive { author, channel: typed_in } => channel == Some(typed_in),
        _ => channel is None,
    }
}

/// `after` is `before` with `event` applied at the time `now`, and `channel`
/// is the channel that the event is about.
pub open spec fn applied(
    before: Session,
    after: Session,
    event: Event,
    now: u128,
    channel: Option<usize>,
) -> bool {
    &&& after.addr == before.addr
    &&& after.user == before.user
    &&& after.current_channel == before.current_channel
    &&& after.connected == (before.connected && !(event is ConnectionLost))
    &&& replica_follows(before.state, after.state, event)
    &&& cache_follows(before.messages, after.messages, event)
    &&& typing_follows(before.typing, after.typing, event, now)
    &&& implicates(before.messages, event, channel)
}

/// `after` is `before` with `events` applied one after the other, each at
/// some time, and `channels` names for each event the channel it is about.
pub open spec fn drained(
    before: Session,
    after: Session,
    events: Seq<Event>,
    channels: Seq<Option<usize>>,
) -> bool
    decreases events.len(),
{
    if events.len() == 0 {
        after == before && channels.len() == 0
    } else {
        &&& channels.len() == events.len()
        &&& exists|mid: Session, now: u128|
            drained(before, mid, events.drop_last(), channels.drop_last()) && #[trigger] applied(
                mid,
                after,
                events.last(),
                now,
                channels.last(),
            )
    }
}

/// `session` is the session of the user `user` on the server at `addr`
/// right after login: connected, with nothing known or cached, no channel
/// in view, nobody typing, and the given timeout for typing signals.
pub open spec fn just_opened(
    session: Session,
    addr: Address,
    user: usize,
    typing_timeout_secs: u64,
) -> bool {
    &&& session.addr == addr
    &&& session.user == user
    &&& session.current_channel is None
    &&& session.connected
    &&& session.state.channels() == Map::<usize, ChannelView>::empty()
    &&& session.state.users() == Map::<usize, UserView>::empty()
    &&& forall|channel: usize| #[trigger] session.messages.messages(channel).len() == 0
    &&& session.typing.notes().len() == 0
    &&& session.typing.last_checked() == 0
    &&& session.typing.timeout() == typing_timeout_secs * NANOS_PER_SECOND
}

impl Session {
    /// The channel in view, where the server still has it.
    pub fn channel_in_view(&self) -> (found: Option<&Channel>)
        ensures
            match found {
                Some(channel) => {
                    &&& self.current_channel is Some
                    &&& self.state.channels().contains_key(self.current_channel.unwrap())
                    &&& channel@ == self.state.channels()[self.current_channel.unwrap()]
                },
                None => self.current_channel is None || !self.state.channels().contains_key(
                    self.current_channel.unwrap(),
                ),
            },
    {
        match self.current_channel {
            Some(id) => self.state.channel(id),
            None => None,
        }
    }

    /// The session of the user `user` on the server at `addr`, fresh after
    /// login: nothing is known or cached yet, and no channel is in view.
    /// Typing signals are dropped `typing_timeout_secs` seconds after they came.
    pub fn new(addr: Address, user: usize, typing_timeout_secs: u64) -> (session: Session)
        ensures
            just_opened(session, addr, user, typing_timeout_secs),
    {
        Session {
            addr,
            user,
            state: State::new(),
            current_channel: None,
            messages: MessageCache::new(),
            typing: Typing::new(typing_timeout_secs),
            connected: true,
        }
    }

    /// Applies one event of the server at the time `now` and tells which
    /// channel it is about.
    pub fn apply_at(&mut self, event: &Event, now: u128) -> (channel: Option<usize>)
        ensures
            applied(*old(self), *final(self), *event, now, channel),
    {
        match event {
            Event::ChannelReceive(channel) => {
                self.state.put_channel(channel.clone());
                Some(channel.id)
            },
            Event::ChannelDeleteReceive(channel) => {
                self.state.remove_channel(channel.id);
                Some(channel.id)
            },
            Event::UserReceive(user) => {
                self.state.put_user(user.clone());
                None
            },
            Event::MessageReceive { message, new } => {
                if *new {
                    self.messages.push(message.clone());
                } else {
                    self.messages.update(message.id, message.text.clone(), message.timestamp_edit);
                    self.messages.store(message.clone(), Anchor::Before);
                }
                Some(message.channel)
            },
            Event::MessageDeleteReceive { id } => {
                let channel = self.messages.channel_of(*id);
                self.messages.delete(*id);
                channel
            },
            Event::MessageListReceived => None,
            Event::TypingReceive { author, channel } => {
                self.typing.insert_at(*author, *channel, now);
                Some(*channel)
            },
            Event::ConnectionLost => {
                self.connected = false;
                None
            },
            Event::Other => None,
        }
    }

    /// Applies one event of the server at the time that the clock shows.
    pub fn apply(&mut self, event: &Event) -> (channel: Option<usize>)
        ensures
            exists|now: u128| #[trigger] applied(*old(self), *final(self), *event, now, channel),
    {
        let now = self.typing.now();
        self.apply_at(event, now)
    }
}

} // verus!

//! What the consumer asks of a server, and when: pages of messages, typing
//! signals, commands for bots, and what to do when sending fails.
//!
//! Nothing here writes to a socket. Each function decides and hands back
//! what is to be sent; the caller sends it.

use vstd::prelude::*;
use std::time::Instant;
use crate::cache::views;
use crate::clock::nanos_since;
use crate::message::{Message, MessageView};
use crate::mode::{grants, permits, Permissions};
use crate::session::Session;
use crate::state::{State, UserView};
use crate::typing::{elapsed, NANOS_PER_SECOND};

verus! {

/// A page of messages to ask a server for: those of `channel` before or
/// after a message, or the newest where neither is given.
#[derive(Clone, Copy, Debug, PartialEq, Eq, Structural)]
pub struct PageRequest {
    pub channel: usize,
    pub before: Option<usize>,
    pub after: Option<usize>,
}

/// What has become of the wish to view a channel.
#[derive(Clone, Copy, Debug, PartialEq, Eq, Structural)]
pub enum Entered {
    /// The user may not read the channel. Nothing has changed.
    Denied,
    /// The channel is in view. `can_write` says whether the user may write
    /// there, and `fetch` is the first page, to be asked for where no
    /// message of the channel is cached yet.
    Open { can_write: bool, fetch: Option<PageRequest> },
}

/// Whether a mode grants a permission, where a mode that is not known is
/// taken to grant it.
pub open spec fn grants_or_unknown(mode: Option<u8>, bit: u8) -> bool {
    match mode {
        Some(mode) => grants(mode, bit),
        None => true,
    }
}

/// The first page of `channel`.
pub open spec fn first_page(channel: usize) -> PageRequest {
    PageRequest { channel, before: None, after: None }
}

/// Why sending to a server failed.
#[derive(Clone, Copy, Debug, PartialEq, Eq, Structural)]
pub enum SendFailure {
    /// The connection was reset: the other side is gone.
    ConnectionReset,
    /// Anything else.
    Other,
}

/// What to do about a failure to send.
#[derive(Clone, Copy, Debug, PartialEq, Eq, Structural)]
pub enum Recovery {
    /// Connect again with the credentials on record, and send again.
    Reconnect,
    /// Tell the user.
    Surface,
}

/// What to do about a failure to send: after a reset the client connects
/// again, once; every other failure, and a second one in a row, is shown to
/// the user.
pub fn recovery(failure: SendFailure, reconnected: bool) -> (what: Recovery)
    ensures
        what == if failure == SendFailure::ConnectionReset && !reconnected {
            Recovery::Reconnect
        } else {
            Recovery::Surface
        },
{
    match failure {
        SendFailure::ConnectionReset => if reconnected {
            Recovery::Surface
        } else {
            Recovery::Reconnect
        },
        SendFailure::Other => Recovery::Surface,
    }
}

/// `message` is the last message of `run` that `author` wrote.
pub open spec fn is_last_by(run: Seq<MessageView>, author: usize, message: MessageView) -> bool {
    exists|i: int|
        0 <= i < run.len() && #[trigger] run[i] == message && message.author == author && forall|
            j: int,
        |
            i < j < run.len() ==> run[j].author != author
}

impl Session {
    /// Brings `channel` into view, if the user may read it. `mode` is the
    /// user's mode in the channel, where the channel and the user are both
    /// known; a mode that is not known is taken to allow everything.
    pub fn enter_channel(&mut self, channel: usize, mode: Option<u8>, bits: &Permissions) -> (entered:
        Entered)
        ensures
            entered == if !grants_or_unknown(mode, bits.read) {
                Entered::Denied
            } else {
                Entered::Open {
                    can_write: grants_or_unknown(mode, bits.write),
                    fetch: if old(self).messages.messages(channel).len() > 0 {
                        None
                    } else {
                        Some(first_page(channel))
                    },
                }
            },
            final(self).current_channel == if entered is Denied {
                old(self).current_channel
            } else {
                Some(channel)
            },
            final(self).addr == old(self).addr,
            final(self).user == old(self).user,
            final(self).state == old(self).state,
            final(self).messages == old(self).messages,
            final(self).typing == old(self).typing,
            final(self).connected == old(self).connected,
    {
        let can_read = match mode {
            Some(mode) => permits(mode, bits.read),
            None => true,
        };
        if !can_read {
            return Entered::Denied;
        }
        let can_write = match mode {
            Some(mode) => permits(mode, bits.write),
            None => true,
        };
        self.current_channel = Some(channel);
        let fetch = if self.messages.has(channel) {
            None
        } else {
            Some(PageRequest { channel, before: None, after: None })
        };
        Entered::Open { can_write, fetch }
    }

    /// The page before the oldest message cached for the channel in view:
    /// what to ask for when the consumer scrolls to the top. Without a
    /// cached message it is the first page, and without a channel in view
    /// there is nothing to ask for.
    pub fn older_page(&self) -> (request: Option<PageRequest>)
        ensures
            request == match self.current_channel {
                Some(channel) => Some(
                    PageRequest {
                        channel,
                        before: if self.messages.messages(channel).len() > 0 {
                            Some(self.messages.messages(channel)[0].id)
                        } else {
                            None
                        },
                        after: None,
                    },
                ),
                None => None,
            },
    {
        match self.current_channel {
            Some(channel) => {
                let before = match self.messages.first(channel) {
                    Some(oldest) => Some(oldest.id),
                    None => None,
                };
                Some(PageRequest { channel, before, after: None })
            },
            None => None,
        }
    }

    /// The newest message in the channel in view that this client's user
    /// wrote: the one to edit when the user asks for their last message.
    pub fn last_own_message(&self) -> (found: Option<&Message>)
        ensures
            match found {
                Some(message) => {
                    &&& self.current_channel is Some
                    &&& message.author == self.user
                    &&& is_last_by(
                        self.messages.messages(self.current_channel.unwrap()),
                        self.user,
                        message@,
                    )
                },
                None => match self.current_channel {
                    Some(channel) => forall|i: int|
                        0 <= i < self.messages.messages(channel).len()
                            ==> #[trigger] self.messages.messages(channel)[i].author != self.user,
                    None => true,
                },
            },
    {
        match self.current_channel {
            Some(channel) => {
                let run = self.messages.get(channel);
                let ghost values = self.messages.messages(channel);
                let mut i: usize = run.len();
                while i > 0
                    invariant
                        i <= run.len(),
                        self.current_channel == Some(channel),
                        values == self.messages.messages(channel),
                        values == views(run@),
                        forall|j: int| i <= j < run.len() ==> values[j].author != self.user,
                    decreases i,
                {
                    i -= 1;
                    if run[i].author == self.user {
                        assert(values[i as int] == run[i as int]@);
                        assert(is_last_by(values, self.user, run[i as int]@));
                        return Some(&run[i]);
                    }
                }
                None
            },
            None => None,
        }
    }
}

/// Spaces out the typing signals that this client sends: at most one in
/// each interval, however fast the user types.
pub struct Throttle {
    started: Instant,
    last: u128,
    interval: u128,
}

impl Throttle {
    /// The time of the last signal, in nanoseconds since the throttle was made.
    pub closed spec fn last(self) -> u128 {
        self.last
    }

    /// The least time between two signals, in nanoseconds.
    pub closed spec fn interval(self) -> u128 {
        self.interval
    }

    /// A throttle for typing signals to a server that forgets a signal
    /// after `timeout_secs` seconds: it lets one through in each half of
    /// that time, in whole seconds. The first wait starts now.
    pub fn for_typing(timeout_secs: u64) -> (throttle: Throttle)
        ensures
            throttle.last() == 0,
            throttle.interval() == (timeout_secs / 2) * NANOS_PER_SECOND,
    {
        let seconds: u128 = (timeout_secs / 2) as u128;
        assert(seconds * NANOS_PER_SECOND <= u128::MAX) by (nonlinear_arith)
            requires
                seconds <= u64::MAX,
                NANOS_PER_SECOND == 1_000_000_000,
        ;
        Throttle { started: Instant::now(), last: 0, interval: seconds * NANOS_PER_SECOND }
    }

    /// Whether a signal may go out at the time `now`. It may where the
    /// interval has passed since the last one, and it then counts as sent.
    pub fn ready_at(&mut self, now: u128) -> (ready: bool)
        ensures
            ready == (elapsed(old(self).last(), now) >= old(self).interval()),
            final(self).interval() == old(self).interval(),
            final(self).last() == if ready {
                now
            } else {
                old(self).last()
            },
    {
        let waited = if now >= self.last {
            now - self.last
        } else {
            0
        };
        if waited < self.interval {
            false
        } else {
            self.last = now;
            true
        }
    }

    /// Whether a signal may go out at the time that the clock shows.
    pub fn ready(&mut self) -> (ready: bool)
        ensures
            final(self).interval() == old(self).interval(),
            exists|now: u128|
                ready == (#[trigger] elapsed(old(self).last(), now) >= old(self).interval())
                    && final(self).last() == if ready {
                    now
                } else {
                    old(self).last()
                },
    {
        let now = nanos_since(self.started);
        self.ready_at(now)
    }
}

/// A command for a bot: the bot's user id and the words for it.
#[derive(Debug, PartialEq, Eq)]
pub struct Command {
    pub recipient: usize,
    pub args: Vec<String>,
}

/// Why a line is no command.
#[derive(Clone, Copy, Debug, PartialEq, Eq, Structural)]
pub enum CommandError {
    /// A command names a bot and gives it at least one word.
    Usage,
    /// No bot goes by the name given.
    NoSuchBot,
}

/// The user `user` is a bot that goes by `name`.
pub open spec fn is_bot_named(user: UserView, name: Seq<char>) -> bool {
    user.bot && user.name == name
}

/// Some known user is a bot that goes by `name`.
pub open spec fn bot_known(users: Map<usize, UserView>, name: Seq<char>) -> bool {
    exists|id: usize| users.contains_key(id) && is_bot_named(#[trigger] users[id], name)
}

/// Whether a line that the user entered is a command for a bot: it is one
/// where it begins with an exclamation mark.
pub fn is_command(line: &str) -> (command: bool)
    ensures
        command == (line@.len() > 0 && line@[0] == '!'),
{
    if line.is_empty() {
        false
    } else {
        line.get_char(0) == '!'
    }
}

/// Makes a command of the words of a command line: the first names the
/// bot, the rest is for the bot.
pub fn command_target(state: &State, words: Vec<String>) -> (command: Result<Command, CommandError>)
    ensures
        match command {
            Ok(command) => {
                &&& words.len() >= 2
                &&& state.users().contains_key(command.recipient)
                &&& is_bot_named(state.users()[command.recipient], words[0]@)
                &&& command.args@ == words@.skip(1)
            },
            Err(CommandError::Usage) => words.len() < 2,
            Err(CommandError::NoSuchBot) => words.len() >= 2 && !bot_known(
                state.users(),
                words[0]@,
            ),
        },
{
    if words.len() < 2 {
        return Err(CommandError::Usage);
    }
    let users = state.user_list();
    let mut i: usize = 0;
    while i < users.len()
        invariant
            i <= users.len(),
            words.len() >= 2,
            forall|k: int|
                0 <= k < users.len() ==> state.users().contains_key(#[trigger] users[k].id)
                    && state.users()[users[k].id] == users[k]@,
            forall|k: int| 0 <= k < i ==> !is_bot_named(users[k]@, words[0]@),
        decreases users.len() - i,
    {
        if users[i].bot && users[i].name == words[0] {
            let recipient = users[i].id;
            let mut args = words;
            let ghost all = args@;
            args.remove(0);
            assert(args@ =~= all.skip(1));
            return Ok(Command { recipient, args });
        }
        i += 1;
    }
    proof {
        assert forall|id: usize| state.users().contains_key(id) implies !is_bot_named(
            #[trigger] state.users()[id],
            words[0]@,
        ) by {
            let k = choose|k: int| 0 <= k < users.len() && #[trigger] users[k].id == id;
            assert(!is_bot_named(users[k]@, words[0]@));
        }
    }
    Err(CommandError::NoSuchBot)
}

} // verus!

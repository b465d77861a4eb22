//! The local replica of what a server knows: its channels and its users.
//!
//! The replica changes only when the server pushes a channel or a user; the
//! consumer asks the server and waits for the push.

use vstd::prelude::*;
use crate::keyed::{distinct, lemma_table_absent, lemma_table_at, lemma_table_push, lemma_table_remove, lemma_table_replace, place_of, stands_at, table};

verus! {

/// A channel of a server.
#[derive(Debug, PartialEq, Eq)]
pub struct Channel {
    pub id: usize,
    pub name: String,
    pub private: bool,
    /// The permission bits of a bot that has no mode of its own here.
    pub default_mode_bot: u8,
    /// The permission bits of a human that has no mode of their own here.
    pub default_mode_user: u8,
}

/// The mathematical value of a [`Channel`].
pub struct ChannelView {
    pub id: usize,
    pub name: Seq<char>,
    pub private: bool,
    pub default_mode_bot: u8,
    pub default_mode_user: u8,
}

impl View for Channel {
    type V = ChannelView;

    open spec fn view(&self) -> ChannelView {
        ChannelView {
            id: self.id,
            name: self.name@,
            private: self.private,
            default_mode_bot: self.default_mode_bot,
            default_mode_user: self.default_mode_user,
        }
    }
}

impl Clone for Channel {
    fn clone(&self) -> (copy: Channel)
        ensures
            copy@ == self@,
    {
        Channel {
            id: self.id,
            name: self.name.clone(),
            private: self.private,
            default_mode_bot: self.default_mode_bot,
            default_mode_user: self.default_mode_user,
        }
    }
}

/// The permission bits that a user has in one channel in place of the
/// channel's default.
#[derive(Clone, Copy, Debug, PartialEq, Eq, Structural)]
pub struct ModeOverride {
    pub channel: usize,
    pub mode: u8,
}

/// A user of a server.
#[derive(Debug, PartialEq, Eq)]
pub struct User {
    pub id: usize,
    pub name: String,
    pub admin: bool,
    pub bot: bool,
    pub ban: bool,
    pub modes: Vec<ModeOverride>,
}

/// The mathematical value of a [`User`].
pub struct UserView {
    pub id: usize,
    pub name: Seq<char>,
    pub admin: bool,
    pub bot: bool,
    pub ban: bool,
    pub modes: Seq<ModeOverride>,
}

impl View for User {
    type V = UserView;

    open spec fn view(&self) -> UserView {
        UserView {
            id: self.id,
            name: self.name@,
            admin: self.admin,
            bot: self.bot,
            ban: self.ban,
            modes: self.modes@,
        }
    }
}

impl Clone for User {
    fn clone(&self) -> (copy: User)
        ensures
            copy@ == self@,
    {
        User {
            id: self.id,
            name: self.name.clone(),
            admin: self.admin,
            bot: self.bot,
            ban: self.ban,
            modes: self.modes.clone(),
        }
    }
}

/// The first mode in `modes` that is given for `channel`.
pub open spec fn override_in(modes: Seq<ModeOverride>, channel: usize) -> Option<u8>
    decreases modes.len(),
{
    if modes.len() == 0 {
        None
    } else if modes[0].channel == channel {
        Some(modes[0].mode)
    } else {
        override_in(modes.drop_first(), channel)
    }
}

impl User {
    /// The mode that this user has of their own in `channel`, if any.
    pub fn mode_in(&self, channel: usize) -> (mode: Option<u8>)
        ensures
            mode == override_in(self.modes@, channel),
    {
        let mut i: usize = 0;
        assert(self.modes@.skip(0) =~= self.modes@);
        while i < self.modes.len()
            invariant
                i <= self.modes.len(),
                override_in(self.modes@, channel) == override_in(
                    self.modes@.skip(i as int),
                    channel,
                ),
            decreases self.modes.len() - i,
        {
            if self.modes[i].channel == channel {
                assert(self.modes@.skip(i as int)[0] == self.modes@[i as int]);
                return Some(self.modes[i].mode);
            }
            assert(self.modes@.skip(i as int).drop_first() =~= self.modes@.skip(i + 1));
            i += 1;
        }
        None
    }
}

/// The ids of a run of channels.
spec fn channel_ids(channels: Seq<Channel>) -> Seq<usize> {
    channels.map_values(|c: Channel| c.id)
}

/// The values of a run of channels.
spec fn channel_views(channels: Seq<Channel>) -> Seq<ChannelView> {
    channels.map_values(|c: Channel| c@)
}

/// The ids of a run of users.
spec fn user_ids(users: Seq<User>) -> Seq<usize> {
    users.map_values(|u: User| u.id)
}

/// The values of a run of users.
spec fn user_views(users: Seq<User>) -> Seq<UserView> {
    users.map_values(|u: User| u@)
}

/// The index at which the channel `id` stands, if it is listed.
fn find_channel(channels: &Vec<Channel>, id: usize) -> (found: Option<usize>)
    ensures
        match found {
            Some(i) => 0 <= i < channels.len() && channels[i as int].id == id,
            None => forall|k: int| 0 <= k < channels.len() ==> channels[k].id != id,
        },
{
    let mut i: usize = 0;
    while i < channels.len()
        invariant
            i <= channels.len(),
            forall|k: int| 0 <= k < i ==> channels[k].id != id,
        decreases channels.len() - i,
    {
        if channels[i].id == id {
            return Some(i);
        }
        i += 1;
    }
    None
}

/// The index at which the user `id` stands, if they are listed.
fn find_user(users: &Vec<User>, id: usize) -> (found: Option<usize>)
    ensures
        match found {
            Some(i) => 0 <= i < users.len() && users[i as int].id == id,
            None => forall|k: int| 0 <= k < users.len() ==> users[k].id != id,
        },
{
    let mut i: usize = 0;
    while i < users.len()
        invariant
            i <= users.len(),
            forall|k: int| 0 <= k < i ==> users[k].id != id,
        decreases users.len() - i,
    {
        if users[i].id == id {
            return Some(i);
        }
        i += 1;
    }
    None
}

/// What a session knows of its server: the channels and the users, each
/// found by its id.
pub struct State {
    channels: Vec<Channel>,
    users: Vec<User>,
}

impl State {
    #[verifier::type_invariant]
    closed spec fn inv(self) -> bool {
        &&& distinct(channel_ids(self.channels@))
        &&& distinct(user_ids(self.users@))
    }

    /// The channels known, by id.
    pub closed spec fn channels(self) -> Map<usize, ChannelView> {
        table(channel_ids(self.channels@), channel_views(self.channels@))
    }

    /// The users known, by id.
    pub closed spec fn users(self) -> Map<usize, UserView> {
        table(user_ids(self.users@), user_views(self.users@))
    }

    /// A replica that knows nothing yet.
    pub fn new() -> (state: State)
        ensures
            state.channels() == Map::<usize, ChannelView>::empty(),
            state.users() == Map::<usize, UserView>::empty(),
    {
        let state = State { channels: Vec::new(), users: Vec::new() };
        assert(state.channels() =~= Map::<usize, ChannelView>::empty()) by {
            assert(forall|id: usize, i: int| !stands_at(channel_ids(state.channels@), id, i));
        }
        assert(state.users() =~= Map::<usize, UserView>::empty()) by {
            assert(forall|id: usize, i: int| !stands_at(user_ids(state.users@), id, i));
        }
        state
    }

    /// The channel `id`, if it is known.
    pub fn channel(&self, id: usize) -> (found: Option<&Channel>)
        ensures
            match found {
                Some(channel) => self.channels().contains_key(id) && channel@
                    == self.channels()[id],
                None => !self.channels().contains_key(id),
            },
    {
        proof {
            use_type_invariant(self);
        }
        let ghost ids = channel_ids(self.channels@);
        let ghost values = channel_views(self.channels@);
        match find_channel(&self.channels, id) {
            Some(i) => {
                proof {
                    lemma_table_at(ids, values, i as int);
                }
                Some(&self.channels[i])
            },
            None => {
                proof {
                    lemma_table_absent(ids, values, id);
                }
                None
            },
        }
    }

    /// The user `id`, if they are known.
    pub fn user(&self, id: usize) -> (found: Option<&User>)
        ensures
            match found {
                Some(user) => self.users().contains_key(id) && user@ == self.users()[id],
                None => !self.users().contains_key(id),
            },
    {
        proof {
            use_type_invariant(self);
        }
        let ghost ids = user_ids(self.users@);
        let ghost values = user_views(self.users@);
        match find_user(&self.users, id) {
            Some(i) => {
                proof {
                    lemma_table_at(ids, values, i as int);
                }
                Some(&self.users[i])
            },
            None => {
                proof {
                    lemma_table_absent(ids, values, id);
                }
                None
            },
        }
    }

    /// Records a channel that the server pushed: a new one is added, a known
    /// one replaced.
    pub fn put_channel(&mut self, channel: Channel)
        ensures
            final(self).channels() == old(self).channels().insert(channel.id, channel@),
            final(self).users() == old(self).users(),
    {
        proof {
            use_type_invariant(&*self);
        }
        let mut channels: Vec<Channel> = Vec::new();
        std::mem::swap(&mut self.channels, &mut channels);
        let ghost ids = channel_ids(channels@);
        let ghost values = channel_views(channels@);
        match find_channel(&channels, channel.id) {
            Some(i) => {
                proof {
                    lemma_table_replace(ids, values, i as int, channel@);
                }
                channels[i] = channel;
                assert(channel_ids(channels@) =~= ids);
                assert(channel_views(channels@) =~= values.update(i as int, channel@));
            },
            None => {
                proof {
                    lemma_table_push(ids, values, channel.id, channel@);
                }
                channels.push(channel);
                assert(channel_ids(channels@) =~= ids.push(channel.id));
                assert(channel_views(channels@) =~= values.push(channel@));
            },
        }
        self.channels = channels;
    }

    /// Forgets a channel that the server deleted; an unknown id changes
    /// nothing.
    pub fn remove_channel(&mut self, id: usize)
        ensures
            final(self).channels() == old(self).channels().remove(id),
            final(self).users() == old(self).users(),
    {
        proof {
            use_type_invariant(&*self);
        }
        let mut channels: Vec<Channel> = Vec::new();
        std::mem::swap(&mut self.channels, &mut channels);
        let ghost ids = channel_ids(channels@);
        let ghost values = channel_views(channels@);
        match find_channel(&channels, id) {
            Some(i) => {
                proof {
                    lemma_table_remove(ids, values, i as int);
                }
                channels.remove(i);
                assert(channel_ids(channels@) =~= ids.remove(i as int));
                assert(channel_views(channels@) =~= values.remove(i as int));
            },
            None => {
                proof {
                    lemma_table_absent(ids, values, id);
                    assert(table(ids, values).remove(id) =~= table(ids, values));
                }
            },
        }
        self.channels = channels;
    }

    /// Records a user that the server pushed: a new one is added, a known one
    /// replaced.
    pub fn put_user(&mut self, user: User)
        ensures
            final(self).users() == old(self).users().insert(user.id, user@),
            final(self).channels() == old(self).channels(),
    {
        proof {
            use_type_invariant(&*self);
        }
        let mut users: Vec<User> = Vec::new();
        std::mem::swap(&mut self.users, &mut users);
        let ghost ids = user_ids(users@);
        let ghost values = user_views(users@);
        match find_user(&users, user.id) {
            Some(i) => {
                proof {
                    lemma_table_replace(ids, values, i as int, user@);
                }
                users[i] = user;
                assert(user_ids(users@) =~= ids);
                assert(user_views(users@) =~= values.update(i as int, user@));
            },
            None => {
                proof {
                    lemma_table_push(ids, values, user.id, user@);
                }
                users.push(user);
                assert(user_ids(users@) =~= ids.push(user.id));
                assert(user_views(users@) =~= values.push(user@));
            },
        }
        self.users = users;
    }

    /// Every known channel, once each.
    pub fn channel_list(&self) -> (list: &[Channel])
        ensures
            forall|i: int|
                0 <= i < list.len() ==> self.channels().contains_key(#[trigger] list[i].id)
                    && self.channels()[list[i].id] == list[i]@,
            forall|i: int, j: int| 0 <= i < j < list.len() ==> list[i].id != list[j].id,
            forall|id: usize|
                self.channels().contains_key(id) ==> exists|i: int|
                    0 <= i < list.len() && #[trigger] list[i].id == id,
    {
        proof {
            use_type_invariant(self);
            let ids = channel_ids(self.channels@);
            let values = channel_views(self.channels@);
            assert forall|i: int| 0 <= i < self.channels.len() implies self.channels().contains_key(
                #[trigger] self.channels[i].id,
            ) && self.channels()[self.channels[i].id] == self.channels[i]@ by {
                lemma_table_at(ids, values, i);
            }
            assert forall|id: usize| self.channels().contains_key(id) implies exists|i: int|
                0 <= i < self.channels.len() && #[trigger] self.channels[i].id == id by {
                let i = place_of(ids, id);
                assert(stands_at(ids, id, i));
                assert(self.channels[i].id == id);
            }
            assert forall|i: int, j: int| 0 <= i < j < self.channels.len() implies self.channels[i].id
                != self.channels[j].id by {
                assert(ids[i] != ids[j]);
            }
        }
        self.channels.as_slice()
    }

    /// Every known user, once each.
    pub fn user_list(&self) -> (list: &[User])
        ensures
            forall|i: int|
                0 <= i < list.len() ==> self.users().contains_key(#[trigger] list[i].id)
                    && self.users()[list[i].id] == list[i]@,
            forall|i: int, j: int| 0 <= i < j < list.len() ==> list[i].id != list[j].id,
            forall|id: usize|
                self.users().contains_key(id) ==> exists|i: int|
                    0 <= i < list.len() && #[trigger] list[i].id == id,
    {
        proof {
            use_type_invariant(self);
            let ids = user_ids(self.users@);
            let values = user_views(self.users@);
            assert forall|i: int| 0 <= i < self.users.len() implies self.users().contains_key(
                #[trigger] self.users[i].id,
            ) && self.users()[self.users[i].id] == self.users[i]@ by {
                lemma_table_at(ids, values, i);
            }
            assert forall|id: usize| self.users().contains_key(id) implies exists|i: int|
                0 <= i < self.users.len() && #[trigger] self.users[i].id == id by {
                let i = place_of(ids, id);
                assert(stands_at(ids, id, i));
                assert(self.users[i].id == id);
            }
            assert forall|i: int, j: int| 0 <= i < j < self.users.len() implies self.users[i].id
                != self.users[j].id by {
                assert(ids[i] != ids[j]);
            }
        }
        self.users.as_slice()
    }
}

} // verus!

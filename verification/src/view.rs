//! What the consumer shows: the rows of the lists of channels, messages and
//! users, what the menus offer, and what is drawn again after events.
//!
//! The widgets are the consumer's. These functions decide, from the state
//! of a session, what goes on them.

use vstd::prelude::*;
use crate::address::Address;
use crate::cache::views;
use crate::event::Event;
use crate::message::{Message, MessageView};
use crate::mode::{grants, permits, Permissions};
use crate::order::{in_name_order, names_of, order_by_name, precedes};
use crate::registry::Delivery;
use crate::seq_facts::lemma_filter_drops;
use crate::session::Session;
use crate::state::{Channel, State};

verus! {

/// The seconds after which a message of the same author gets a heading of
/// its own again: five minutes.
pub const GROUP_SECONDS: i64 = 300;

/// One row of the list of channels.
#[derive(Debug, PartialEq, Eq)]
pub struct ChannelRow {
    pub id: usize,
    /// The name of the channel behind a number sign.
    pub label: String,
}

/// The label of a channel named `name`.
pub open spec fn label_of(name: Seq<char>) -> Seq<char> {
    seq!['#'] + name
}

/// The rows of the list of channels: one for each known channel, in the
/// order of the names.
pub fn channel_rows(state: &State) -> (rows: Vec<ChannelRow>)
    ensures
        rows.len() == state.channels().len(),
        forall|i: int|
            0 <= i < rows.len() ==> state.channels().contains_key(#[trigger] rows[i].id)
                && rows[i].label@ == label_of(state.channels()[rows[i].id].name),
        forall|i: int, j: int| 0 <= i < j < rows.len() ==> rows[i].id != rows[j].id,
        forall|i: int, j: int|
            0 <= i < j < rows.len() ==> !precedes(
                state.channels()[rows[j].id].name,
                state.channels()[rows[i].id].name,
            ),
{
    let channels = state.channel_list();
    let mut names: Vec<String> = Vec::new();
    let mut k: usize = 0;
    while k < channels.len()
        invariant
            k <= channels.len(),
            names.len() == k,
            forall|i: int| 0 <= i < k ==> names[i]@ == channels[i].name@,
        decreases channels.len() - k,
    {
        names.push(channels[k].name.clone());
        k += 1;
    }
    let order = order_by_name(&names);
    let ghost values = names_of(names@);
    let mut rows: Vec<ChannelRow> = Vec::new();
    let mut r: usize = 0;
    while r < order.len()
        invariant
            r <= order.len(),
            rows.len() == r,
            order.len() == channels.len(),
            names.len() == channels.len(),
            forall|i: int| 0 <= i < order.len() ==> order[i] < channels.len(),
            forall|i: int|
                0 <= i < r ==> (#[trigger] rows[i]).id == channels[order[i] as int].id
                    && rows[i].label@ == label_of(channels[order[i] as int].name@),
        decreases order.len() - r,
    {
        let channel = &channels[order[r]];
        let mut label = String::from_str("#");
        proof {
            reveal_strlit("#");
            assert("#"@ =~= seq!['#']);
        }
        label.append(channel.name.as_str());
        rows.push(ChannelRow { id: channel.id, label });
        r += 1;
    }
    proof {
        assert forall|i: int| 0 <= i < rows.len() implies state.channels().contains_key(
            #[trigger] rows[i].id,
        ) && rows[i].label@ == label_of(state.channels()[rows[i].id].name) by {
            let at = order[i] as int;
            assert(state.channels().contains_key(channels[at].id));
        }
        assert forall|i: int, j: int| 0 <= i < j < rows.len() implies rows[i].id
            != rows[j].id by {
            assert(order[i] != order[j]);
        }
        assert forall|i: int, j: int| 0 <= i < j < rows.len() implies !precedes(
            state.channels()[rows[j].id].name,
            state.channels()[rows[i].id].name,
        ) by {
            let a = order[i] as int;
            let b = order[j] as int;
            assert(state.channels().contains_key(channels[a].id));
            assert(state.channels().contains_key(channels[b].id));
            assert(values[a] == channels[a].name@);
            assert(values[b] == channels[b].name@);
        }
        lemma_list_counts(state, channels@);
    }
    rows
}

/// A list that holds every channel of `state` once has as many members as
/// `state` has channels.
proof fn lemma_list_counts(state: &State, list: Seq<Channel>)
    requires
        forall|i: int|
            0 <= i < list.len() ==> state.channels().contains_key(#[trigger] list[i].id),
        forall|i: int, j: int| 0 <= i < j < list.len() ==> list[i].id != list[j].id,
        forall|id: usize|
            state.channels().contains_key(id) ==> exists|i: int|
                0 <= i < list.len() && #[trigger] list[i].id == id,
    ensures
        state.channels().dom().finite(),
        list.len() == state.channels().len(),
{
    let ids = list.map_values(|c: Channel| c.id);
    assert(ids.no_duplicates());
    ids.unique_seq_to_set();
    assert(ids.to_set() =~= state.channels().dom()) by {
        assert forall|id: usize| ids.to_set().contains(id) implies state.channels().dom().contains(
            id,
        ) by {
            let i = choose|i: int| 0 <= i < ids.len() && ids[i] == id;
            assert(state.channels().contains_key(list[i].id));
        }
        assert forall|id: usize| state.channels().dom().contains(id) implies ids.to_set().contains(
            id,
        ) by {
            let i = choose|i: int| 0 <= i < list.len() && #[trigger] list[i].id == id;
            assert(ids[i] == id);
        }
    }
}

/// What is to be drawn again.
#[derive(Clone, Copy, Debug, PartialEq, Eq, Structural)]
pub struct Redraw {
    pub channels: bool,
    pub messages: bool,
    pub users: bool,
    /// Whether the list of messages moves to its end.
    pub scroll_to_bottom: bool,
}

/// A list on the screen.
#[derive(Clone, Copy, Debug, PartialEq, Eq, Structural)]
pub enum Pane {
    Channels,
    Messages,
    Users,
}

/// Nothing is to be drawn again.
pub open spec fn nothing() -> Redraw {
    Redraw { channels: false, messages: false, users: false, scroll_to_bottom: false }
}

/// What is to be drawn again once `event` has come, where `redraw` was to
/// be drawn before. A change of a channel marks the channels, a change of a
/// user the users. A deleted message and the end of a page mark the
/// messages, and the end of a page moves them to their end. A message marks
/// the messages where it is new, and takes the mark off where it is not.
pub open spec fn noticed(redraw: Redraw, event: Event) -> Redraw {
    match event {
        Event::ChannelReceive(_) => Redraw { channels: true, ..redraw },
        Event::ChannelDeleteReceive(_) => Redraw { channels: true, ..redraw },
        Event::MessageDeleteReceive { id } => Redraw { messages: true, ..redraw },
        Event::MessageListReceived => Redraw { messages: true, scroll_to_bottom: true, ..redraw },
        Event::MessageReceive { message, new } => Redraw { messages: new, ..redraw },
        Event::UserReceive(_) => Redraw { users: true, ..redraw },
        _ => redraw,
    }
}

/// What is to be drawn again after `deliveries`, where the server at
/// `current` is shown: only its events count.
pub open spec fn redraw_after(deliveries: Seq<Delivery>, current: Option<Address>) -> Redraw
    decreases deliveries.len(),
{
    if deliveries.len() == 0 {
        nothing()
    } else {
        let before = redraw_after(deliveries.drop_last(), current);
        if current == Some(deliveries.last().address) {
            noticed(before, deliveries.last().event)
        } else {
            before
        }
    }
}

/// What is to be drawn again after the events that a drain delivered,
/// where the server at `current` is shown.
pub fn redraw_for(deliveries: &Vec<Delivery>, current: Option<Address>) -> (redraw: Redraw)
    ensures
        redraw == redraw_after(deliveries@, current),
{
    let mut redraw = Redraw {
        channels: false,
        messages: false,
        users: false,
        scroll_to_bottom: false,
    };
    let mut i: usize = 0;
    assert(deliveries@.take(0) =~= Seq::<Delivery>::empty());
    while i < deliveries.len()
        invariant
            i <= deliveries.len(),
            redraw == redraw_after(deliveries@.take(i as int), current),
        decreases deliveries.len() - i,
    {
        let delivery = &deliveries[i];
        proof {
            assert(deliveries@.take(i + 1).drop_last() =~= deliveries@.take(i as int));
            assert(deliveries@.take(i + 1).last() == *delivery);
        }
        let shown = match current {
            Some(address) => address == delivery.address,
            None => false,
        };
        if shown {
            match &delivery.event {
                Event::ChannelReceive(_) => {
                    redraw.channels = true;
                },
                Event::ChannelDeleteReceive(_) => {
                    redraw.channels = true;
                },
                Event::MessageDeleteReceive { id } => {
                    redraw.messages = true;
                },
                Event::MessageListReceived => {
                    redraw.messages = true;
                    redraw.scroll_to_bottom = true;
                },
                Event::MessageReceive { message, new } => {
                    redraw.messages = *new;
                },
                Event::UserReceive(_) => {
                    redraw.users = true;
                },
                _ => {},
            }
        }
        i += 1;
    }
    assert(deliveries@.take(i as int) =~= deliveries@);
    redraw
}

/// The one list that is drawn again: the channels before the messages, and
/// the messages before the users.
pub fn pane(redraw: Redraw) -> (pane: Option<Pane>)
    ensures
        pane == if redraw.channels {
            Some(Pane::Channels)
        } else if redraw.messages {
            Some(Pane::Messages)
        } else if redraw.users {
            Some(Pane::Users)
        } else {
            None
        },
{
    if redraw.channels {
        Some(Pane::Channels)
    } else if redraw.messages {
        Some(Pane::Messages)
    } else if redraw.users {
        Some(Pane::Users)
    } else {
        None
    }
}

/// The headline of the notice of a message: who wrote it, and where.
pub open spec fn notice_summary(author: Seq<char>, channel: Seq<char>) -> Seq<char> {
    author + " (#"@ + channel + ")"@
}

/// Whether a message is worth a notice on the desktop: a new message of
/// somebody else, while the window is not active, in a known channel and
/// by a known author.
pub open spec fn is_notable(
    session: Session,
    message: MessageView,
    new: bool,
    channel: Option<usize>,
    window_active: bool,
) -> bool {
    &&& new
    &&& message.author != session.user
    &&& !window_active
    &&& channel is Some
    &&& session.state.channels().contains_key(channel.unwrap())
    &&& session.state.users().contains_key(message.author)
}

/// The headline of the notice that a message is worth, if it is worth one.
/// `channel` is the channel that the delivery of the message names.
/// Whether the channel is muted is the consumer's to look up.
pub fn notice(
    session: &Session,
    message: &Message,
    new: bool,
    channel: Option<usize>,
    window_active: bool,
) -> (summary: Option<String>)
    ensures
        match summary {
            Some(summary) => is_notable(*session, message@, new, channel, window_active)
                && summary@ == notice_summary(
                session.state.users()[message.author].name,
                session.state.channels()[channel.unwrap()].name,
            ),
            None => !is_notable(*session, message@, new, channel, window_active),
        },
{
    if !new || message.author == session.user || window_active {
        return None;
    }
    let channel = match channel {
        Some(id) => match session.state.channel(id) {
            Some(channel) => channel,
            None => {
                return None;
            },
        },
        None => {
            return None;
        },
    };
    let author = match session.state.user(message.author) {
        Some(author) => author,
        None => {
            return None;
        },
    };
    let mut summary = author.name.clone();
    summary.append(" (#");
    summary.append(channel.name.as_str());
    summary.append(")");
    Some(summary)
}

/// One row of the list of messages.
#[derive(Clone, Copy, Debug, PartialEq, Eq, Structural)]
pub struct MessageRow {
    /// The id of the message.
    pub id: usize,
    /// Whether the author and the time stand above the message.
    pub heading: bool,
    /// Whether a line parts the message from the one before.
    pub separator: bool,
    /// Whether this client's user wrote the message.
    pub mine: bool,
}

/// Whether `message` gets a heading, coming after `previous`: the first
/// message does, one by another author than the message before does, and one
/// that came more than five minutes after the message before.
pub open spec fn starts_group(previous: Option<MessageView>, message: MessageView) -> bool {
    match previous {
        None => true,
        Some(previous) => previous.author != message.author || previous.timestamp + GROUP_SECONDS
            < message.timestamp,
    }
}

/// The row of the message at `i` in `run`, for the user `user`.
pub open spec fn row_at(run: Seq<MessageView>, user: usize, i: int) -> MessageRow {
    let previous = if i == 0 {
        None
    } else {
        Some(run[i - 1])
    };
    MessageRow {
        id: run[i].id,
        heading: starts_group(previous, run[i]),
        separator: i > 0 && starts_group(previous, run[i]),
        mine: run[i].author == user,
    }
}

/// The rows of a run of messages, for the user `user`.
pub open spec fn rows_of(run: Seq<MessageView>, user: usize) -> Seq<MessageRow> {
    Seq::new(run.len(), |i: int| row_at(run, user, i))
}

/// The rows of the list of messages: one for each message cached for the
/// channel in view, oldest first; none without a channel in view.
pub fn message_rows(session: &Session) -> (rows: Vec<MessageRow>)
    ensures
        rows@ == match session.current_channel {
            Some(channel) => rows_of(session.messages.messages(channel), session.user),
            None => Seq::empty(),
        },
{
    let mut rows: Vec<MessageRow> = Vec::new();
    match session.current_channel {
        Some(channel) => {
            let run = session.messages.get(channel);
            let ghost values = views(run@);
            let mut i: usize = 0;
            while i < run.len()
                invariant
                    i <= run.len(),
                    values == views(run@),
                    rows.len() == i,
                    forall|k: int| 0 <= k < i ==> rows[k] == row_at(values, session.user, k),
                decreases run.len() - i,
            {
                let message = &run[i];
                let heading = if i == 0 {
                    true
                } else {
                    let previous = &run[i - 1];
                    assert(values[i - 1] == previous@);
                    previous.author != message.author || (previous.timestamp as i128) + (
                    GROUP_SECONDS as i128) < (message.timestamp as i128)
                };
                assert(values[i as int] == message@);
                rows.push(
                    MessageRow {
                        id: message.id,
                        heading,
                        separator: i > 0 && heading,
                        mine: message.author == session.user,
                    },
                );
                i += 1;
            }
            assert(rows@ =~= rows_of(values, session.user));
        },
        None => {},
    }
    rows
}

/// The time that stands above a message: when it was written and, where
/// it was edited, when that was. The times come in as they are to be read.
pub fn time_label(written: &str, edited: Option<&str>) -> (label: String)
    ensures
        label@ == match edited {
            Some(edited) => written@ + " (edited "@ + edited@ + ")"@,
            None => written@,
        },
{
    let mut label = String::from_str(written);
    match edited {
        Some(edited) => {
            label.append(" (edited ");
            label.append(edited);
            label.append(")");
        },
        None => {},
    }
    label
}

/// What the menu of a message offers.
#[derive(Clone, Copy, Debug, PartialEq, Eq, Structural)]
pub struct MessageActions {
    pub edit: bool,
    pub delete: bool,
}

/// What the menu of a message offers: its author may edit and delete it,
/// and so may delete it who manages the messages of the channel. `mode` is
/// the user's mode in the channel in view, where it is known.
pub fn message_actions(mine: bool, mode: Option<u8>, bits: &Permissions) -> (actions:
    MessageActions)
    ensures
        actions.edit == mine,
        actions.delete == (mine || match mode {
            Some(mode) => grants(mode, bits.manage_messages),
            None => false,
        }),
{
    let may_manage = match mode {
        Some(mode) => permits(mode, bits.manage_messages),
        None => false,
    };
    MessageActions { edit: mine, delete: mine || may_manage }
}

/// What the menu of a channel offers.
#[derive(Clone, Copy, Debug, PartialEq, Eq, Structural)]
pub enum ChannelMenu {
    /// No menu: the user may not read the channel, or their mode is not known.
    Hidden,
    /// A menu, with or without the entries that edit and delete the channel.
    Shown { manage: bool },
}

/// What the menu of a channel offers. `mode` is the user's mode in the
/// channel, where it is known.
pub fn channel_menu(mode: Option<u8>, bits: &Permissions) -> (menu: ChannelMenu)
    ensures
        menu == match mode {
            Some(mode) => if grants(mode, bits.read) {
                ChannelMenu::Shown { manage: grants(mode, bits.manage_channels) }
            } else {
                ChannelMenu::Hidden
            },
            None => ChannelMenu::Hidden,
        },
{
    match mode {
        Some(mode) => if permits(mode, bits.read) {
            ChannelMenu::Shown { manage: permits(mode, bits.manage_channels) }
        } else {
            ChannelMenu::Hidden
        },
        None => ChannelMenu::Hidden,
    }
}

/// A user as the list of users needs them: the name, whether they are
/// banned, and their mode in the channel in view.
#[derive(Debug, PartialEq, Eq)]
pub struct Member {
    pub id: usize,
    pub name: String,
    pub ban: bool,
    pub mode: u8,
}

/// The three parts of the list of users, each as places in the list of
/// members.
#[derive(Debug, PartialEq, Eq)]
pub struct Roster {
    /// Who can read the channel in view.
    pub here: Vec<usize>,
    /// Who cannot.
    pub elsewhere: Vec<usize>,
    /// Who is banned.
    pub banned: Vec<usize>,
}

/// The part of the list of users that a member belongs to.
#[derive(Clone, Copy, Debug, PartialEq, Eq, Structural)]
pub enum Part {
    Here,
    Elsewhere,
    Banned,
}

/// The part that a member belongs to: the banned have their own, and the
/// others are parted by whether they can read the channel.
pub open spec fn part_of(ban: bool, mode: u8, bits: Permissions) -> Part {
    if ban {
        Part::Banned
    } else if grants(mode, bits.read) {
        Part::Here
    } else {
        Part::Elsewhere
    }
}

/// The names of a run of members.
pub open spec fn member_names(members: Seq<Member>) -> Seq<Seq<char>> {
    members.map_values(|m: Member| m.name@)
}

/// `list` holds, once each and in the order of the names, the places of
/// the members that belong to `part`.
pub open spec fn lists_part(list: Seq<usize>, members: Seq<Member>, bits: Permissions, part: Part) -> bool {
    &&& list.no_duplicates()
    &&& in_name_order(member_names(members), list)
    &&& forall|at: usize|
        list.contains(at) <==> at < members.len() && part_of(
            members[at as int].ban,
            members[at as int].mode,
            bits,
        ) == part
}

/// The list of users in its three parts, each in the order of the names.
pub fn roster(members: &Vec<Member>, bits: &Permissions) -> (roster: Roster)
    ensures
        lists_part(roster.here@, members@, *bits, Part::Here),
        lists_part(roster.elsewhere@, members@, *bits, Part::Elsewhere),
        lists_part(roster.banned@, members@, *bits, Part::Banned),
{
    let mut names: Vec<String> = Vec::new();
    let mut k: usize = 0;
    while k < members.len()
        invariant
            k <= members.len(),
            names.len() == k,
            forall|i: int| 0 <= i < k ==> names[i]@ == members[i].name@,
        decreases members.len() - k,
    {
        names.push(members[k].name.clone());
        k += 1;
    }
    assert(names_of(names@) =~= member_names(members@));
    let order = order_by_name(&names);
    let ghost values = member_names(members@);
    let mut here: Vec<usize> = Vec::new();
    let mut elsewhere: Vec<usize> = Vec::new();
    let mut banned: Vec<usize> = Vec::new();
    let mut r: usize = 0;
    proof {
        lemma_filter_drops(order@.take(0), in_part(members@, *bits, Part::Here));
        lemma_filter_drops(order@.take(0), in_part(members@, *bits, Part::Elsewhere));
        lemma_filter_drops(order@.take(0), in_part(members@, *bits, Part::Banned));
    }
    while r < order.len()
        invariant
            r <= order.len(),
            order.len() == members.len(),
            order@.no_duplicates(),
            forall|i: int| 0 <= i < order.len() ==> order[i] < members.len(),
            values == member_names(members@),
            in_name_order(values, order@),
            part_done(here@, order@, r as int, members@, *bits, Part::Here),
            part_done(elsewhere@, order@, r as int, members@, *bits, Part::Elsewhere),
            part_done(banned@, order@, r as int, members@, *bits, Part::Banned),
        decreases order.len() - r,
    {
        let at = order[r];
        let member = &members[at];
        let ghost part = part_of(member.ban, member.mode, *bits);
        proof {
            lemma_part_grows(here@, order@, r as int, members@, *bits, Part::Here);
            lemma_part_grows(elsewhere@, order@, r as int, members@, *bits, Part::Elsewhere);
            lemma_part_grows(banned@, order@, r as int, members@, *bits, Part::Banned);
        }
        if member.ban {
            banned.push(at);
        } else if permits(member.mode, bits.read) {
            here.push(at);
        } else {
            elsewhere.push(at);
        }
        r += 1;
    }
    proof {
        lemma_part_listed(here@, order@, members@, *bits, Part::Here);
        lemma_part_listed(elsewhere@, order@, members@, *bits, Part::Elsewhere);
        lemma_part_listed(banned@, order@, members@, *bits, Part::Banned);
    }
    Roster { here, elsewhere, banned }
}

/// Picks the places of the members that belong to `part`.
spec fn in_part(members: Seq<Member>, bits: Permissions, part: Part) -> spec_fn(usize) -> bool {
    |at: usize|
        at < members.len() && part_of(members[at as int].ban, members[at as int].mode, bits)
            == part
}

/// `list` is what the first `done` places of `order` give for `part`.
spec fn part_done(
    list: Seq<usize>,
    order: Seq<usize>,
    done: int,
    members: Seq<Member>,
    bits: Permissions,
    part: Part,
) -> bool {
    list == order.take(done).filter(in_part(members, bits, part))
}

/// One more place of `order` adds itself to the list of its part and
/// nothing to the others.
proof fn lemma_part_grows(
    list: Seq<usize>,
    order: Seq<usize>,
    done: int,
    members: Seq<Member>,
    bits: Permissions,
    part: Part,
)
    requires
        0 <= done < order.len(),
        part_done(list, order, done, members, bits, part),
    ensures
        part_done(
            if in_part(members, bits, part)(order[done]) {
                list.push(order[done])
            } else {
                list
            },
            order,
            done + 1,
            members,
            bits,
            part,
        ),
{
    assert(order.take(done + 1) =~= order.take(done).push(order[done]));
    order.take(done).lemma_filter_push(order[done], in_part(members, bits, part));
}

/// What all of `order` gives for `part` lists that part.
proof fn lemma_part_listed(
    list: Seq<usize>,
    order: Seq<usize>,
    members: Seq<Member>,
    bits: Permissions,
    part: Part,
)
    requires
        part_done(list, order, order.len() as int, members, bits, part),
        order.len() == members.len(),
        order.len() <= usize::MAX,
        order.no_duplicates(),
        forall|i: int| 0 <= i < order.len() ==> order[i] < members.len(),
        in_name_order(member_names(members), order),
    ensures
        lists_part(list, members, bits, part),
{
    let pick = in_part(members, bits, part);
    assert(order.take(order.len() as int) =~= order);
    lemma_filter_keeps_order(order, pick);
    let places = choose|places: Seq<int>| is_pick_of(list, order, places);
    assert forall|i: int, j: int| 0 <= i < j < list.len() implies list[i] != list[j]
        && !precedes(
        member_names(members)[list[j] as int],
        member_names(members)[list[i] as int],
    ) by {
        assert(list[i] == order[places[i]]);
        assert(list[j] == order[places[j]]);
        assert(places[i] < places[j]);
    }
    assert forall|at: usize| list.contains(at) <==> pick(at) by {
        if list.contains(at) {
            let i = choose|i: int| 0 <= i < list.len() && list[i] == at;
            order.lemma_filter_pred(pick, i);
        }
        if pick(at) {
            lemma_arrangement_covers(order, at);
            let k = choose|k: int| 0 <= k < order.len() && order[k] == at;
            order.lemma_filter_contains(pick, k);
        }
    }
}

/// `list` is `whole` at the places `places`, which go up.
spec fn is_pick_of(list: Seq<usize>, whole: Seq<usize>, places: Seq<int>) -> bool {
    &&& places.len() == list.len()
    &&& forall|i: int| 0 <= i < places.len() ==> 0 <= #[trigger] places[i] < whole.len()
    &&& forall|i: int, j: int| 0 <= i < j < places.len() ==> places[i] < places[j]
    &&& forall|i: int| 0 <= i < list.len() ==> #[trigger] list[i] == whole[places[i]]
}

/// What a filter keeps stands in the order in which it stood.
proof fn lemma_filter_keeps_order(whole: Seq<usize>, pick: spec_fn(usize) -> bool)
    ensures
        exists|places: Seq<int>| is_pick_of(whole.filter(pick), whole, places),
    decreases whole.len(),
{
    reveal(Seq::filter);
    if whole.len() == 0 {
        assert(is_pick_of(whole.filter(pick), whole, Seq::<int>::empty()));
    } else {
        let front = whole.drop_last();
        lemma_filter_keeps_order(front, pick);
        let places = choose|places: Seq<int>| is_pick_of(front.filter(pick), front, places);
        if pick(whole.last()) {
            let more = places.push(whole.len() - 1);
            assert(is_pick_of(whole.filter(pick), whole, more)) by {
                assert forall|i: int| 0 <= i < more.len() implies 0 <= #[trigger] more[i]
                    < whole.len() by {
                    if i < places.len() {
                        assert(more[i] == places[i]);
                    }
                }
                assert forall|i: int, j: int| 0 <= i < j < more.len() implies more[i]
                    < more[j] by {
                    assert(more[i] == places[i]);
                    if j < places.len() {
                        assert(more[j] == places[j]);
                    }
                }
                assert forall|i: int| 0 <= i < whole.filter(pick).len() implies #[trigger] whole.filter(
                    pick,
                )[i] == whole[more[i]] by {
                    if i < places.len() {
                        assert(front.filter(pick)[i] == front[places[i]]);
                    }
                }
            }
        } else {
            assert(is_pick_of(whole.filter(pick), whole, places)) by {
                assert forall|i: int| 0 <= i < whole.filter(pick).len() implies #[trigger] whole.filter(
                    pick,
                )[i] == whole[places[i]] by {
                    assert(front.filter(pick)[i] == front[places[i]]);
                }
            }
        }
    }
}

/// A list that names `n` places below `n` without naming one twice names
/// every place below `n`.
proof fn lemma_arrangement_covers(order: Seq<usize>, at: usize)
    requires
        order.no_duplicates(),
        order.len() <= usize::MAX,
        forall|i: int| 0 <= i < order.len() ==> order[i] < order.len(),
        at < order.len(),
    ensures
        exists|k: int| 0 <= k < order.len() && order[k] == at,
{
    let n = order.len() as usize;
    let named = order.to_set();
    order.unique_seq_to_set();
    let below = Set::<usize>::new(|x: usize| x < n);
    lemma_below_counts(n);
    assert(named.subset_of(below)) by {
        assert forall|x: usize| named.contains(x) implies below.contains(x) by {
            let i = choose|i: int| 0 <= i < order.len() && order[i] == x;
        }
    }
    vstd::set_lib::lemma_subset_equality(named, below);
    assert(named.contains(at));
}

/// There are `n` numbers below `n`.
proof fn lemma_below_counts(n: usize)
    ensures
        Set::<usize>::new(|x: usize| x < n).finite(),
        Set::<usize>::new(|x: usize| x < n).len() == n,
    decreases n,
{
    let below = Set::<usize>::new(|x: usize| x < n);
    if n == 0 {
        assert(below =~= Set::<usize>::empty());
    } else {
        let fewer = Set::<usize>::new(|x: usize| x < (n - 1) as usize);
        lemma_below_counts((n - 1) as usize);
        assert(below =~= fewer.insert((n - 1) as usize));
    }
}

} // verus!

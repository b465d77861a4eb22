//! The sessions of all connected servers, each under its address, with the
//! server in focus and the nickname that all of them share.
//!
//! Inbound events wait in a queue per session until the consumer drains
//! them; draining never waits for more.

use vstd::prelude::*;
use std::collections::VecDeque;
use crate::address::Address;
use crate::connect::ConnectError;
use crate::event::Event;
use crate::keyed::{
    distinct, lemma_table_absent, lemma_table_at, lemma_table_push, lemma_table_remove,
    lemma_table_replace, place_of, stands_at, table,
};
use crate::seq_facts::{lemma_filter_drops, lemma_filter_keeps};
use crate::session::{applied, drained, Session};

verus! {

/// One event handed to the consumer: the session it belongs to, the event,
/// and the channel it is about, if any.
#[derive(Debug, PartialEq, Eq)]
pub struct Delivery {
    pub address: Address,
    pub event: Event,
    pub channel: Option<usize>,
}

/// The events of a run of deliveries.
pub open spec fn events_of(deliveries: Seq<Delivery>) -> Seq<Event> {
    deliveries.map_values(|d: Delivery| d.event)
}

/// The channels of a run of deliveries.
pub open spec fn channels_of(deliveries: Seq<Delivery>) -> Seq<Option<usize>> {
    deliveries.map_values(|d: Delivery| d.channel)
}

/// Picks the deliveries of the session at `address`.
pub open spec fn is_for(address: Address) -> spec_fn(Delivery) -> bool {
    |d: Delivery| d.address == address
}

/// The deliveries of the session at `address`, in the order of `deliveries`.
pub open spec fn deliveries_for(deliveries: Seq<Delivery>, address: Address) -> Seq<Delivery> {
    deliveries.filter(is_for(address))
}

/// One session of the registry with the events that wait for it.
struct Entry {
    address: Address,
    session: Session,
    inbox: VecDeque<Event>,
}

/// The addresses of a run of entries.
spec fn keys(entries: Seq<Entry>) -> Seq<Address> {
    entries.map_values(|e: Entry| e.address)
}

/// The sessions of a run of entries.
spec fn sessions_of(entries: Seq<Entry>) -> Seq<Session> {
    entries.map_values(|e: Entry| e.session)
}

/// The waiting events of a run of entries.
spec fn inboxes_of(entries: Seq<Entry>) -> Seq<Seq<Event>> {
    entries.map_values(|e: Entry| e.inbox@)
}

/// The index at which the entry of `address` stands, if there is one.
fn find(entries: &Vec<Entry>, address: Address) -> (found: Option<usize>)
    ensures
        match found {
            Some(i) => 0 <= i < entries.len() && entries[i as int].address == address,
            None => forall|k: int| 0 <= k < entries.len() ==> entries[k].address != address,
        },
{
    let mut i: usize = 0;
    while i < entries.len()
        invariant
            i <= entries.len(),
            forall|k: int| 0 <= k < i ==> entries[k].address != address,
        decreases entries.len() - i,
    {
        if entries[i].address == address {
            return Some(i);
        }
        i += 1;
    }
    None
}

/// Applies the events that wait for `entry`, oldest first, and adds a
/// delivery for each to `deliveries`.
fn drain_entry(entry: &mut Entry, deliveries: &mut Vec<Delivery>)
    ensures
        final(entry).address == old(entry).address,
        final(entry).inbox@.len() == 0,
        final(deliveries)@.len() >= old(deliveries)@.len(),
        final(deliveries)@.take(old(deliveries)@.len() as int) == old(deliveries)@,
        ({
            let batch = final(deliveries)@.skip(old(deliveries)@.len() as int);
            &&& forall|k: int| 0 <= k < batch.len() ==> batch[k].address == old(entry).address
            &&& events_of(batch) == old(entry).inbox@
            &&& drained(
                old(entry).session,
                final(entry).session,
                old(entry).inbox@,
                channels_of(batch),
            )
        }),
{
    let ghost start = deliveries@;
    let ghost waiting = entry.inbox@;
    let ghost first = entry.session;
    let address = entry.address;
    assert(deliveries@.skip(start.len() as int) =~= Seq::<Delivery>::empty());
    assert(events_of(Seq::<Delivery>::empty()) =~= waiting.take(0));
    while entry.inbox.len() > 0
        invariant
            entry.address == address,
            address == old(entry).address,
            waiting == old(entry).inbox@,
            first == old(entry).session,
            start == old(deliveries)@,
            deliveries@.len() >= start.len(),
            deliveries@.take(start.len() as int) == start,
            deliveries@.len() - start.len() + entry.inbox@.len() == waiting.len(),
            entry.inbox@ == waiting.skip(deliveries@.len() - start.len()),
            ({
                let batch = deliveries@.skip(start.len() as int);
                &&& forall|k: int| 0 <= k < batch.len() ==> batch[k].address == address
                &&& events_of(batch) == waiting.take(batch.len() as int)
                &&& drained(first, entry.session, events_of(batch), channels_of(batch))
            }),
        decreases entry.inbox@.len(),
    {
        let ghost batch = deliveries@.skip(start.len() as int);
        let ghost mid = entry.session;
        let event = entry.inbox.pop_front().unwrap();
        let channel = entry.session.apply(&event);
        deliveries.push(Delivery { address, event, channel });
        proof {
            let done = batch.len() as int;
            let next = deliveries@.skip(start.len() as int);
            assert(event == waiting[done]);
            assert(next =~= batch.push(Delivery { address, event, channel }));
            assert(deliveries@.take(start.len() as int) =~= start);
            assert(entry.inbox@ =~= waiting.skip(done + 1));
            assert(events_of(next) =~= waiting.take(done + 1));
            assert(events_of(next).drop_last() =~= events_of(batch));
            assert(channels_of(next).drop_last() =~= channels_of(batch));
            assert(events_of(next).last() == event);
            assert(channels_of(next).last() == channel);
            let now = choose|now: u128| #[trigger] applied(mid, entry.session, event, now, channel);
            assert(applied(
                mid,
                entry.session,
                events_of(next).last(),
                now,
                channels_of(next).last(),
            ));
        }
    }
    proof {
        let batch = deliveries@.skip(start.len() as int);
        assert(waiting.take(batch.len() as int) =~= waiting);
    }
}

/// What a batch of deliveries of one sender, added at the end, does to the
/// deliveries of an address: it is added for the sender and changes nothing
/// for any other.
proof fn lemma_batch_added(
    before: Seq<Delivery>,
    after: Seq<Delivery>,
    sender: Address,
    address: Address,
)
    requires
        after.len() >= before.len(),
        after.take(before.len() as int) == before,
        forall|k: int| before.len() <= k < after.len() ==> after[k].address == sender,
    ensures
        deliveries_for(after, address) == if address == sender {
            deliveries_for(before, address) + after.skip(before.len() as int)
        } else {
            deliveries_for(before, address)
        },
{
    let batch = after.skip(before.len() as int);
    assert(after =~= before + batch);
    Seq::filter_distributes_over_add(before, batch, is_for(address));
    if address == sender {
        lemma_filter_keeps(batch, is_for(address));
    } else {
        lemma_filter_drops(batch, is_for(address));
        assert(deliveries_for(before, address) + Seq::<Delivery>::empty() =~= deliveries_for(
            before,
            address,
        ));
    }
}

/// The events of `before` have been applied and delivered, and `after` is
/// what has become of it.
spec fn settled(before: Entry, after: Entry, deliveries: Seq<Delivery>) -> bool {
    let batch = deliveries_for(deliveries, before.address);
    &&& after.address == before.address
    &&& after.inbox@.len() == 0
    &&& events_of(batch) == before.inbox@
    &&& drained(before.session, after.session, before.inbox@, channels_of(batch))
}

/// The connections of the client: every session under the address of its
/// server, the address in focus, and the nickname.
pub struct Registry {
    entries: Vec<Entry>,
    current: Option<Address>,
    nick: String,
}

impl Registry {
    /// No address has two sessions.
    pub closed spec fn wf(self) -> bool {
        distinct(keys(self.entries@))
    }

    /// The sessions, by address.
    pub closed spec fn sessions(self) -> Map<Address, Session> {
        table(keys(self.entries@), sessions_of(self.entries@))
    }

    /// The events that wait for each session, oldest first.
    pub closed spec fn queued(self) -> Map<Address, Seq<Event>> {
        table(keys(self.entries@), inboxes_of(self.entries@))
    }

    /// The address that was last put in focus, whether or not it still has a
    /// session.
    pub closed spec fn focus(self) -> Option<Address> {
        self.current
    }

    /// The nickname shared by all sessions.
    pub closed spec fn display_name(self) -> Seq<char> {
        self.nick@
    }

    /// The server that the consumer displays: the address in focus where it
    /// has a session, none where it has not.
    pub open spec fn shown(self) -> Option<Address> {
        match self.focus() {
            Some(address) => if self.sessions().contains_key(address) {
                Some(address)
            } else {
                None
            },
            None => None,
        }
    }

    /// A registry without sessions, for the user who goes by `nick`.
    pub fn new(nick: String) -> (registry: Registry)
        ensures
            registry.wf(),
            registry.sessions() == Map::<Address, Session>::empty(),
            registry.queued() == Map::<Address, Seq<Event>>::empty(),
            registry.focus() is None,
            registry.display_name() == nick@,
    {
        let registry = Registry { entries: Vec::new(), current: None, nick };
        proof {
            assert(registry.sessions() =~= Map::<Address, Session>::empty()) by {
                assert(forall|a: Address, i: int| !stands_at(keys(registry.entries@), a, i));
            }
            assert(registry.queued() =~= Map::<Address, Seq<Event>>::empty()) by {
                assert(forall|a: Address, i: int| !stands_at(keys(registry.entries@), a, i));
            }
        }
        registry
    }

    /// Puts `session` under `address`, in place of the session that was
    /// there, if any. No event waits for the new session.
    pub fn insert(&mut self, address: Address, session: Session)
        requires
            old(self).wf(),
        ensures
            final(self).wf(),
            final(self).sessions() == old(self).sessions().insert(address, session),
            final(self).queued() == old(self).queued().insert(address, Seq::<Event>::empty()),
            final(self).focus() == old(self).focus(),
            final(self).display_name() == old(self).display_name(),
    {
        let ghost ids = keys(self.entries@);
        let ghost held = sessions_of(self.entries@);
        let ghost waiting = inboxes_of(self.entries@);
        let entry = Entry { address, session, inbox: VecDeque::new() };
        match find(&self.entries, address) {
            Some(i) => {
                proof {
                    lemma_table_replace(ids, held, i as int, session);
                    lemma_table_replace(ids, waiting, i as int, Seq::<Event>::empty());
                }
                self.entries[i] = entry;
                assert(keys(self.entries@) =~= ids);
                assert(sessions_of(self.entries@) =~= held.update(i as int, session));
                assert(inboxes_of(self.entries@) =~= waiting.update(
                    i as int,
                    Seq::<Event>::empty(),
                ));
            },
            None => {
                proof {
                    lemma_table_push(ids, held, address, session);
                    lemma_table_push(ids, waiting, address, Seq::<Event>::empty());
                }
                self.entries.push(entry);
                assert(keys(self.entries@) =~= ids.push(address));
                assert(sessions_of(self.entries@) =~= held.push(session));
                assert(inboxes_of(self.entries@) =~= waiting.push(Seq::<Event>::empty()));
            },
        }
    }

    /// Takes the session of `address` out, with the events that wait for it,
    /// and hands it back; nothing happens where there is none. The address
    /// is then no longer shown, even where it stays in focus.
    pub fn remove(&mut self, address: Address) -> (removed: Option<Session>)
        requires
            old(self).wf(),
        ensures
            final(self).wf(),
            final(self).sessions() == old(self).sessions().remove(address),
            final(self).queued() == old(self).queued().remove(address),
            final(self).focus() == old(self).focus(),
            final(self).display_name() == old(self).display_name(),
            final(self).shown() != Some(address),
            old(self).focus() == Some(address) ==> final(self).shown() is None,
            removed == if old(self).sessions().contains_key(address) {
                Some(old(self).sessions()[address])
            } else {
                None
            },
    {
        let ghost ids = keys(self.entries@);
        let ghost held = sessions_of(self.entries@);
        let ghost waiting = inboxes_of(self.entries@);
        match find(&self.entries, address) {
            Some(i) => {
                proof {
                    lemma_table_at(ids, held, i as int);
                    lemma_table_remove(ids, held, i as int);
                    lemma_table_remove(ids, waiting, i as int);
                }
                let entry = self.entries.remove(i);
                assert(keys(self.entries@) =~= ids.remove(i as int));
                assert(sessions_of(self.entries@) =~= held.remove(i as int));
                assert(inboxes_of(self.entries@) =~= waiting.remove(i as int));
                Some(entry.session)
            },
            None => {
                proof {
                    lemma_table_absent(ids, held, address);
                    lemma_table_absent(ids, waiting, address);
                    assert(table(ids, held).remove(address) =~= table(ids, held));
                    assert(table(ids, waiting).remove(address) =~= table(ids, waiting));
                }
                None
            },
        }
    }

    /// Puts `address` in focus, or nothing. No session is touched, and the
    /// last call wins.
    pub fn set_current(&mut self, address: Option<Address>)
        ensures
            final(self).focus() == address,
            final(self).wf() == old(self).wf(),
            final(self).sessions() == old(self).sessions(),
            final(self).queued() == old(self).queued(),
            final(self).display_name() == old(self).display_name(),
    {
        self.current = address;
    }

    /// The server to display: the address in focus, unless its session is
    /// gone.
    pub fn current(&self) -> (address: Option<Address>)
        requires
            self.wf(),
        ensures
            address == self.shown(),
    {
        match self.current {
            Some(address) => {
                let found = find(&self.entries, address);
                proof {
                    let ids = keys(self.entries@);
                    let held = sessions_of(self.entries@);
                    match found {
                        Some(i) => lemma_table_at(ids, held, i as int),
                        None => lemma_table_absent(ids, held, address),
                    }
                }
                if found.is_some() {
                    Some(address)
                } else {
                    None
                }
            },
            None => None,
        }
    }

    /// Puts `address` in focus where it has a session, and says whether it
    /// has one. Where it has none, nothing changes: the caller connects.
    pub fn select(&mut self, address: Address) -> (selected: bool)
        requires
            old(self).wf(),
        ensures
            final(self).wf(),
            selected == old(self).sessions().contains_key(address),
            final(self).focus() == if selected {
                Some(address)
            } else {
                old(self).focus()
            },
            final(self).sessions() == old(self).sessions(),
            final(self).queued() == old(self).queued(),
            final(self).display_name() == old(self).display_name(),
    {
        let found = find(&self.entries, address);
        proof {
            let ids = keys(self.entries@);
            let held = sessions_of(self.entries@);
            match found {
                Some(i) => lemma_table_at(ids, held, i as int),
                None => lemma_table_absent(ids, held, address),
            }
        }
        if found.is_some() {
            self.current = Some(address);
            true
        } else {
            false
        }
    }

    /// Ends the handling of a connection attempt to `address`. A session
    /// that was opened is put under `address` and into focus. After a
    /// failure nothing is in focus, and the error is handed back for the
    /// consumer to show.
    pub fn connected(&mut self, address: Address, outcome: Result<Session, ConnectError>) -> (failure:
        Option<ConnectError>)
        requires
            old(self).wf(),
        ensures
            final(self).wf(),
            final(self).display_name() == old(self).display_name(),
            match outcome {
                Ok(session) => {
                    &&& failure is None
                    &&& final(self).sessions() == old(self).sessions().insert(address, session)
                    &&& final(self).queued() == old(self).queued().insert(
                        address,
                        Seq::<Event>::empty(),
                    )
                    &&& final(self).focus() == Some(address)
                },
                Err(error) => {
                    &&& failure == Some(error)
                    &&& final(self).sessions() == old(self).sessions()
                    &&& final(self).queued() == old(self).queued()
                    &&& final(self).focus() is None
                },
            },
    {
        match outcome {
            Ok(session) => {
                self.insert(address, session);
                self.set_current(Some(address));
                None
            },
            Err(error) => {
                self.set_current(None);
                Some(error)
            },
        }
    }

    /// Disconnects from `address`: its session is taken out and handed
    /// back, and where the address was in focus, nothing is in focus any
    /// more. The second part of the answer says whether it was in focus.
    pub fn disconnect(&mut self, address: Address) -> (gone: (Option<Session>, bool))
        requires
            old(self).wf(),
        ensures
            final(self).wf(),
            final(self).sessions() == old(self).sessions().remove(address),
            final(self).queued() == old(self).queued().remove(address),
            final(self).display_name() == old(self).display_name(),
            gone.1 == (old(self).focus() == Some(address)),
            final(self).focus() == if gone.1 {
                None
            } else {
                old(self).focus()
            },
            gone.0 == if old(self).sessions().contains_key(address) {
                Some(old(self).sessions()[address])
            } else {
                None
            },
    {
        let removed = self.remove(address);
        let in_focus = match self.current {
            Some(current) => current == address,
            None => false,
        };
        if in_focus {
            self.set_current(None);
        }
        (removed, in_focus)
    }

    /// Takes a new nickname from the consumer. An empty one, or the one in
    /// use, changes nothing and gives `false`; else the nickname is
    /// replaced, and the consumer tells every server.
    pub fn rename(&mut self, nick: String) -> (changed: bool)
        ensures
            changed == (nick@.len() > 0 && nick@ != old(self).display_name()),
            final(self).display_name() == if changed {
                nick@
            } else {
                old(self).display_name()
            },
            final(self).wf() == old(self).wf(),
            final(self).sessions() == old(self).sessions(),
            final(self).queued() == old(self).queued(),
            final(self).focus() == old(self).focus(),
    {
        if nick.as_str().is_empty() || nick == self.nick {
            false
        } else {
            self.nick = nick;
            true
        }
    }

    /// The nickname shared by all sessions.
    pub fn nick(&self) -> (nick: &String)
        ensures
            nick@ == self.display_name(),
    {
        &self.nick
    }

    /// Changes the nickname. The sessions learn of it when the consumer
    /// tells their servers.
    pub fn set_nick(&mut self, nick: String)
        ensures
            final(self).display_name() == nick@,
            final(self).wf() == old(self).wf(),
            final(self).sessions() == old(self).sessions(),
            final(self).queued() == old(self).queued(),
            final(self).focus() == old(self).focus(),
    {
        self.nick = nick;
    }

    /// The session of `address`, if there is one.
    pub fn session(&self, address: Address) -> (found: Option<&Session>)
        requires
            self.wf(),
        ensures
            match found {
                Some(session) => self.sessions().contains_key(address) && *session
                    == self.sessions()[address],
                None => !self.sessions().contains_key(address),
            },
    {
        let ghost ids = keys(self.entries@);
        let ghost held = sessions_of(self.entries@);
        match find(&self.entries, address) {
            Some(i) => {
                proof {
                    lemma_table_at(ids, held, i as int);
                }
                Some(&self.entries[i].session)
            },
            None => {
                proof {
                    lemma_table_absent(ids, held, address);
                }
                None
            },
        }
    }

    /// The session of `address` for changing it in place, if there is one.
    /// The borrow ends the access: what is changed through it is the
    /// session that the registry then holds under `address`.
    pub fn session_mut(&mut self, address: Address) -> (found: Option<&mut Session>)
        requires
            old(self).wf(),
        ensures
            final(self).wf(),
            final(self).queued() == old(self).queued(),
            final(self).focus() == old(self).focus(),
            final(self).display_name() == old(self).display_name(),
            match found {
                Some(session) => {
                    &&& old(self).sessions().contains_key(address)
                    &&& *session == old(self).sessions()[address]
                    &&& final(self).sessions() == old(self).sessions().insert(
                        address,
                        *final(session),
                    )
                },
                None => {
                    &&& !old(self).sessions().contains_key(address)
                    &&& final(self).sessions() == old(self).sessions()
                },
            },
    {
        let ghost prior = self.entries@;
        let ghost ids = keys(prior);
        let ghost held = sessions_of(prior);
        let ghost waiting = inboxes_of(prior);
        match find(&self.entries, address) {
            Some(i) => {
                proof {
                    lemma_table_at(ids, held, i as int);
                    assert forall|next: Entry|
                        next.address == address && next.inbox == prior[i as int].inbox implies {
                            let entries = #[trigger] prior.update(i as int, next);
                            &&& keys(entries) == ids
                            &&& inboxes_of(entries) == waiting
                            &&& table(ids, sessions_of(entries)) == table(ids, held).insert(
                                address,
                                next.session,
                            )
                        } by {
                        let entries = prior.update(i as int, next);
                        assert(keys(entries) =~= ids);
                        assert(inboxes_of(entries) =~= waiting);
                        assert(sessions_of(entries) =~= held.update(i as int, next.session));
                        lemma_table_replace(ids, held, i as int, next.session);
                    }
                }
                Some(&mut self.entries[i].session)
            },
            None => {
                proof {
                    lemma_table_absent(ids, held, address);
                }
                None
            },
        }
    }

    /// Applies every event that waits, session by session and within a
    /// session oldest first, and hands each to the consumer with the channel
    /// it is about. Only what waits now is taken, so a session without
    /// events costs nothing, and none is waited for. A lost connection comes
    /// as the last event of its session and stops no other session.
    pub fn drain_events(&mut self) -> (deliveries: Vec<Delivery>)
        requires
            old(self).wf(),
        ensures
            final(self).wf(),
            final(self).focus() == old(self).focus(),
            final(self).display_name() == old(self).display_name(),
            final(self).sessions().dom() == old(self).sessions().dom(),
            final(self).queued().dom() == old(self).queued().dom(),
            forall|address: Address| #[trigger]
                old(self).sessions().contains_key(address) ==> {
                    let batch = deliveries_for(deliveries@, address);
                    &&& final(self).queued()[address].len() == 0
                    &&& events_of(batch) == old(self).queued()[address]
                    &&& drained(
                        old(self).sessions()[address],
                        final(self).sessions()[address],
                        old(self).queued()[address],
                        channels_of(batch),
                    )
                },
            forall|k: int|
                0 <= k < deliveries.len() ==> old(self).sessions().contains_key(
                    #[trigger] deliveries[k].address,
                ),
    {
        let ghost prior = self.entries@;
        let ghost ids = keys(prior);
        let mut deliveries: Vec<Delivery> = Vec::new();
        let n = self.entries.len();
        let mut i: usize = 0;
        proof {
            assert forall|j: int| 0 <= j < n implies deliveries_for(
                deliveries@,
                #[trigger] prior[j].address,
            ).len() == 0 by {
                lemma_filter_drops(deliveries@, is_for(prior[j].address));
            }
        }
        while i < n
            invariant
                i <= n,
                n == prior.len(),
                self.entries.len() == n,
                ids == keys(prior),
                distinct(ids),
                self.current == old(self).current,
                self.nick == old(self).nick,
                forall|j: int| 0 <= j < n ==> (#[trigger] self.entries[j]).address == prior[j].address,
                forall|j: int| i <= j < n ==> #[trigger] self.entries[j] == prior[j],
                forall|j: int|
                    i <= j < n ==> deliveries_for(deliveries@, #[trigger] prior[j].address).len()
                        == 0,
                forall|j: int|
                    0 <= j < i ==> settled(#[trigger] prior[j], self.entries[j], deliveries@),
                forall|k: int|
                    0 <= k < deliveries.len() ==> exists|j: int|
                        0 <= j < n && #[trigger] deliveries[k].address == ids[j],
            decreases n - i,
        {
            let ghost earlier = deliveries@;
            let ghost was = self.entries@;
            let ghost sender = prior[i as int].address;
            assert(was[i as int] == prior[i as int]);
            drain_entry(&mut self.entries[i], &mut deliveries);
            proof {
                let batch = deliveries@.skip(earlier.len() as int);
                assert(forall|k: int|
                    earlier.len() <= k < deliveries.len() ==> deliveries[k] == batch[k
                        - earlier.len()]);
                assert forall|j: int| 0 <= j < n implies deliveries_for(
                    deliveries@,
                    #[trigger] prior[j].address,
                ) == if j == i {
                    deliveries_for(earlier, prior[j].address) + batch
                } else {
                    deliveries_for(earlier, prior[j].address)
                } by {
                    lemma_batch_added(earlier, deliveries@, sender, prior[j].address);
                    if j != i {
                        assert(ids[j] != ids[i as int]);
                    }
                }
                assert forall|j: int| 0 <= j < i + 1 implies settled(
                    #[trigger] prior[j],
                    self.entries[j],
                    deliveries@,
                ) by {
                    if j == i {
                        assert(deliveries_for(earlier, prior[j].address).len() == 0);
                        assert(deliveries_for(deliveries@, prior[j].address) =~= batch);
                    } else {
                        assert(self.entries[j] == was[j]);
                        assert(settled(prior[j], was[j], earlier));
                    }
                }
                assert forall|j: int| i + 1 <= j < n implies #[trigger] self.entries[j]
                    == prior[j] by {
                    assert(self.entries[j] == was[j]);
                }
                assert forall|j: int| 0 <= j < n implies (#[trigger] self.entries[j]).address
                    == prior[j].address by {
                    if j != i {
                        assert(self.entries[j] == was[j]);
                    }
                }
                assert forall|k: int| 0 <= k < deliveries.len() implies exists|j: int|
                    0 <= j < n && #[trigger] deliveries[k].address == ids[j] by {
                    if k < earlier.len() {
                        assert(deliveries[k] == earlier[k]);
                        let j = choose|j: int| 0 <= j < n && earlier[k].address == ids[j];
                        assert(deliveries[k].address == ids[j]);
                    } else {
                        assert(deliveries[k].address == ids[i as int]);
                    }
                }
            }
            i += 1;
        }
        proof {
            let held = sessions_of(prior);
            let waiting = inboxes_of(prior);
            let held_now = sessions_of(self.entries@);
            let waiting_now = inboxes_of(self.entries@);
            assert(keys(self.entries@) =~= ids);
            assert forall|address: Address| #[trigger]
                old(self).sessions().contains_key(address) implies {
                let batch = deliveries_for(deliveries@, address);
                &&& self.queued()[address].len() == 0
                &&& events_of(batch) == old(self).queued()[address]
                &&& drained(
                    old(self).sessions()[address],
                    self.sessions()[address],
                    old(self).queued()[address],
                    channels_of(batch),
                )
            } by {
                let j = place_of(ids, address);
                assert(stands_at(ids, address, j));
                lemma_table_at(ids, held, j);
                lemma_table_at(ids, waiting, j);
                lemma_table_at(ids, held_now, j);
                lemma_table_at(ids, waiting_now, j);
                assert(settled(prior[j], self.entries[j], deliveries@));
            }
            assert forall|k: int| 0 <= k < deliveries.len() implies old(
                self,
            ).sessions().contains_key(#[trigger] deliveries[k].address) by {
                let j = choose|j: int| 0 <= j < n && deliveries[k].address == ids[j];
                lemma_table_at(ids, held, j);
            }
            assert(self.sessions().dom() =~= old(self).sessions().dom());
            assert(self.queued().dom() =~= old(self).queued().dom());
        }
        deliveries
    }

    /// The addresses that have a session, each once.
    pub fn addresses(&self) -> (list: Vec<Address>)
        requires
            self.wf(),
        ensures
            list@.no_duplicates(),
            forall|address: Address|
                list@.contains(address) <==> self.sessions().contains_key(address),
    {
        let ghost ids = keys(self.entries@);
        let ghost held = sessions_of(self.entries@);
        let mut list: Vec<Address> = Vec::new();
        let mut i: usize = 0;
        while i < self.entries.len()
            invariant
                i <= self.entries.len(),
                ids == keys(self.entries@),
                list@ == ids.take(i as int),
            decreases self.entries.len() - i,
        {
            list.push(self.entries[i].address);
            assert(list@ =~= ids.take(i + 1));
            i += 1;
        }
        proof {
            assert(list@ =~= ids);
            assert forall|address: Address| list@.contains(address)
                <==> self.sessions().contains_key(address) by {
                if list@.contains(address) {
                    let j = choose|j: int| 0 <= j < list@.len() && list@[j] == address;
                    lemma_table_at(ids, held, j);
                }
                if self.sessions().contains_key(address) {
                    let j = place_of(ids, address);
                    assert(stands_at(ids, address, j));
                    assert(list@[j] == address);
                }
            }
        }
        list
    }

    /// Queues an event that the transport of `address` produced, behind
    /// those that wait already. Without a session of that address the event
    /// is dropped, and the answer is `false`.
    pub fn enqueue(&mut self, address: Address, event: Event) -> (queued: bool)
        requires
            old(self).wf(),
        ensures
            final(self).wf(),
            queued == old(self).sessions().contains_key(address),
            final(self).sessions() == old(self).sessions(),
            final(self).focus() == old(self).focus(),
            final(self).display_name() == old(self).display_name(),
            final(self).queued() == if queued {
                old(self).queued().insert(address, old(self).queued()[address].push(event))
            } else {
                old(self).queued()
            },
    {
        let ghost ids = keys(self.entries@);
        let ghost held = sessions_of(self.entries@);
        let ghost waiting = inboxes_of(self.entries@);
        match find(&self.entries, address) {
            Some(i) => {
                proof {
                    lemma_table_at(ids, held, i as int);
                    lemma_table_at(ids, waiting, i as int);
                    lemma_table_replace(ids, waiting, i as int, waiting[i as int].push(event));
                }
                self.entries[i].inbox.push_back(event);
                assert(keys(self.entries@) =~= ids);
                assert(sessions_of(self.entries@) =~= held);
                assert(inboxes_of(self.entries@) =~= waiting.update(
                    i as int,
                    waiting[i as int].push(event),
                ));
                true
            },
            None => {
                proof {
                    lemma_table_absent(ids, held, address);
                }
                false
            },
        }
    }
}

} // verus!

//! The per-channel message history of one session.
//!
//! Each channel has a run of messages in strictly increasing id order. Pages
//! fetched from the server and messages pushed live are merged by id, so that
//! nothing is held twice and nothing already held is fetched again.

use vstd::prelude::*;
use crate::message::{Message, MessageView};
use crate::seq_facts::lemma_filter_keeps;

verus! {

/// Where a fetched page lies relative to what is already cached.
#[derive(Clone, Copy, Debug, PartialEq, Eq, Structural)]
pub enum Anchor {
    /// Older messages, asked for with a `before` cursor.
    Before,
    /// Newer messages, asked for with an `after` cursor or pushed live.
    After,
    /// The first page of a channel.
    Initial,
}

/// The values of a run of messages.
pub open spec fn views(messages: Seq<Message>) -> Seq<MessageView> {
    messages.map_values(|m: Message| m@)
}

/// The ids of `log` strictly increase from front to back.
pub open spec fn ids_increase(log: Seq<MessageView>) -> bool {
    forall|i: int, j: int| 0 <= i < j < log.len() ==> log[i].id < log[j].id
}

/// Some message of `log` has the id `id`.
pub open spec fn holds_id(log: Seq<MessageView>, id: usize) -> bool {
    exists|i: int| 0 <= i < log.len() && log[i].id == id
}

/// Picks the messages whose id is below `id`.
pub open spec fn id_below(id: usize) -> spec_fn(MessageView) -> bool {
    |m: MessageView| m.id < id
}

/// Picks the messages whose id is above `id`.
pub open spec fn id_above(id: usize) -> spec_fn(MessageView) -> bool {
    |m: MessageView| m.id > id
}

/// Picks the messages whose id is not `id`.
pub open spec fn id_other(id: usize) -> spec_fn(MessageView) -> bool {
    |m: MessageView| m.id != id
}

/// `log` with `message` put where its id belongs. A message whose id is
/// already held is not stored again: the one held stays.
pub open spec fn with_message(log: Seq<MessageView>, message: MessageView) -> Seq<MessageView> {
    if holds_id(log, message.id) {
        log
    } else {
        log.filter(id_below(message.id)).push(message) + log.filter(id_above(message.id))
    }
}

/// `log` with the messages of `page` merged in, one after the other.
pub open spec fn with_page(log: Seq<MessageView>, page: Seq<MessageView>) -> Seq<MessageView>
    decreases page.len(),
{
    if page.len() == 0 {
        log
    } else {
        with_message(with_page(log, page.drop_last()), page.last())
    }
}

/// `log` without the message whose id is `id`.
pub open spec fn without_id(log: Seq<MessageView>, id: usize) -> Seq<MessageView> {
    log.filter(id_other(id))
}

/// `log` with the text and edit time of the message `id` replaced.
pub open spec fn with_edit(
    log: Seq<MessageView>,
    id: usize,
    text: Seq<u8>,
    timestamp_edit: Option<i64>,
) -> Seq<MessageView> {
    log.map_values(
        |m: MessageView|
            if m.id == id {
                m.edited(text, timestamp_edit)
            } else {
                m
            },
    )
}

/// In an increasing log, the messages below an id are a prefix and those
/// above it the rest, once the place `at` between them is known.
proof fn lemma_split_at_id(log: Seq<MessageView>, id: usize, at: int)
    requires
        0 <= at <= log.len(),
        forall|i: int| 0 <= i < at ==> log[i].id < id,
        forall|i: int| at <= i < log.len() ==> log[i].id > id,
    ensures
        log.filter(id_below(id)) == log.take(at),
        log.filter(id_above(id)) == log.skip(at),
        !holds_id(log, id),
    decreases log.len(),
{
    reveal(Seq::filter);
    if log.len() > 0 {
        let rest = log.drop_last();
        if at == log.len() {
            lemma_split_at_id(rest, id, at - 1);
            assert(log.take(at) =~= rest.take(at - 1).push(log.last()));
            assert(log.skip(at) =~= rest.skip(at - 1));
        } else {
            lemma_split_at_id(rest, id, at);
            assert(log.take(at) =~= rest.take(at));
            assert(log.skip(at) =~= rest.skip(at).push(log.last()));
        }
    } else {
        assert(log.take(at) =~= log);
        assert(log.skip(at) =~= log);
    }
}

/// An increasing log that does not hold `id` has a place where `id` belongs:
/// everything before it is below `id`, everything from it on is above.
proof fn lemma_place_exists(log: Seq<MessageView>, id: usize) -> (at: int)
    requires
        ids_increase(log),
        !holds_id(log, id),
    ensures
        0 <= at <= log.len(),
        forall|i: int| 0 <= i < at ==> log[i].id < id,
        forall|i: int| at <= i < log.len() ==> log[i].id > id,
    decreases log.len(),
{
    if log.len() == 0 {
        0
    } else {
        let rest = log.drop_last();
        assert(forall|i: int| 0 <= i < rest.len() ==> rest[i] == log[i]);
        assert(!holds_id(rest, id)) by {
            if holds_id(rest, id) {
                let i = choose|i: int| 0 <= i < rest.len() && rest[i].id == id;
                assert(log[i].id == id);
            }
        }
        let below = lemma_place_exists(rest, id);
        assert(log[log.len() - 1].id != id);
        if log.last().id < id {
            log.len() as int
        } else {
            below
        }
    }
}

/// Merging one message keeps the ids increasing, adds exactly its id to the
/// ids held, and keeps every message that was held.
pub proof fn lemma_with_message(log: Seq<MessageView>, message: MessageView)
    requires
        ids_increase(log),
    ensures
        ids_increase(with_message(log, message)),
        forall|id: usize|
            holds_id(with_message(log, message), id) <==> holds_id(log, id) || id == message.id,
        forall|i: int|
            0 <= i < log.len() ==> with_message(log, message).contains(#[trigger] log[i]),
        !holds_id(log, message.id) ==> with_message(log, message).contains(message),
        with_message(log, message).len() == log.len() + if holds_id(log, message.id) {
            0int
        } else {
            1int
        },
{
    let merged = with_message(log, message);
    if holds_id(log, message.id) {
        assert forall|i: int| 0 <= i < log.len() implies merged.contains(#[trigger] log[i]) by {
            assert(merged[i] == log[i]);
        }
    } else {
        let at = lemma_place_exists(log, message.id);
        lemma_split_at_id(log, message.id, at);
        assert(merged =~= log.take(at).push(message) + log.skip(at));
        assert(merged.len() == log.len() + 1);
        assert(forall|i: int| 0 <= i < at ==> merged[i] == log[i]);
        assert(merged[at] == message);
        assert(forall|i: int| at < i < merged.len() ==> merged[i] == log[i - 1]);
        assert forall|i: int| 0 <= i < log.len() implies merged.contains(#[trigger] log[i]) by {
            if i < at {
                assert(merged[i] == log[i]);
            } else {
                assert(merged[i + 1] == log[i]);
            }
        }
        assert forall|id: usize| holds_id(merged, id) implies holds_id(log, id) || id
            == message.id by {
            let i = choose|i: int| 0 <= i < merged.len() && merged[i].id == id;
            if i < at {
                assert(log[i].id == id);
            } else if i > at {
                assert(log[i - 1].id == id);
            }
        }
        assert forall|id: usize| holds_id(log, id) || id == message.id implies holds_id(
            merged,
            id,
        ) by {
            if id == message.id {
                assert(merged[at].id == id);
            } else {
                let i = choose|i: int| 0 <= i < log.len() && log[i].id == id;
                if i < at {
                    assert(merged[i].id == id);
                } else {
                    assert(merged[i + 1].id == id);
                }
            }
        }
    }
}

/// Puts `message` into `log` where its id belongs, unless the id is held.
/// The anchor only says from which end the place is looked for.
fn place(log: &mut Vec<Message>, message: Message, anchor: Anchor)
    requires
        ids_increase(views(old(log)@)),
    ensures
        views(final(log)@) == with_message(views(old(log)@), message@),
{
    let n = log.len();
    let mut at: usize;
    match anchor {
        Anchor::Before => {
            at = 0;
            while at < n && log[at].id < message.id
                invariant
                    n == log.len(),
                    at <= n,
                    forall|i: int| 0 <= i < at ==> log@[i].id < message.id,
                decreases n - at,
            {
                at += 1;
            }
        },
        _ => {
            at = n;
            while at > 0 && log[at - 1].id >= message.id
                invariant
                    n == log.len(),
                    at <= n,
                    forall|i: int| at <= i < n ==> log@[i].id >= message.id,
                decreases at,
            {
                at -= 1;
            }
        },
    }
    let ghost before = views(log@);
    assert(forall|i: int| 0 <= i < n ==> before[i].id == log@[i].id);
    assert(forall|i: int| 0 <= i < at ==> before[i].id < message.id) by {
        if at > 0 {
            assert(before[at - 1].id < message.id);
        }
    }
    assert(forall|i: int| at <= i < n ==> before[i].id >= message.id) by {
        if at < n {
            assert(before[at as int].id >= message.id);
        }
    }
    if at < n && log[at].id == message.id {
        assert(holds_id(before, message.id));
        return ;
    }
    proof {
        assert(forall|i: int| at <= i < n ==> before[i].id > message.id) by {
            if at < n {
                assert(before[at as int].id > message.id);
            }
        }
        lemma_split_at_id(before, message.id, at as int);
    }
    log.insert(at, message);
    assert(views(log@) =~= before.take(at as int).push(message@) + before.skip(at as int));
}

/// Merging a page keeps the ids increasing, holds exactly the ids of the log
/// and of the page, and keeps every message that was held.
pub proof fn lemma_with_page(log: Seq<MessageView>, page: Seq<MessageView>)
    requires
        ids_increase(log),
    ensures
        ids_increase(with_page(log, page)),
        forall|id: usize|
            holds_id(with_page(log, page), id) <==> holds_id(log, id) || holds_id(page, id),
        forall|i: int| 0 <= i < log.len() ==> with_page(log, page).contains(#[trigger] log[i]),
    decreases page.len(),
{
    if page.len() > 0 {
        let front = page.drop_last();
        let partly = with_page(log, front);
        lemma_with_page(log, front);
        lemma_with_message(partly, page.last());
        let merged = with_page(log, page);
        assert forall|id: usize| holds_id(merged, id) implies holds_id(log, id) || holds_id(
            page,
            id,
        ) by {
            if holds_id(partly, id) {
                if holds_id(front, id) {
                    let i = choose|i: int| 0 <= i < front.len() && front[i].id == id;
                    assert(page[i].id == id);
                }
            } else {
                assert(page[page.len() - 1].id == id);
            }
        }
        assert forall|id: usize| holds_id(log, id) || holds_id(page, id) implies holds_id(
            merged,
            id,
        ) by {
            if !holds_id(log, id) {
                let i = choose|i: int| 0 <= i < page.len() && page[i].id == id;
                if i < front.len() {
                    assert(front[i].id == id);
                }
            }
        }
        assert forall|i: int| 0 <= i < log.len() implies merged.contains(#[trigger] log[i]) by {
            assert(partly.contains(log[i]));
            let j = choose|j: int| 0 <= j < partly.len() && partly[j] == log[i];
            assert(merged.contains(partly[j]));
        }
    } else {
        assert forall|i: int| 0 <= i < log.len() implies with_page(log, page).contains(
            #[trigger] log[i],
        ) by {
            assert(with_page(log, page)[i] == log[i]);
        }
    }
}

/// `log` with every page of `pages` merged in, one page after the other.
pub open spec fn with_pages(log: Seq<MessageView>, pages: Seq<Seq<MessageView>>) -> Seq<
    MessageView,
>
    decreases pages.len(),
{
    if pages.len() == 0 {
        log
    } else {
        with_page(with_pages(log, pages.drop_last()), pages.last())
    }
}

/// However many pages are merged, and whether or not their ids overlap,
/// the ids keep increasing, so that no id is held twice.
pub proof fn lemma_with_pages(log: Seq<MessageView>, pages: Seq<Seq<MessageView>>)
    requires
        ids_increase(log),
    ensures
        ids_increase(with_pages(log, pages)),
        forall|i: int, j: int|
            0 <= i < with_pages(log, pages).len() && 0 <= j < with_pages(log, pages).len() && i
                != j ==> with_pages(log, pages)[i].id != with_pages(log, pages)[j].id,
    decreases pages.len(),
{
    if pages.len() > 0 {
        lemma_with_pages(log, pages.drop_last());
        lemma_with_page(with_pages(log, pages.drop_last()), pages.last());
    }
    let merged = with_pages(log, pages);
    assert forall|i: int, j: int|
        0 <= i < merged.len() && 0 <= j < merged.len() && i != j implies merged[i].id
        != merged[j].id by {
        if i < j {
            assert(merged[i].id < merged[j].id);
        } else {
            assert(merged[j].id < merged[i].id);
        }
    }
}

/// A page whose ids are all held changes nothing.
pub proof fn lemma_with_page_held(log: Seq<MessageView>, page: Seq<MessageView>)
    requires
        forall|i: int| 0 <= i < page.len() ==> holds_id(log, #[trigger] page[i].id),
    ensures
        with_page(log, page) == log,
    decreases page.len(),
{
    if page.len() > 0 {
        let front = page.drop_last();
        assert forall|i: int| 0 <= i < front.len() implies holds_id(
            log,
            #[trigger] front[i].id,
        ) by {
            assert(front[i] == page[i]);
        }
        lemma_with_page_held(log, front);
        assert(holds_id(log, page[page.len() - 1].id));
    }
}

/// Merging the same page a second time changes nothing.
pub proof fn lemma_with_page_twice(log: Seq<MessageView>, page: Seq<MessageView>)
    requires
        ids_increase(log),
    ensures
        with_page(with_page(log, page), page) == with_page(log, page),
{
    lemma_with_page(log, page);
    let merged = with_page(log, page);
    assert forall|i: int| 0 <= i < page.len() implies holds_id(merged, #[trigger] page[i].id) by {
        assert(holds_id(page, page[i].id));
    }
    lemma_with_page_held(merged, page);
}

/// An edit changes the text and the edit time of the message with the given
/// id and nothing else: every message keeps its place, id, author, channel
/// and creation time, and a log that does not hold the id stays as it is.
pub proof fn lemma_with_edit(
    log: Seq<MessageView>,
    id: usize,
    text: Seq<u8>,
    timestamp_edit: Option<i64>,
)
    ensures
        with_edit(log, id, text, timestamp_edit).len() == log.len(),
        forall|i: int|
            0 <= i < log.len() ==> {
                let now = #[trigger] with_edit(log, id, text, timestamp_edit)[i];
                &&& now.id == log[i].id
                &&& now.author == log[i].author
                &&& now.channel == log[i].channel
                &&& now.timestamp == log[i].timestamp
                &&& log[i].id == id ==> now.text == text && now.timestamp_edit == timestamp_edit
                &&& log[i].id != id ==> now == log[i]
            },
        !holds_id(log, id) ==> with_edit(log, id, text, timestamp_edit) == log,
        ids_increase(log) ==> ids_increase(with_edit(log, id, text, timestamp_edit)),
        forall|other: usize|
            holds_id(with_edit(log, id, text, timestamp_edit), other) <==> holds_id(log, other),
{
    let edited = with_edit(log, id, text, timestamp_edit);
    if !holds_id(log, id) {
        assert(edited =~= log);
    }
    assert forall|other: usize| holds_id(edited, other) <==> holds_id(log, other) by {
        if holds_id(edited, other) {
            let i = choose|i: int| 0 <= i < edited.len() && edited[i].id == other;
            assert(log[i].id == other);
        }
        if holds_id(log, other) {
            let i = choose|i: int| 0 <= i < log.len() && log[i].id == other;
            assert(edited[i].id == other);
        }
    }
}

/// Deleting an id takes exactly the message at `at` out of an increasing log
/// that holds the id there.
proof fn lemma_without_id_at(log: Seq<MessageView>, id: usize, at: int)
    requires
        ids_increase(log),
        0 <= at < log.len(),
        log[at].id == id,
    ensures
        without_id(log, id) == log.remove(at),
{
    let front = log.take(at);
    let back = log.skip(at + 1);
    let one = seq![log[at]];
    assert(log =~= front + one + back);
    lemma_filter_keeps(front, id_other(id));
    lemma_filter_keeps(back, id_other(id));
    assert(one.filter(id_other(id)) =~= Seq::<MessageView>::empty()) by {
        reveal(Seq::filter);
        assert(one.drop_last().len() == 0);
        assert(one.drop_last().filter(id_other(id)).len() == 0);
    }
    Seq::filter_distributes_over_add(front, one, id_other(id));
    Seq::filter_distributes_over_add(front + one, back, id_other(id));
    assert(log.remove(at) =~= front + back);
}

/// Deleting an id keeps the ids increasing, takes exactly that id out of the
/// ids held, and leaves a log that does not hold it as it is.
pub proof fn lemma_without_id(log: Seq<MessageView>, id: usize)
    requires
        ids_increase(log),
    ensures
        ids_increase(without_id(log, id)),
        forall|other: usize|
            holds_id(without_id(log, id), other) <==> holds_id(log, other) && other != id,
        !holds_id(log, id) ==> without_id(log, id) == log,
{
    let rest = without_id(log, id);
    if holds_id(log, id) {
        let at = choose|i: int| 0 <= i < log.len() && log[i].id == id;
        lemma_without_id_at(log, id, at);
        assert(forall|i: int| 0 <= i < at ==> rest[i] == log[i]);
        assert(forall|i: int| at <= i < rest.len() ==> rest[i] == log[i + 1]);
        assert forall|other: usize| holds_id(rest, other) implies holds_id(log, other) && other
            != id by {
            let i = choose|i: int| 0 <= i < rest.len() && rest[i].id == other;
            if i < at {
                assert(log[i].id == other);
            } else {
                assert(log[i + 1].id == other);
            }
        }
        assert forall|other: usize| holds_id(log, other) && other != id implies holds_id(
            rest,
            other,
        ) by {
            let i = choose|i: int| 0 <= i < log.len() && log[i].id == other;
            if i < at {
                assert(rest[i].id == other);
            } else {
                assert(rest[i - 1].id == other);
            }
        }
    } else {
        lemma_filter_keeps(log, id_other(id));
    }
}

/// Replaces the text and the edit time of the message `id` in `log`.
fn edit_in(log: &mut Vec<Message>, id: usize, text: &Vec<u8>, timestamp_edit: Option<i64>)
    ensures
        views(final(log)@) == with_edit(views(old(log)@), id, text@, timestamp_edit),
{
    let ghost before = views(log@);
    let mut j: usize = 0;
    while j < log.len()
        invariant
            j <= log.len(),
            log.len() == before.len(),
            forall|k: int|
                0 <= k < j ==> log@[k]@ == with_edit(before, id, text@, timestamp_edit)[k],
            forall|k: int| j <= k < log.len() ==> log@[k]@ == before[k],
        decreases log.len() - j,
    {
        if log[j].id == id {
            let edited = Message {
                id: log[j].id,
                author: log[j].author,
                channel: log[j].channel,
                text: text.clone(),
                timestamp: log[j].timestamp,
                timestamp_edit,
            };
            log[j] = edited;
        }
        j += 1;
    }
    assert(views(log@) =~= with_edit(before, id, text@, timestamp_edit));
}

/// Takes the message `id` out of `log`.
fn drop_in(log: &mut Vec<Message>, id: usize)
    requires
        ids_increase(views(old(log)@)),
    ensures
        views(final(log)@) == without_id(views(old(log)@), id),
{
    let ghost before = views(log@);
    let mut j: usize = 0;
    while j < log.len()
        invariant
            j <= log.len(),
            views(log@) == before,
            before == views(old(log)@),
            ids_increase(before),
            forall|k: int| 0 <= k < j ==> before[k].id != id,
        decreases log.len() - j,
    {
        if log[j].id == id {
            proof {
                lemma_without_id_at(before, id, j as int);
            }
            log.remove(j);
            assert(views(log@) =~= before.remove(j as int));
            return ;
        }
        j += 1;
    }
    proof {
        lemma_filter_keeps(before, id_other(id));
    }
}

/// The messages of one channel.
struct ChannelLog {
    channel: usize,
    messages: Vec<Message>,
}

/// The cached messages of a session, channel by channel.
pub struct MessageCache {
    logs: Vec<ChannelLog>,
}

impl MessageCache {
    #[verifier::type_invariant]
    closed spec fn inv(self) -> bool {
        &&& forall|i: int, j: int|
            0 <= i < j < self.logs.len() ==> self.logs[i].channel != self.logs[j].channel
        &&& forall|i: int|
            0 <= i < self.logs.len() ==> ids_increase(views(#[trigger] self.logs[i].messages@))
    }

    /// Whether the log at `i` is the one of `channel`.
    spec fn is_slot(self, channel: usize, i: int) -> bool {
        0 <= i < self.logs.len() && self.logs[i].channel == channel
    }

    /// The messages cached for `channel`, oldest first; empty if there are none.
    pub closed spec fn messages(self, channel: usize) -> Seq<MessageView> {
        if exists|i: int| self.is_slot(channel, i) {
            views(self.logs[choose|i: int| self.is_slot(channel, i)].messages@)
        } else {
            Seq::empty()
        }
    }

    /// A cache that holds nothing.
    pub fn new() -> (cache: MessageCache)
        ensures
            forall|channel: usize| cache.messages(channel) == Seq::<MessageView>::empty(),
    {
        MessageCache { logs: Vec::new() }
    }

    /// The index of the log of `channel`, if it has one.
    fn slot(&self, channel: usize) -> (found: Option<usize>)
        ensures
            match found {
                Some(i) => self.is_slot(channel, i as int),
                None => forall|i: int| !self.is_slot(channel, i),
            },
    {
        let mut i: usize = 0;
        while i < self.logs.len()
            invariant
                i <= self.logs.len(),
                forall|k: int| 0 <= k < i ==> !self.is_slot(channel, k),
            decreases self.logs.len() - i,
        {
            if self.logs[i].channel == channel {
                return Some(i);
            }
            i += 1;
        }
        None
    }

    /// Whether any message is cached for `channel`.
    pub fn has(&self, channel: usize) -> (known: bool)
        ensures
            known == (self.messages(channel).len() > 0),
    {
        proof {
            use_type_invariant(self);
        }
        match self.slot(channel) {
            Some(i) => self.logs[i].messages.len() > 0,
            None => false,
        }
    }

    /// The messages cached for `channel`, by increasing id.
    pub fn get(&self, channel: usize) -> (run: &[Message])
        ensures
            views(run@) == self.messages(channel),
            ids_increase(views(run@)),
    {
        proof {
            use_type_invariant(self);
        }
        match self.slot(channel) {
            Some(i) => self.logs[i].messages.as_slice(),
            None => &[],
        }
    }

    /// Merges a fetched page into the messages of `channel`. Messages are
    /// merged by id in the order of the page; one whose id is already held is
    /// dropped. The anchor tells where the page is expected to lie and never
    /// changes what is stored.
    pub fn insert_page(&mut self, channel: usize, page: Vec<Message>, anchor: Anchor)
        ensures
            final(self).messages(channel) == with_page(old(self).messages(channel), views(page@)),
            ids_increase(final(self).messages(channel)),
            forall|other: usize|
                other != channel ==> final(self).messages(other) == old(self).messages(other),
    {
        proof {
            use_type_invariant(&*self);
        }
        let found = self.slot(channel);
        let mut logs: Vec<ChannelLog> = Vec::new();
        std::mem::swap(&mut self.logs, &mut logs);
        let ghost prior = logs@;
        assert(prior == old(self).logs@);
        assert(forall|j: int| 0 <= j < prior.len() ==> ids_increase(views(#[trigger] prior[j].messages@)));
        assert(forall|j: int, l: int| 0 <= j < l < prior.len() ==> prior[j].channel != prior[l].channel);
        let i = match found {
            Some(i) => {
                assert(old(self).is_slot(channel, i as int));
                i
            },
            None => {
                assert(forall|j: int| 0 <= j < prior.len() ==> !old(self).is_slot(channel, j));
                assert forall|j: int| 0 <= j < prior.len() implies prior[j].channel
                    != channel by {
                    assert(!old(self).is_slot(channel, j));
                }
                logs.push(ChannelLog { channel, messages: Vec::new() });
                assert(views(logs@.last().messages@) =~= Seq::<MessageView>::empty());
                logs.len() - 1
            },
        };
        let ghost base = old(self).messages(channel);
        let ghost start = logs@;
        assert(forall|j: int| 0 <= j < prior.len() ==> start[j] == prior[j]);
        assert(start[i as int].channel == channel);
        assert(forall|j: int, l: int|
            0 <= j < l < start.len() ==> start[j].channel != start[l].channel);
        assert(forall|j: int|
            0 <= j < start.len() ==> ids_increase(views(#[trigger] start[j].messages@)));
        assert(views(start[i as int].messages@) == base);
        let mut k: usize = 0;
        while k < page.len()
            invariant
                k <= page.len(),
                i < logs.len(),
                logs.len() == start.len(),
                logs[i as int].channel == channel,
                start[i as int].channel == channel,
                forall|j: int| 0 <= j < logs.len() && j != i ==> logs[j] == start[j],
                forall|j: int, l: int|
                    0 <= j < l < start.len() ==> start[j].channel != start[l].channel,
                forall|j: int|
                    0 <= j < start.len() ==> ids_increase(views(#[trigger] start[j].messages@)),
                ids_increase(views(logs[i as int].messages@)),
                views(logs[i as int].messages@) == with_page(base, views(page@.take(k as int))),
            decreases page.len() - k,
        {
            let message = page[k].clone();
            proof {
                lemma_with_message(views(logs[i as int].messages@), message@);
                let next = views(page@.take(k + 1));
                assert(next.drop_last() =~= views(page@.take(k as int)));
                assert(next.last() == message@);
            }
            place(&mut logs[i].messages, message, anchor);
            k += 1;
        }
        assert forall|j: int, l: int| 0 <= j < l < logs.len() implies logs[j].channel
            != logs[l].channel by {
            assert(logs[j].channel == start[j].channel);
            assert(logs[l].channel == start[l].channel);
        }
        assert forall|j: int| 0 <= j < logs.len() implies ids_increase(
            views(#[trigger] logs[j].messages@),
        ) by {
            if j != i {
                assert(logs[j] == start[j]);
            }
        }
        self.logs = logs;
        proof {
            assert(page@.take(k as int) =~= page@);
            assert(self.is_slot(channel, i as int));
            assert forall|other: usize| other != channel implies self.messages(other) == old(
                self,
            ).messages(other) by {
                assert forall|j: int| self.is_slot(other, j) <==> old(self).is_slot(
                    other,
                    j,
                ) by {
                    if 0 <= j < prior.len() {
                        assert(self.logs[j].channel == start[j].channel);
                        assert(start[j] == prior[j]);
                    }
                }
                if exists|j: int| self.is_slot(other, j) {
                    let j = choose|j: int| self.is_slot(other, j);
                    assert(j != i);
                    assert(self.logs[j] == start[j]);
                    assert(start[j] == prior[j]);
                }
            }
        }
    }

    /// Replaces the text and the edit time of the message `id`, wherever it
    /// is cached. Nothing else changes, and an unknown id changes nothing.
    pub fn update(&mut self, id: usize, text: Vec<u8>, timestamp_edit: Option<i64>)
        ensures
            forall|channel: usize|
                final(self).messages(channel) == with_edit(
                    #[trigger] old(self).messages(channel),
                    id,
                    text@,
                    timestamp_edit,
                ),
            !old(self).holds(id) ==> forall|channel: usize|
                #[trigger] final(self).messages(channel) == old(self).messages(channel),
    {
        proof {
            use_type_invariant(&*self);
        }
        let mut logs: Vec<ChannelLog> = Vec::new();
        std::mem::swap(&mut self.logs, &mut logs);
        let ghost prior = logs@;
        let mut i: usize = 0;
        while i < logs.len()
            invariant
                i <= logs.len(),
                logs.len() == prior.len(),
                forall|j: int| 0 <= j < logs.len() ==> logs[j].channel == prior[j].channel,
                forall|j: int|
                    0 <= j < i ==> views(logs[j].messages@) == with_edit(
                        views(prior[j].messages@),
                        id,
                        text@,
                        timestamp_edit,
                    ),
                forall|j: int| i <= j < logs.len() ==> logs[j] == prior[j],
            decreases logs.len() - i,
        {
            edit_in(&mut logs[i].messages, id, &text, timestamp_edit);
            i += 1;
        }
        assert forall|j: int| 0 <= j < logs.len() implies ids_increase(
            views(#[trigger] logs[j].messages@),
        ) by {
            assert(ids_increase(views(prior[j].messages@)));
            lemma_with_edit(views(prior[j].messages@), id, text@, timestamp_edit);
        }
        assert forall|j: int, l: int| 0 <= j < l < logs.len() implies logs[j].channel
            != logs[l].channel by {
            assert(logs[j].channel == prior[j].channel);
            assert(logs[l].channel == prior[l].channel);
        }
        self.logs = logs;
        proof {
            assert forall|channel: usize|
                self.messages(channel) == with_edit(
                    #[trigger] old(self).messages(channel),
                    id,
                    text@,
                    timestamp_edit,
                ) by {
                assert forall|j: int| self.is_slot(channel, j) <==> old(self).is_slot(
                    channel,
                    j,
                ) by {
                    if 0 <= j < prior.len() {
                        assert(self.logs[j].channel == prior[j].channel);
                    }
                }
                if exists|j: int| self.is_slot(channel, j) {
                    let j = choose|j: int| self.is_slot(channel, j);
                    assert(old(self).is_slot(channel, j));
                } else {
                    assert(with_edit(
                        Seq::<MessageView>::empty(),
                        id,
                        text@,
                        timestamp_edit,
                    ) =~= Seq::<MessageView>::empty());
                }
            }
            if !old(self).holds(id) {
                assert forall|channel: usize| #[trigger]
                    self.messages(channel) == old(self).messages(channel) by {
                    assert(!holds_id(old(self).messages(channel), id));
                    lemma_with_edit(old(self).messages(channel), id, text@, timestamp_edit);
                }
            }
        }
    }

    /// Removes the message `id`, wherever it is cached; an unknown id
    /// changes nothing.
    pub fn delete(&mut self, id: usize)
        ensures
            forall|channel: usize|
                final(self).messages(channel) == without_id(
                    #[trigger] old(self).messages(channel),
                    id,
                ),
    {
        proof {
            use_type_invariant(&*self);
        }
        let mut logs: Vec<ChannelLog> = Vec::new();
        std::mem::swap(&mut self.logs, &mut logs);
        let ghost prior = logs@;
        let mut i: usize = 0;
        while i < logs.len()
            invariant
                i <= logs.len(),
                logs.len() == prior.len(),
                forall|j: int| 0 <= j < logs.len() ==> logs[j].channel == prior[j].channel,
                forall|j: int|
                    0 <= j < i ==> views(logs[j].messages@) == without_id(
                        views(prior[j].messages@),
                        id,
                    ),
                forall|j: int| i <= j < logs.len() ==> logs[j] == prior[j],
                forall|j: int|
                    0 <= j < prior.len() ==> ids_increase(views(#[trigger] prior[j].messages@)),
            decreases logs.len() - i,
        {
            assert(logs[i as int] == prior[i as int]);
            assert(ids_increase(views(prior[i as int].messages@)));
            drop_in(&mut logs[i].messages, id);
            i += 1;
        }
        assert forall|j: int| 0 <= j < logs.len() implies ids_increase(
            views(#[trigger] logs[j].messages@),
        ) by {
            assert(ids_increase(views(prior[j].messages@)));
            lemma_without_id(views(prior[j].messages@), id);
        }
        assert forall|j: int, l: int| 0 <= j < l < logs.len() implies logs[j].channel
            != logs[l].channel by {
            assert(logs[j].channel == prior[j].channel);
            assert(logs[l].channel == prior[l].channel);
        }
        self.logs = logs;
        proof {
            assert forall|channel: usize|
                self.messages(channel) == without_id(
                    #[trigger] old(self).messages(channel),
                    id,
                ) by {
                assert forall|j: int| self.is_slot(channel, j) <==> old(self).is_slot(
                    channel,
                    j,
                ) by {
                    if 0 <= j < prior.len() {
                        assert(self.logs[j].channel == prior[j].channel);
                    }
                }
                if exists|j: int| self.is_slot(channel, j) {
                    let j = choose|j: int| self.is_slot(channel, j);
                    assert(old(self).is_slot(channel, j));
                } else {
                    lemma_filter_keeps(Seq::<MessageView>::empty(), id_other(id));
                }
            }
        }
    }

    /// The oldest message cached for `channel`: the one with the least id.
    /// Its id is the cursor for asking the server for older messages.
    pub fn first(&self, channel: usize) -> (oldest: Option<&Message>)
        ensures
            match oldest {
                Some(message) => {
                    &&& self.messages(channel).len() > 0
                    &&& message@ == self.messages(channel)[0]
                    &&& forall|i: int|
                        0 <= i < self.messages(channel).len() ==> message.id
                            <= #[trigger] self.messages(channel)[i].id
                },
                None => self.messages(channel).len() == 0,
            },
    {
        let run = self.get(channel);
        if run.len() > 0 {
            Some(&run[0])
        } else {
            None
        }
    }

    /// Some channel holds a message with the id `id`.
    pub open spec fn holds(self, id: usize) -> bool {
        exists|channel: usize| holds_id(self.messages(channel), id)
    }

    /// A channel in which the message `id` is cached, if there is one. With
    /// ids unique over all channels, as the server hands them out, it is the
    /// channel of that message.
    pub fn channel_of(&self, id: usize) -> (found: Option<usize>)
        ensures
            match found {
                Some(channel) => holds_id(self.messages(channel), id),
                None => !self.holds(id),
            },
    {
        proof {
            use_type_invariant(self);
        }
        let mut i: usize = 0;
        while i < self.logs.len()
            invariant
                i <= self.logs.len(),
                self.inv(),
                forall|j: int| 0 <= j < i ==> !holds_id(views(self.logs[j].messages@), id),
            decreases self.logs.len() - i,
        {
            let log = &self.logs[i].messages;
            let mut k: usize = 0;
            while k < log.len()
                invariant
                    k <= log.len(),
                    i < self.logs.len(),
                    self.inv(),
                    *log == self.logs[i as int].messages,
                    forall|l: int| 0 <= l < k ==> log@[l].id != id,
                decreases log.len() - k,
            {
                if log[k].id == id {
                    proof {
                        assert(views(log@)[k as int].id == id);
                        assert(self.is_slot(self.logs[i as int].channel, i as int));
                    }
                    return Some(self.logs[i].channel);
                }
                k += 1;
            }
            assert(!holds_id(views(log@), id)) by {
                if holds_id(views(log@), id) {
                    let l = choose|l: int| 0 <= l < log.len() && views(log@)[l].id == id;
                    assert(log@[l].id == id);
                }
            }
            i += 1;
        }
        proof {
            assert forall|channel: usize| !holds_id(self.messages(channel), id) by {
                if exists|j: int| self.is_slot(channel, j) {
                    let j = choose|j: int| self.is_slot(channel, j);
                    assert(!holds_id(views(self.logs[j].messages@), id));
                }
            }
        }
        None
    }

    /// Merges one message into the messages of its channel, as a page of one.
    pub fn store(&mut self, message: Message, anchor: Anchor)
        ensures
            final(self).messages(message.channel) == with_message(
                old(self).messages(message.channel),
                message@,
            ),
            ids_increase(final(self).messages(message.channel)),
            forall|other: usize|
                other != message.channel ==> final(self).messages(other) == old(self).messages(
                    other,
                ),
    {
        let channel = message.channel;
        let ghost value = message@;
        let mut page: Vec<Message> = Vec::new();
        page.push(message);
        proof {
            let one = views(page@);
            assert(one.len() == 1 && one.last() == value);
            assert(one.drop_last().len() == 0);
            assert(with_page(old(self).messages(channel), one) == with_message(
                with_page(old(self).messages(channel), one.drop_last()),
                value,
            ));
        }
        self.insert_page(channel, page, anchor);
    }

    /// Stores a message that the server pushed live: a page of one that
    /// comes after what is held.
    pub fn push(&mut self, message: Message)
        ensures
            final(self).messages(message.channel) == with_message(
                old(self).messages(message.channel),
                message@,
            ),
            ids_increase(final(self).messages(message.channel)),
            forall|other: usize|
                other != message.channel ==> final(self).messages(other) == old(self).messages(
                    other,
                ),
    {
        self.store(message, Anchor::After);
    }
}

} // verus!

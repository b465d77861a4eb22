//! Who is typing where: the typing signals of one session, gathered and
//! aged out, and the line of text that tells the consumer about them.

use vstd::prelude::*;
use std::time::Instant;
use crate::clock::nanos_since;
use crate::state::{State, UserView};

verus! {

/// The least time between two summaries, in nanoseconds: one second.
pub const CHECK_INTERVAL: u128 = 1_000_000_000;

/// The nanoseconds in a second.
pub const NANOS_PER_SECOND: u128 = 1_000_000_000;

/// One typing signal: `author` was typing in `channel` at the time `at`, in
/// nanoseconds on the tracker's clock.
#[derive(Clone, Copy, Debug, PartialEq, Eq, Structural)]
pub struct Note {
    pub author: usize,
    pub channel: usize,
    pub at: u128,
}

/// The time from `since` to `now`; none where the clock has not moved on.
pub open spec fn elapsed(since: u128, now: u128) -> int {
    if now >= since {
        now - since
    } else {
        0
    }
}

/// `note` is the signal of `author` in `channel`.
pub open spec fn concerns(note: Note, author: usize, channel: usize) -> bool {
    note.author == author && note.channel == channel
}

/// Some note of `notes` is the signal of `author` in `channel`.
pub open spec fn is_noted(notes: Seq<Note>, author: usize, channel: usize) -> bool {
    exists|i: int| 0 <= i < notes.len() && concerns(notes[i], author, channel)
}

/// Sets the time of the signal of `author` in `channel` to `now`.
pub open spec fn refresh(author: usize, channel: usize, now: u128) -> spec_fn(Note) -> Note {
    |note: Note|
        if concerns(note, author, channel) {
            Note { author, channel, at: now }
        } else {
            note
        }
}

/// `notes` after `author` signalled in `channel` at `now`: a signal already
/// held is refreshed where it stands, a new one comes last.
pub open spec fn noted(notes: Seq<Note>, author: usize, channel: usize, now: u128) -> Seq<Note> {
    if is_noted(notes, author, channel) {
        notes.map_values(refresh(author, channel, now))
    } else {
        notes.push(Note { author, channel, at: now })
    }
}

/// Picks the notes whose age at `now` does not exceed `timeout`.
pub open spec fn is_fresh(timeout: u128, now: u128) -> spec_fn(Note) -> bool {
    |note: Note| elapsed(note.at, now) <= timeout
}

/// Gives the name of a note's author where the note is for `channel` and
/// the author is a known user.
pub open spec fn typist(channel: Option<usize>, users: Map<usize, UserView>) -> spec_fn(
    Note,
) -> Option<Seq<char>> {
    |note: Note|
        if channel == Some(note.channel) && users.contains_key(note.author) {
            Some(users[note.author].name)
        } else {
            None
        }
}

/// The line that tells who is typing, by the number of names.
pub open spec fn summary(names: Seq<Seq<char>>) -> Seq<char> {
    let n = names.len();
    if n > 500 {
        "(╯°□°）╯︵ ┻━┻"@
    } else if n > 100 {
        "A crap ton of people are typing"@
    } else if n > 50 {
        "Over 50 people are typing"@
    } else if n > 10 {
        "Over 10 people are typing"@
    } else if n > 3 {
        "Several people are typing"@
    } else if n == 3 {
        names[0] + ", "@ + names[1] + " and "@ + names[2] + " are typing"@
    } else if n == 2 {
        names[0] + " and "@ + names[1] + " are typing"@
    } else if n == 1 {
        names[0] + " is typing"@
    } else {
        Seq::empty()
    }
}

/// The values of a run of names.
pub open spec fn name_views(names: Seq<String>) -> Seq<Seq<char>> {
    names.map_values(|name: String| name@)
}

/// Writes the line that tells who is typing.
pub fn summarize(names: &Vec<String>) -> (line: String)
    ensures
        line@ == summary(name_views(names@)),
{
    let n = names.len();
    if n > 500 {
        String::from_str("(╯°□°）╯︵ ┻━┻")
    } else if n > 100 {
        String::from_str("A crap ton of people are typing")
    } else if n > 50 {
        String::from_str("Over 50 people are typing")
    } else if n > 10 {
        String::from_str("Over 10 people are typing")
    } else if n > 3 {
        String::from_str("Several people are typing")
    } else if n == 3 {
        let mut line = names[0].clone();
        line.append(", ");
        line.append(names[1].as_str());
        line.append(" and ");
        line.append(names[2].as_str());
        line.append(" are typing");
        line
    } else if n == 2 {
        let mut line = names[0].clone();
        line.append(" and ");
        line.append(names[1].as_str());
        line.append(" are typing");
        line
    } else if n == 1 {
        let mut line = names[0].clone();
        line.append(" is typing");
        line
    } else {
        String::new()
    }
}

/// The value of a line that may be missing.
pub open spec fn line_view(line: Option<String>) -> Option<Seq<char>> {
    match line {
        Some(text) => Some(text@),
        None => None,
    }
}

/// No two notes of `notes` are signals of the same author in the same channel.
spec fn one_each(notes: Seq<Note>) -> bool {
    forall|i: int, j: int|
        0 <= i < j < notes.len() ==> !concerns(notes[i], notes[j].author, notes[j].channel)
}

/// The typing signals of one session.
pub struct Typing {
    started: Instant,
    last_checked: u128,
    timeout: u128,
    people: Vec<Note>,
}

/// What a summary asked for at `now` does to a tracker and what it gives.
/// Within a second of the last summary nothing happens and there is no line.
/// Else the notes that are older than the timeout go, and the line names the
/// known users among the rest that are typing in `channel`, in the order in
/// which they began.
pub open spec fn checked(
    before: Typing,
    after: Typing,
    channel: Option<usize>,
    users: Map<usize, UserView>,
    now: u128,
    line: Option<Seq<char>>,
) -> bool {
    &&& after.timeout() == before.timeout()
    &&& if elapsed(before.last_checked(), now) < CHECK_INTERVAL {
        &&& line is None
        &&& after.notes() == before.notes()
        &&& after.last_checked() == before.last_checked()
    } else {
        &&& after.last_checked() == now
        &&& after.notes() == before.notes().filter(is_fresh(before.timeout(), now))
        &&& line == Some(summary(after.notes().filter_map(typist(channel, users))))
    }
}

impl Typing {
    #[verifier::type_invariant]
    closed spec fn inv(self) -> bool {
        one_each(self.people@)
    }

    /// The signals held, in the order in which their authors began to type.
    pub closed spec fn notes(self) -> Seq<Note> {
        self.people@
    }

    /// The time of the last summary, in nanoseconds since the tracker was made.
    pub closed spec fn last_checked(self) -> u128 {
        self.last_checked
    }

    /// The age, in nanoseconds, beyond which a signal is dropped.
    pub closed spec fn timeout(self) -> u128 {
        self.timeout
    }

    /// A tracker without signals that drops a signal `timeout_secs` seconds
    /// after it came. Its clock starts now, and so does the wait for the
    /// first summary.
    pub fn new(timeout_secs: u64) -> (typing: Typing)
        ensures
            typing.notes() == Seq::<Note>::empty(),
            typing.last_checked() == 0,
            typing.timeout() == timeout_secs * NANOS_PER_SECOND,
    {
        let seconds: u128 = timeout_secs as u128;
        assert(seconds * NANOS_PER_SECOND <= u128::MAX) by (nonlinear_arith)
            requires
                seconds <= u64::MAX,
                NANOS_PER_SECOND == 1_000_000_000,
        ;
        Typing {
            started: Instant::now(),
            last_checked: 0,
            timeout: seconds * NANOS_PER_SECOND,
            people: Vec::new(),
        }
    }

    /// The time on this tracker's clock: the nanoseconds since it was made.
    /// Every call reads the clock anew.
    pub(crate) fn now(&self) -> u128 {
        nanos_since(self.started)
    }

    /// Records that `author` is typing in `channel` at the time `now`.
    pub fn insert_at(&mut self, author: usize, channel: usize, now: u128)
        ensures
            final(self).notes() == noted(old(self).notes(), author, channel, now),
            final(self).last_checked() == old(self).last_checked(),
            final(self).timeout() == old(self).timeout(),
    {
        proof {
            use_type_invariant(&*self);
        }
        let mut people: Vec<Note> = Vec::new();
        std::mem::swap(&mut self.people, &mut people);
        let ghost prior = people@;
        let mut i: usize = 0;
        let mut found = false;
        while i < people.len()
            invariant_except_break
                people@ == prior,
                !found,
                forall|k: int| 0 <= k < i ==> !concerns(prior[k], author, channel),
            invariant
                i <= people.len(),
                people.len() == prior.len(),
            ensures
                found ==> i < prior.len() && concerns(prior[i as int], author, channel) && people@
                    == prior.update(i as int, Note { author, channel, at: now }),
                !found ==> people@ == prior && forall|k: int|
                    0 <= k < prior.len() ==> !concerns(prior[k], author, channel),
            decreases people.len() - i,
        {
            if people[i].author == author && people[i].channel == channel {
                people[i] = Note { author, channel, at: now };
                found = true;
                break ;
            }
            i += 1;
        }
        if found {
            assert(is_noted(prior, author, channel));
            assert(people@ =~= prior.map_values(refresh(author, channel, now))) by {
                assert forall|k: int| 0 <= k < prior.len() implies people@[k] == refresh(
                    author,
                    channel,
                    now,
                )(prior[k]) by {
                    if k < i {
                        assert(!concerns(prior[k], prior[i as int].author, prior[i as int].channel));
                    } else if k > i {
                        assert(!concerns(prior[i as int], prior[k].author, prior[k].channel));
                    }
                }
            }
            assert(one_each(people@)) by {
                assert forall|a: int, b: int| 0 <= a < b < people@.len() implies !concerns(
                    people@[a],
                    people@[b].author,
                    people@[b].channel,
                ) by {
                    assert(!concerns(prior[a], prior[b].author, prior[b].channel));
                }
            }
        } else {
            people.push(Note { author, channel, at: now });
            assert(!is_noted(prior, author, channel));
            assert(one_each(people@)) by {
                assert forall|a: int, b: int| 0 <= a < b < people@.len() implies !concerns(
                    people@[a],
                    people@[b].author,
                    people@[b].channel,
                ) by {
                    if b < prior.len() {
                        assert(!concerns(prior[a], prior[b].author, prior[b].channel));
                    } else {
                        assert(!concerns(prior[a], author, channel));
                    }
                }
            }
        }
        self.people = people;
    }

    /// The summary for `channel` at the time `now`: see [`checked`].
    pub fn check_at(&mut self, channel: Option<usize>, state: &State, now: u128) -> (line: Option<
        String,
    >)
        ensures
            checked(*old(self), *final(self), channel, state.users(), now, line_view(line)),
    {
        proof {
            use_type_invariant(&*self);
        }
        let waited = if now >= self.last_checked {
            now - self.last_checked
        } else {
            0
        };
        if waited < CHECK_INTERVAL {
            return None;
        }
        self.last_checked = now;
        let timeout = self.timeout;
        let mut people: Vec<Note> = Vec::new();
        std::mem::swap(&mut self.people, &mut people);
        let ghost prior = people@;
        let ghost fresh = is_fresh(timeout, now);
        let mut kept: Vec<Note> = Vec::new();
        let mut i: usize = 0;
        assert(prior.take(0).filter(fresh) =~= Seq::<Note>::empty()) by {
            reveal(Seq::filter);
        }
        while i < people.len()
            invariant
                i <= people.len(),
                people@ == prior,
                fresh == is_fresh(timeout, now),
                one_each(prior),
                kept@ == prior.take(i as int).filter(fresh),
                one_each(kept@),
                forall|a: int, k: int|
                    0 <= a < kept.len() && i <= k < prior.len() ==> !concerns(
                        kept@[a],
                        prior[k].author,
                        prior[k].channel,
                    ),
            decreases people.len() - i,
        {
            let note = people[i];
            let age = if now >= note.at {
                now - note.at
            } else {
                0
            };
            proof {
                assert(prior.take(i + 1) =~= prior.take(i as int).push(note));
                prior.take(i as int).lemma_filter_push(note, fresh);
                assert forall|k: int| i < k < prior.len() implies !concerns(
                    note,
                    prior[k].author,
                    prior[k].channel,
                ) by {
                    assert(!concerns(prior[i as int], prior[k].author, prior[k].channel));
                }
            }
            if age <= timeout {
                kept.push(note);
            }
            i += 1;
        }
        assert(prior.take(i as int) =~= prior);
        self.people = kept;
        let ghost role = typist(channel, state.users());
        let mut names: Vec<String> = Vec::new();
        let mut j: usize = 0;
        assert(self.people@.take(0).filter_map(role) =~= Seq::<Seq<char>>::empty());
        while j < self.people.len()
            invariant
                j <= self.people.len(),
                role == typist(channel, state.users()),
                name_views(names@) == self.people@.take(j as int).filter_map(role),
            decreases self.people.len() - j,
        {
            let note = self.people[j];
            proof {
                self.people@.lemma_filter_map_take_succ(role, j as int);
            }
            let here = match channel {
                Some(focused) => focused == note.channel,
                None => false,
            };
            if here {
                match state.user(note.author) {
                    Some(user) => {
                        let name = user.name.clone();
                        assert(name_views(names@.push(name)) =~= name_views(names@) + seq![name@]);
                        names.push(name);
                    },
                    None => {},
                }
            }
            j += 1;
        }
        assert(self.people@.take(j as int) =~= self.people@);
        Some(summarize(&names))
    }

    /// The summary for `channel` at the time that the clock shows: what
    /// [`checked`] says for that time.
    pub fn check(&mut self, channel: Option<usize>, state: &State) -> (line: Option<String>)
        ensures
            exists|now: u128| #[trigger]
                checked(*old(self), *final(self), channel, state.users(), now, line_view(line)),
    {
        let now = self.now();
        self.check_at(channel, state, now)
    }

    /// Records that `author` is typing in `channel`, at the time that the
    /// clock shows. A signal already held is refreshed, whatever its age.
    pub fn insert(&mut self, author: usize, channel: usize)
        ensures
            exists|now: u128|
                final(self).notes() == #[trigger] noted(old(self).notes(), author, channel, now),
            final(self).last_checked() == old(self).last_checked(),
            final(self).timeout() == old(self).timeout(),
    {
        let now = self.now();
        self.insert_at(author, channel, now);
    }
}

} // verus!

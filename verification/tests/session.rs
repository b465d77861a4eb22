use synac_client::address::Address;
use synac_client::event::{after_read, Event};
use synac_client::message::Message;
use synac_client::session::Session;
use synac_client::state::{Channel, User};

const SECOND: u128 = 1_000_000_000;

fn addr() -> Address {
    Address::V4 { ip: 0x7f00_0001, port: 8439 }
}

fn channel(id: usize, name: &str) -> Channel {
    Channel { id, name: name.to_string(), private: false, default_mode_bot: 0, default_mode_user: 3 }
}

fn user(id: usize, name: &str) -> User {
    User { id, name: name.to_string(), admin: false, bot: false, ban: false, modes: Vec::new() }
}

fn message(id: usize, channel: usize, text: &str) -> Message {
    Message { id, author: 2, channel, text: text.as_bytes().to_vec(), timestamp: 100, timestamp_edit: None }
}

fn ids(session: &Session, channel: usize) -> Vec<usize> {
    session.messages.get(channel).iter().map(|m| m.id).collect()
}

#[test]
fn a_new_session_is_connected_and_empty() {
    let session = Session::new(addr(), 42, 10);
    assert_eq!(session.addr, addr());
    assert_eq!(session.user, 42);
    assert_eq!(session.current_channel, None);
    assert!(session.connected);
    assert!(session.state.channel_list().is_empty());
    assert!(session.state.user_list().is_empty());
    assert!(!session.messages.has(1));
    assert_eq!(session.channel_in_view(), None);
}

#[test]
fn channel_events_update_the_replica_and_name_the_channel() {
    let mut session = Session::new(addr(), 1, 10);
    assert_eq!(session.apply_at(&Event::ChannelReceive(channel(4, "general")), 0), Some(4));
    assert_eq!(session.state.channel(4), Some(&channel(4, "general")));
    assert_eq!(session.apply_at(&Event::ChannelReceive(channel(4, "renamed")), 0), Some(4));
    assert_eq!(session.state.channel(4), Some(&channel(4, "renamed")));
    assert_eq!(session.apply_at(&Event::ChannelDeleteReceive(channel(4, "renamed")), 0), Some(4));
    assert_eq!(session.state.channel(4), None);
}

#[test]
fn a_deleted_channel_in_view_is_no_longer_found() {
    let mut session = Session::new(addr(), 1, 10);
    session.apply_at(&Event::ChannelReceive(channel(4, "general")), 0);
    session.current_channel = Some(4);
    assert_eq!(session.channel_in_view(), Some(&channel(4, "general")));
    session.apply_at(&Event::ChannelDeleteReceive(channel(4, "general")), 0);
    assert_eq!(session.current_channel, Some(4));
    assert_eq!(session.channel_in_view(), None);
}

#[test]
fn a_user_event_updates_the_replica_and_names_no_channel() {
    let mut session = Session::new(addr(), 1, 10);
    assert_eq!(session.apply_at(&Event::UserReceive(user(2, "Bo")), 0), None);
    assert_eq!(session.state.user(2), Some(&user(2, "Bo")));
}

#[test]
fn new_messages_are_cached_in_id_order() {
    let mut session = Session::new(addr(), 1, 10);
    assert_eq!(session.apply_at(&Event::MessageReceive { message: message(20, 4, "b"), new: true }, 0), Some(4));
    assert_eq!(session.apply_at(&Event::MessageReceive { message: message(10, 4, "a"), new: true }, 0), Some(4));
    assert_eq!(session.apply_at(&Event::MessageReceive { message: message(30, 5, "c"), new: true }, 0), Some(5));
    assert_eq!(ids(&session, 4), vec![10, 20]);
    assert_eq!(ids(&session, 5), vec![30]);
}

#[test]
fn a_message_that_is_not_new_edits_the_one_held() {
    let mut session = Session::new(addr(), 1, 10);
    session.apply_at(&Event::MessageReceive { message: message(10, 4, "a"), new: true }, 0);
    let mut edited = message(10, 4, "a, edited");
    edited.timestamp_edit = Some(777);
    assert_eq!(session.apply_at(&Event::MessageReceive { message: edited.clone(), new: false }, 0), Some(4));
    assert_eq!(session.messages.get(4), &[edited][..]);
}

#[test]
fn a_message_that_is_not_new_and_not_held_is_history() {
    let mut session = Session::new(addr(), 1, 10);
    session.apply_at(&Event::MessageReceive { message: message(10, 4, "b"), new: true }, 0);
    session.apply_at(&Event::MessageReceive { message: message(5, 4, "a"), new: false }, 0);
    assert_eq!(ids(&session, 4), vec![5, 10]);
    assert_eq!(session.messages.get(4)[1], message(10, 4, "b"));
}

#[test]
fn a_deleted_message_goes_and_names_its_channel() {
    let mut session = Session::new(addr(), 1, 10);
    session.apply_at(&Event::MessageReceive { message: message(10, 4, "a"), new: true }, 0);
    session.apply_at(&Event::MessageReceive { message: message(11, 4, "b"), new: true }, 0);
    assert_eq!(session.apply_at(&Event::MessageDeleteReceive { id: 10 }, 0), Some(4));
    assert_eq!(ids(&session, 4), vec![11]);
    assert_eq!(session.apply_at(&Event::MessageDeleteReceive { id: 10 }, 0), None);
    assert_eq!(ids(&session, 4), vec![11]);
}

#[test]
fn a_typing_event_is_noted_at_the_time_given() {
    let mut session = Session::new(addr(), 1, 10);
    session.apply_at(&Event::UserReceive(user(2, "Bo")), 0);
    assert_eq!(session.apply_at(&Event::TypingReceive { author: 2, channel: 4 }, 3 * SECOND), Some(4));
    let state = &session.state;
    assert_eq!(session.typing.check_at(Some(4), state, 12 * SECOND), Some("Bo is typing".to_string()));
    assert_eq!(session.typing.check_at(Some(4), state, 13 * SECOND), Some("Bo is typing".to_string()));
    assert_eq!(session.typing.check_at(Some(4), state, 14 * SECOND), Some(String::new()));
}

#[test]
fn a_lost_connection_is_remembered() {
    let mut session = Session::new(addr(), 1, 10);
    assert_eq!(session.apply_at(&Event::Other, 0), None);
    assert!(session.connected);
    assert_eq!(session.apply_at(&Event::ConnectionLost, 0), None);
    assert!(!session.connected);
    assert_eq!(session.apply_at(&Event::MessageListReceived, 0), None);
    assert!(!session.connected);
}

#[test]
fn events_that_change_nothing_change_nothing() {
    let mut session = Session::new(addr(), 1, 10);
    session.apply_at(&Event::ChannelReceive(channel(4, "general")), 0);
    session.apply_at(&Event::MessageReceive { message: message(10, 4, "a"), new: true }, 0);
    session.current_channel = Some(4);
    assert_eq!(session.apply_at(&Event::MessageListReceived, 0), None);
    assert_eq!(session.apply_at(&Event::Other, 0), None);
    assert_eq!(session.current_channel, Some(4));
    assert_eq!(session.state.channel(4), Some(&channel(4, "general")));
    assert_eq!(ids(&session, 4), vec![10]);
    assert_eq!(session.user, 1);
    assert_eq!(session.addr, addr());
}

#[test]
fn apply_by_the_clock_does_what_apply_at_does() {
    let mut session = Session::new(addr(), 1, 1_000_000);
    session.apply(&Event::UserReceive(user(2, "Bo")));
    assert_eq!(session.apply(&Event::TypingReceive { author: 2, channel: 4 }), Some(4));
    assert_eq!(session.apply(&Event::ChannelReceive(channel(4, "general"))), Some(4));
    assert_eq!(session.state.channel(4), Some(&channel(4, "general")));
    let state = &session.state;
    assert_eq!(session.typing.check_at(Some(4), state, 1_000 * SECOND), Some("Bo is typing".to_string()));
}

#[test]
fn a_failed_read_becomes_a_lost_connection_and_ends_the_reading() {
    assert_eq!(after_read(Some(Event::Other)), (Event::Other, true));
    assert_eq!(
        after_read(Some(Event::MessageDeleteReceive { id: 3 })),
        (Event::MessageDeleteReceive { id: 3 }, true)
    );
    assert_eq!(after_read(None), (Event::ConnectionLost, false));
    assert_eq!(after_read(Some(Event::ConnectionLost)), (Event::ConnectionLost, false));
}

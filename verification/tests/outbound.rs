use synac_client::address::Address;
use synac_client::cache::Anchor;
use synac_client::message::Message;
use synac_client::mode::Permissions;
use synac_client::outbound::{
    command_target, is_command, recovery, Command, CommandError, Entered, PageRequest, Recovery,
    SendFailure, Throttle,
};
use synac_client::session::Session;
use synac_client::state::{State, User};

const SECOND: u128 = 1_000_000_000;

fn bits() -> Permissions {
    Permissions { read: 1, write: 2, manage_channels: 4, manage_messages: 8, manage_modes: 16 }
}

fn session() -> Session {
    Session::new(Address::V4 { ip: 1, port: 2 }, 7, 10)
}

fn message(id: usize, author: usize, channel: usize) -> Message {
    Message { id, author, channel, text: Vec::new(), timestamp: 0, timestamp_edit: None }
}

fn user(id: usize, name: &str, bot: bool) -> User {
    User { id, name: name.to_string(), admin: false, bot, ban: false, modes: Vec::new() }
}

fn words(list: &[&str]) -> Vec<String> {
    list.iter().map(|w| w.to_string()).collect()
}

#[test]
fn a_channel_that_may_not_be_read_is_not_entered() {
    let mut session = session();
    session.current_channel = Some(3);
    assert_eq!(session.enter_channel(4, Some(2), &bits()), Entered::Denied);
    assert_eq!(session.current_channel, Some(3));
    assert_eq!(session.enter_channel(4, Some(0), &bits()), Entered::Denied);
    assert_eq!(session.current_channel, Some(3));
}

#[test]
fn entering_a_channel_without_messages_asks_for_the_first_page() {
    let mut session = session();
    assert_eq!(
        session.enter_channel(4, Some(1 | 2), &bits()),
        Entered::Open { can_write: true, fetch: Some(PageRequest { channel: 4, before: None, after: None }) }
    );
    assert_eq!(session.current_channel, Some(4));
}

#[test]
fn entering_a_channel_with_messages_asks_for_nothing() {
    let mut session = session();
    session.messages.push(message(1, 2, 4));
    assert_eq!(session.enter_channel(4, Some(1), &bits()), Entered::Open { can_write: false, fetch: None });
    assert_eq!(session.current_channel, Some(4));
}

#[test]
fn an_unknown_mode_allows_reading_and_writing() {
    let mut session = session();
    assert_eq!(
        session.enter_channel(4, None, &bits()),
        Entered::Open { can_write: true, fetch: Some(PageRequest { channel: 4, before: None, after: None }) }
    );
}

#[test]
fn older_messages_are_asked_for_before_the_oldest_held() {
    let mut session = session();
    assert_eq!(session.older_page(), None);
    session.current_channel = Some(4);
    assert_eq!(session.older_page(), Some(PageRequest { channel: 4, before: None, after: None }));
    session.messages.insert_page(4, vec![message(30, 2, 4), message(20, 2, 4)], Anchor::Initial);
    session.messages.push(message(10, 2, 5));
    assert_eq!(session.older_page(), Some(PageRequest { channel: 4, before: Some(20), after: None }));
}

#[test]
fn the_last_own_message_is_the_newest_by_this_user() {
    let mut session = session();
    assert_eq!(session.last_own_message(), None);
    session.current_channel = Some(4);
    assert_eq!(session.last_own_message(), None);
    session.messages.insert_page(
        4,
        vec![message(1, 7, 4), message(2, 8, 4), message(3, 7, 4), message(4, 8, 4)],
        Anchor::Initial,
    );
    session.messages.push(message(9, 7, 5));
    assert_eq!(session.last_own_message().map(|m| m.id), Some(3));
    session.messages.delete(3);
    assert_eq!(session.last_own_message().map(|m| m.id), Some(1));
    session.messages.delete(1);
    assert_eq!(session.last_own_message(), None);
}

#[test]
fn only_a_first_reset_is_answered_by_reconnecting() {
    assert_eq!(recovery(SendFailure::ConnectionReset, false), Recovery::Reconnect);
    assert_eq!(recovery(SendFailure::ConnectionReset, true), Recovery::Surface);
    assert_eq!(recovery(SendFailure::Other, false), Recovery::Surface);
    assert_eq!(recovery(SendFailure::Other, true), Recovery::Surface);
}

#[test]
fn typing_signals_are_spaced_by_half_the_timeout() {
    let mut throttle = Throttle::for_typing(10);
    assert!(!throttle.ready_at(5 * SECOND - 1));
    assert!(throttle.ready_at(5 * SECOND));
    assert!(!throttle.ready_at(5 * SECOND));
    assert!(!throttle.ready_at(10 * SECOND - 1));
    assert!(throttle.ready_at(11 * SECOND));
    assert!(!throttle.ready_at(15 * SECOND));
    assert!(!throttle.ready_at(SECOND));
    assert!(throttle.ready_at(16 * SECOND));
}

#[test]
fn half_of_an_odd_timeout_is_rounded_down() {
    let mut throttle = Throttle::for_typing(7);
    assert!(!throttle.ready_at(3 * SECOND - 1));
    assert!(throttle.ready_at(3 * SECOND));
    let mut always = Throttle::for_typing(1);
    assert!(always.ready_at(0));
    assert!(always.ready_at(0));
}

#[test]
fn the_throttle_waits_from_the_moment_it_is_made() {
    let mut throttle = Throttle::for_typing(1_000_000);
    assert!(!throttle.ready());
    let mut open = Throttle::for_typing(0);
    assert!(open.ready());
}

#[test]
fn a_line_is_a_command_where_it_begins_with_an_exclamation_mark() {
    assert!(is_command("!bot do it"));
    assert!(is_command("!"));
    assert!(!is_command(""));
    assert!(!is_command(" !bot"));
    assert!(!is_command("hello!"));
    assert!(!is_command("\u{a1}bot"));
}

#[test]
fn a_command_goes_to_the_bot_named_first() {
    let mut state = State::new();
    state.put_user(user(1, "helper", false));
    state.put_user(user(2, "helper", true));
    state.put_user(user(3, "other", true));
    assert_eq!(
        command_target(&state, words(&["helper", "roll", "2d6"])),
        Ok(Command { recipient: 2, args: words(&["roll", "2d6"]) })
    );
    assert_eq!(
        command_target(&state, words(&["other", "ping"])),
        Ok(Command { recipient: 3, args: words(&["ping"]) })
    );
}

#[test]
fn a_command_needs_a_bot_and_a_word() {
    let mut state = State::new();
    state.put_user(user(2, "helper", true));
    assert_eq!(command_target(&state, words(&[])), Err(CommandError::Usage));
    assert_eq!(command_target(&state, words(&["helper"])), Err(CommandError::Usage));
    assert_eq!(command_target(&state, words(&["nobody"])), Err(CommandError::Usage));
}

#[test]
fn a_command_for_no_bot_is_refused() {
    let mut state = State::new();
    state.put_user(user(1, "human", false));
    state.put_user(user(2, "helper", true));
    assert_eq!(command_target(&state, words(&["human", "hi"])), Err(CommandError::NoSuchBot));
    assert_eq!(command_target(&state, words(&["Helper", "hi"])), Err(CommandError::NoSuchBot));
    assert_eq!(command_target(&State::new(), words(&["helper", "hi"])), Err(CommandError::NoSuchBot));
}

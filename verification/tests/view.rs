use synac_client::address::Address;
use synac_client::cache::Anchor;
use synac_client::event::Event;
use synac_client::message::Message;
use synac_client::mode::Permissions;
use synac_client::registry::Delivery;
use synac_client::session::Session;
use synac_client::state::{Channel, State, User};
use synac_client::view::{
    channel_menu, channel_rows, message_actions, message_rows, notice, pane, redraw_for, roster,
    time_label,
    ChannelMenu, ChannelRow, Member, MessageActions, MessageRow, Pane, Redraw, Roster,
};

fn bits() -> Permissions {
    Permissions { read: 1, write: 2, manage_channels: 4, manage_messages: 8, manage_modes: 16 }
}

fn a() -> Address {
    Address::V4 { ip: 1, port: 2 }
}

fn b() -> Address {
    Address::V4 { ip: 1, port: 3 }
}

fn channel(id: usize, name: &str) -> Channel {
    Channel { id, name: name.to_string(), private: false, default_mode_bot: 0, default_mode_user: 3 }
}

fn user(id: usize, name: &str) -> User {
    User { id, name: name.to_string(), admin: false, bot: false, ban: false, modes: Vec::new() }
}

fn message(id: usize, author: usize, timestamp: i64) -> Message {
    Message { id, author, channel: 4, text: b"hi".to_vec(), timestamp, timestamp_edit: None }
}

fn member(id: usize, name: &str, ban: bool, mode: u8) -> Member {
    Member { id, name: name.to_string(), ban, mode }
}

fn nothing() -> Redraw {
    Redraw { channels: false, messages: false, users: false, scroll_to_bottom: false }
}

fn delivery(address: Address, event: Event) -> Delivery {
    Delivery { address, event, channel: None }
}

#[test]
fn channels_are_listed_by_name_with_a_number_sign() {
    let mut state = State::new();
    assert!(channel_rows(&state).is_empty());
    state.put_channel(channel(1, "random"));
    state.put_channel(channel(2, "general"));
    state.put_channel(channel(3, "Announcements"));
    state.put_channel(channel(4, ""));
    assert_eq!(
        channel_rows(&state),
        vec![
            ChannelRow { id: 4, label: "#".to_string() },
            ChannelRow { id: 3, label: "#Announcements".to_string() },
            ChannelRow { id: 2, label: "#general".to_string() },
            ChannelRow { id: 1, label: "#random".to_string() },
        ]
    );
}

#[test]
fn without_a_channel_in_view_there_are_no_message_rows() {
    let mut session = Session::new(a(), 7, 10);
    session.messages.push(message(1, 7, 0));
    assert!(message_rows(&session).is_empty());
    session.current_channel = Some(5);
    assert!(message_rows(&session).is_empty());
}

#[test]
fn messages_are_grouped_by_author_and_by_five_minutes() {
    let mut session = Session::new(a(), 7, 10);
    session.current_channel = Some(4);
    session.messages.insert_page(
        4,
        vec![
            message(1, 7, 1000),
            message(2, 7, 1300),
            message(3, 7, 1601),
            message(4, 8, 1601),
            message(5, 8, 1500),
            message(6, 7, 1500),
        ],
        Anchor::Initial,
    );
    assert_eq!(
        message_rows(&session),
        vec![
            MessageRow { id: 1, heading: true, separator: false, mine: true },
            MessageRow { id: 2, heading: false, separator: false, mine: true },
            MessageRow { id: 3, heading: true, separator: true, mine: true },
            MessageRow { id: 4, heading: true, separator: true, mine: false },
            MessageRow { id: 5, heading: false, separator: false, mine: false },
            MessageRow { id: 6, heading: true, separator: true, mine: true },
        ]
    );
}

#[test]
fn times_at_the_ends_of_the_range_do_not_overflow() {
    let mut session = Session::new(a(), 7, 10);
    session.current_channel = Some(4);
    session.messages.insert_page(
        4,
        vec![message(1, 7, i64::MAX - 1), message(2, 7, i64::MAX), message(3, 7, i64::MIN)],
        Anchor::Initial,
    );
    assert_eq!(
        message_rows(&session),
        vec![
            MessageRow { id: 1, heading: true, separator: false, mine: true },
            MessageRow { id: 2, heading: false, separator: false, mine: true },
            MessageRow { id: 3, heading: false, separator: false, mine: true },
        ]
    );
}

#[test]
fn the_author_may_edit_and_delete_and_a_manager_may_delete() {
    assert_eq!(message_actions(true, None, &bits()), MessageActions { edit: true, delete: true });
    assert_eq!(message_actions(true, Some(0), &bits()), MessageActions { edit: true, delete: true });
    assert_eq!(message_actions(false, Some(8), &bits()), MessageActions { edit: false, delete: true });
    assert_eq!(message_actions(false, Some(7), &bits()), MessageActions { edit: false, delete: false });
    assert_eq!(message_actions(false, None, &bits()), MessageActions { edit: false, delete: false });
}

#[test]
fn the_menu_of_a_channel_is_for_readers_and_its_entries_for_managers() {
    assert_eq!(channel_menu(None, &bits()), ChannelMenu::Hidden);
    assert_eq!(channel_menu(Some(4), &bits()), ChannelMenu::Hidden);
    assert_eq!(channel_menu(Some(1), &bits()), ChannelMenu::Shown { manage: false });
    assert_eq!(channel_menu(Some(1 | 4), &bits()), ChannelMenu::Shown { manage: true });
}

#[test]
fn users_are_listed_in_three_parts_by_name() {
    let members = vec![
        member(10, "zoe", false, 1),
        member(11, "bob", true, 1),
        member(12, "amy", false, 3),
        member(13, "cat", false, 2),
        member(14, "abe", true, 0),
        member(15, "dan", false, 0),
    ];
    assert_eq!(
        roster(&members, &bits()),
        Roster { here: vec![2, 0], elsewhere: vec![3, 5], banned: vec![4, 1] }
    );
    assert_eq!(
        roster(&Vec::new(), &bits()),
        Roster { here: Vec::new(), elsewhere: Vec::new(), banned: Vec::new() }
    );
}

#[test]
fn nothing_is_drawn_again_without_events() {
    assert_eq!(redraw_for(&Vec::new(), Some(a())), nothing());
    assert_eq!(pane(nothing()), None);
}

#[test]
fn each_event_marks_its_list() {
    let one = |event: Event| redraw_for(&vec![delivery(a(), event)], Some(a()));
    assert_eq!(one(Event::ChannelReceive(channel(1, "c"))), Redraw { channels: true, ..nothing() });
    assert_eq!(one(Event::ChannelDeleteReceive(channel(1, "c"))), Redraw { channels: true, ..nothing() });
    assert_eq!(one(Event::MessageDeleteReceive { id: 1 }), Redraw { messages: true, ..nothing() });
    assert_eq!(
        one(Event::MessageListReceived),
        Redraw { messages: true, scroll_to_bottom: true, ..nothing() }
    );
    assert_eq!(
        one(Event::MessageReceive { message: message(1, 2, 0), new: true }),
        Redraw { messages: true, ..nothing() }
    );
    assert_eq!(one(Event::MessageReceive { message: message(1, 2, 0), new: false }), nothing());
    assert_eq!(one(Event::UserReceive(user(1, "u"))), Redraw { users: true, ..nothing() });
    assert_eq!(one(Event::TypingReceive { author: 1, channel: 1 }), nothing());
    assert_eq!(one(Event::ConnectionLost), nothing());
    assert_eq!(one(Event::Other), nothing());
}

#[test]
fn only_the_events_of_the_server_shown_count() {
    let deliveries = vec![
        delivery(b(), Event::ChannelReceive(channel(1, "c"))),
        delivery(a(), Event::UserReceive(user(1, "u"))),
        delivery(b(), Event::MessageListReceived),
    ];
    assert_eq!(redraw_for(&deliveries, Some(a())), Redraw { users: true, ..nothing() });
    assert_eq!(
        redraw_for(&deliveries, Some(b())),
        Redraw { channels: true, messages: true, scroll_to_bottom: true, ..nothing() }
    );
    assert_eq!(redraw_for(&deliveries, None), nothing());
}

#[test]
fn a_message_that_is_not_new_takes_the_mark_off_the_messages() {
    let deliveries = vec![
        delivery(a(), Event::MessageListReceived),
        delivery(a(), Event::MessageReceive { message: message(1, 2, 0), new: false }),
    ];
    assert_eq!(redraw_for(&deliveries, Some(a())), Redraw { scroll_to_bottom: true, ..nothing() });
    let deliveries = vec![
        delivery(a(), Event::MessageReceive { message: message(1, 2, 0), new: false }),
        delivery(a(), Event::MessageReceive { message: message(2, 2, 0), new: true }),
    ];
    assert_eq!(redraw_for(&deliveries, Some(a())), Redraw { messages: true, ..nothing() });
}

#[test]
fn one_list_is_drawn_again_channels_first() {
    let all = Redraw { channels: true, messages: true, users: true, scroll_to_bottom: true };
    assert_eq!(pane(all), Some(Pane::Channels));
    assert_eq!(pane(Redraw { channels: false, ..all }), Some(Pane::Messages));
    assert_eq!(pane(Redraw { channels: false, messages: false, ..all }), Some(Pane::Users));
    assert_eq!(pane(Redraw { scroll_to_bottom: true, ..nothing() }), None);
}

#[test]
fn a_new_message_of_somebody_else_is_worth_a_notice() {
    let mut session = Session::new(a(), 7, 10);
    session.state.put_channel(channel(4, "general"));
    session.state.put_user(user(8, "Bo"));
    session.state.put_user(user(7, "me"));
    let theirs = message(1, 8, 0);
    assert_eq!(notice(&session, &theirs, true, Some(4), false), Some("Bo (#general)".to_string()));
    assert_eq!(notice(&session, &theirs, false, Some(4), false), None);
    assert_eq!(notice(&session, &theirs, true, Some(4), true), None);
    assert_eq!(notice(&session, &theirs, true, None, false), None);
    assert_eq!(notice(&session, &theirs, true, Some(5), false), None);
    assert_eq!(notice(&session, &message(2, 7, 0), true, Some(4), false), None);
    assert_eq!(notice(&session, &message(3, 9, 0), true, Some(4), false), None);
}

#[test]
fn the_time_of_an_edit_stands_behind_the_time_of_writing() {
    assert_eq!(time_label("2018-02-03 10:00", None), "2018-02-03 10:00");
    assert_eq!(
        time_label("2018-02-03 10:00", Some("2018-02-03 10:05")),
        "2018-02-03 10:00 (edited 2018-02-03 10:05)"
    );
    assert_eq!(time_label("", Some("")), " (edited )");
}

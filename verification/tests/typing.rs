use synac_client::state::{State, User};
use synac_client::typing::{summarize, Typing};

fn user(id: usize, name: &str) -> User {
    User { id, name: name.to_string(), admin: false, bot: false, ban: false, modes: Vec::new() }
}

fn crowd(n: usize) -> (State, Typing) {
    let mut state = State::new();
    let mut typing = Typing::new(10);
    for id in 0..n {
        state.put_user(user(id, &format!("u{}", id)));
        typing.insert_at(id, 5, 0);
    }
    (state, typing)
}

const SECOND: u128 = 1_000_000_000;

#[test]
fn two_typists_are_named_and_then_time_out() {
    let mut state = State::new();
    state.put_user(user(1, "Ann"));
    state.put_user(user(2, "Bo"));
    let mut typing = Typing::new(10);
    typing.insert_at(1, 5, 0);
    typing.insert_at(2, 5, SECOND / 2);
    assert_eq!(typing.check_at(Some(5), &state, SECOND), Some("Ann and Bo are typing".to_string()));
    assert_eq!(typing.check_at(Some(5), &state, 12 * SECOND), Some(String::new()));
}

#[test]
fn a_summary_within_a_second_of_the_last_is_refused() {
    let mut state = State::new();
    state.put_user(user(1, "Ann"));
    let mut typing = Typing::new(10);
    typing.insert_at(1, 5, 0);
    assert_eq!(typing.check_at(Some(5), &state, SECOND - 1), None);
    assert_eq!(typing.check_at(Some(5), &state, SECOND), Some("Ann is typing".to_string()));
    assert_eq!(typing.check_at(Some(5), &state, 2 * SECOND - 1), None);
    assert_eq!(typing.check_at(Some(5), &state, 2 * SECOND), Some("Ann is typing".to_string()));
}

#[test]
fn a_refused_summary_evicts_nothing() {
    let mut state = State::new();
    state.put_user(user(1, "Ann"));
    state.put_user(user(2, "Bo"));
    let mut typing = Typing::new(1);
    typing.insert_at(1, 5, 0);
    typing.insert_at(2, 5, SECOND / 2);
    assert_eq!(typing.check_at(Some(5), &state, SECOND), Some("Ann and Bo are typing".to_string()));
    assert_eq!(typing.check_at(Some(5), &state, SECOND + SECOND / 2), None);
    typing.insert_at(1, 5, SECOND + SECOND / 2);
    typing.insert_at(2, 5, SECOND + SECOND / 2);
    assert_eq!(typing.check_at(Some(5), &state, 2 * SECOND), Some("Ann and Bo are typing".to_string()));
    assert_eq!(typing.check_at(Some(5), &state, 3 * SECOND), Some(String::new()));
}

#[test]
fn a_signal_lives_until_it_is_older_than_the_timeout() {
    let mut state = State::new();
    state.put_user(user(1, "Ann"));
    let mut typing = Typing::new(3);
    typing.insert_at(1, 5, SECOND);
    assert_eq!(typing.check_at(Some(5), &state, 4 * SECOND), Some("Ann is typing".to_string()));
    typing.insert_at(1, 5, 2 * SECOND);
    assert_eq!(typing.check_at(Some(5), &state, 5 * SECOND), Some("Ann is typing".to_string()));
    assert_eq!(typing.check_at(Some(5), &state, 6 * SECOND), Some(String::new()));
    typing.insert_at(1, 5, 6 * SECOND);
    assert_eq!(typing.check_at(Some(5), &state, 9 * SECOND + 1), Some(String::new()));
}

#[test]
fn a_repeated_signal_refreshes_and_keeps_its_place() {
    let mut state = State::new();
    state.put_user(user(1, "Ann"));
    state.put_user(user(2, "Bo"));
    let mut typing = Typing::new(10);
    typing.insert_at(1, 5, 0);
    typing.insert_at(2, 5, 0);
    typing.insert_at(1, 5, 8 * SECOND);
    assert_eq!(typing.check_at(Some(5), &state, 9 * SECOND), Some("Ann and Bo are typing".to_string()));
    assert_eq!(typing.check_at(Some(5), &state, 11 * SECOND), Some("Ann is typing".to_string()));
}

#[test]
fn only_the_focused_channel_and_known_users_count() {
    let mut state = State::new();
    state.put_user(user(1, "Ann"));
    state.put_user(user(2, "Bo"));
    let mut typing = Typing::new(10);
    typing.insert_at(1, 5, 0);
    typing.insert_at(2, 6, 0);
    typing.insert_at(3, 5, 0);
    typing.insert_at(1, 6, 0);
    assert_eq!(typing.check_at(Some(5), &state, SECOND), Some("Ann is typing".to_string()));
    assert_eq!(typing.check_at(Some(6), &state, 2 * SECOND), Some("Bo and Ann are typing".to_string()));
    assert_eq!(typing.check_at(Some(7), &state, 3 * SECOND), Some(String::new()));
    assert_eq!(typing.check_at(None, &state, 4 * SECOND), Some(String::new()));
}

#[test]
fn a_clock_that_stands_behind_counts_as_no_time_passed() {
    let mut state = State::new();
    state.put_user(user(1, "Ann"));
    let mut typing = Typing::new(10);
    typing.insert_at(1, 5, 50 * SECOND);
    assert_eq!(typing.check_at(Some(5), &state, 20 * SECOND), Some("Ann is typing".to_string()));
    assert_eq!(typing.check_at(Some(5), &state, 10 * SECOND), None);
}

#[test]
fn the_line_is_chosen_by_the_number_of_names() {
    let names = |n: usize| -> Vec<String> { (0..n).map(|i| format!("n{}", i)).collect() };
    assert_eq!(summarize(&names(0)), "");
    assert_eq!(summarize(&names(1)), "n0 is typing");
    assert_eq!(summarize(&names(2)), "n0 and n1 are typing");
    assert_eq!(summarize(&names(3)), "n0, n1 and n2 are typing");
    assert_eq!(summarize(&names(4)), "Several people are typing");
    assert_eq!(summarize(&names(10)), "Several people are typing");
    assert_eq!(summarize(&names(11)), "Over 10 people are typing");
    assert_eq!(summarize(&names(50)), "Over 10 people are typing");
    assert_eq!(summarize(&names(51)), "Over 50 people are typing");
    assert_eq!(summarize(&names(100)), "Over 50 people are typing");
    assert_eq!(summarize(&names(101)), "A crap ton of people are typing");
    assert_eq!(summarize(&names(500)), "A crap ton of people are typing");
    assert_eq!(summarize(&names(501)), "(╯°□°）╯︵ ┻━┻");
}

#[test]
fn three_typists_are_all_named() {
    let (state, mut typing) = crowd(3);
    assert_eq!(typing.check_at(Some(5), &state, SECOND), Some("u0, u1 and u2 are typing".to_string()));
}

#[test]
fn a_crowd_is_only_counted() {
    let (state, mut typing) = crowd(12);
    assert_eq!(typing.check_at(Some(5), &state, SECOND), Some("Over 10 people are typing".to_string()));
}

#[test]
fn the_clock_starts_when_the_tracker_is_made() {
    let state = State::new();
    let mut typing = Typing::new(10);
    typing.insert(1, 5);
    assert_eq!(typing.check(Some(5), &state), None);
}

#[test]
fn a_signal_taken_by_the_clock_is_held() {
    let mut state = State::new();
    state.put_user(user(1, "Ann"));
    let mut typing = Typing::new(1_000_000);
    typing.insert(1, 5);
    assert_eq!(
        typing.check_at(Some(5), &state, 1_000 * SECOND),
        Some("Ann is typing".to_string())
    );
}

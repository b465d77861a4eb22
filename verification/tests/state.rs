use synac_client::state::{Channel, ModeOverride, State, User};

fn channel(id: usize, name: &str) -> Channel {
    Channel { id, name: name.to_string(), private: false, default_mode_bot: 0, default_mode_user: 3 }
}

fn user(id: usize, name: &str) -> User {
    User { id, name: name.to_string(), admin: false, bot: false, ban: false, modes: Vec::new() }
}

#[test]
fn a_new_replica_knows_nothing() {
    let state = State::new();
    assert_eq!(state.channel(1), None);
    assert_eq!(state.user(1), None);
    assert!(state.channel_list().is_empty());
    assert!(state.user_list().is_empty());
}

#[test]
fn a_pushed_channel_is_found_by_its_id() {
    let mut state = State::new();
    state.put_channel(channel(4, "general"));
    state.put_channel(channel(9, "random"));
    assert_eq!(state.channel(4), Some(&channel(4, "general")));
    assert_eq!(state.channel(9), Some(&channel(9, "random")));
    assert_eq!(state.channel(5), None);
    assert_eq!(state.user(4), None);
}

#[test]
fn a_channel_pushed_again_replaces_the_old_one() {
    let mut state = State::new();
    state.put_channel(channel(4, "general"));
    state.put_channel(channel(9, "random"));
    state.put_channel(channel(4, "renamed"));
    assert_eq!(state.channel(4), Some(&channel(4, "renamed")));
    assert_eq!(state.channel_list().len(), 2);
    assert!(state.channel_list().contains(&channel(4, "renamed")));
    assert!(state.channel_list().contains(&channel(9, "random")));
}

#[test]
fn a_deleted_channel_is_forgotten() {
    let mut state = State::new();
    state.put_channel(channel(4, "general"));
    state.put_channel(channel(9, "random"));
    state.remove_channel(4);
    assert_eq!(state.channel(4), None);
    assert_eq!(state.channel(9), Some(&channel(9, "random")));
    state.remove_channel(4);
    assert_eq!(state.channel_list().len(), 1);
}

#[test]
fn users_are_kept_like_channels() {
    let mut state = State::new();
    state.put_user(user(1, "Ann"));
    state.put_user(user(2, "Bo"));
    state.put_user(user(1, "Anna"));
    assert_eq!(state.user(1), Some(&user(1, "Anna")));
    assert_eq!(state.user(2), Some(&user(2, "Bo")));
    assert_eq!(state.user(3), None);
    assert_eq!(state.user_list().len(), 2);
    assert_eq!(state.channel(1), None);
}

#[test]
fn the_first_override_for_a_channel_is_the_users_mode_there() {
    let mut ann = user(1, "Ann");
    ann.modes = vec![
        ModeOverride { channel: 4, mode: 1 },
        ModeOverride { channel: 9, mode: 3 },
        ModeOverride { channel: 4, mode: 7 },
    ];
    assert_eq!(ann.mode_in(4), Some(1));
    assert_eq!(ann.mode_in(9), Some(3));
    assert_eq!(ann.mode_in(5), None);
    assert_eq!(user(2, "Bo").mode_in(4), None);
}

#[test]
fn clones_are_equal_to_what_they_were_made_of() {
    let mut ann = user(1, "Ann");
    ann.modes = vec![ModeOverride { channel: 4, mode: 1 }];
    ann.bot = true;
    assert_eq!(ann.clone(), ann);
    let mut room = channel(4, "general");
    room.private = true;
    assert_eq!(room.clone(), room);
}

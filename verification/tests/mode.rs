use synac_client::mode::{get_mode, permits, render_mode, ModeFlags, Permissions};

fn bits() -> Permissions {
    Permissions { read: 1, write: 2, manage_channels: 4, manage_messages: 8, manage_modes: 16 }
}

#[test]
fn a_mode_permits_what_all_its_bits_cover() {
    assert!(permits(0b0101, 0b0001));
    assert!(permits(0b0101, 0b0101));
    assert!(!permits(0b0101, 0b0010));
    assert!(!permits(0b0101, 0b0111));
    assert!(permits(0, 0));
}

#[test]
fn the_switches_show_the_bits_of_a_mode() {
    assert_eq!(
        render_mode(0, &bits()),
        ModeFlags { read: false, write: false, manage_channels: false, manage_messages: false, manage_modes: false }
    );
    assert_eq!(
        render_mode(1 | 2, &bits()),
        ModeFlags { read: true, write: true, manage_channels: false, manage_messages: false, manage_modes: false }
    );
    assert_eq!(
        render_mode(4 | 16 | 128, &bits()),
        ModeFlags { read: false, write: false, manage_channels: true, manage_messages: false, manage_modes: true }
    );
    assert_eq!(
        render_mode(255, &bits()),
        ModeFlags { read: true, write: true, manage_channels: true, manage_messages: true, manage_modes: true }
    );
}

#[test]
fn the_mode_is_read_from_the_first_five_switches() {
    let row = |states: [bool; 5]| -> Vec<Option<bool>> { states.iter().map(|s| Some(*s)).collect() };
    assert_eq!(get_mode(&row([false; 5]), &bits()), Some(0));
    assert_eq!(get_mode(&row([true, false, false, false, false]), &bits()), Some(1));
    assert_eq!(get_mode(&row([false, true, false, false, false]), &bits()), Some(2));
    assert_eq!(get_mode(&row([false, false, true, false, false]), &bits()), Some(4));
    assert_eq!(get_mode(&row([false, false, false, true, false]), &bits()), Some(8));
    assert_eq!(get_mode(&row([false, false, false, false, true]), &bits()), Some(16));
    assert_eq!(get_mode(&row([true; 5]), &bits()), Some(31));
    let mut long = row([true, true, false, false, false]);
    long.push(Some(true));
    long.push(None);
    assert_eq!(get_mode(&long, &bits()), Some(3));
}

#[test]
fn there_is_no_mode_where_a_switch_is_missing() {
    assert_eq!(get_mode(&Vec::new(), &bits()), None);
    assert_eq!(get_mode(&vec![Some(true); 4], &bits()), None);
    for missing in 0..5 {
        let mut row = vec![Some(true); 5];
        row[missing] = None;
        assert_eq!(get_mode(&row, &bits()), None);
    }
}

#[test]
fn switches_and_mode_agree_both_ways() {
    for mode in 0u8..32 {
        let flags = render_mode(mode, &bits());
        let row = vec![
            Some(flags.read),
            Some(flags.write),
            Some(flags.manage_channels),
            Some(flags.manage_messages),
            Some(flags.manage_modes),
        ];
        assert_eq!(get_mode(&row, &bits()), Some(mode));
    }
}

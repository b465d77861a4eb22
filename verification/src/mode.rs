//! Permission bits and the five switches that show and edit them.
//!
//! Which bit stands for which permission is the protocol's matter: the
//! caller hands the bits in.

use vstd::prelude::*;

verus! {

/// The bit of each permission in a mode bitmask.
#[derive(Clone, Copy, Debug, PartialEq, Eq, Structural)]
pub struct Permissions {
    pub read: u8,
    pub write: u8,
    pub manage_channels: u8,
    pub manage_messages: u8,
    pub manage_modes: u8,
}

/// The five switches of a mode: one per permission, in the order in which
/// they are shown.
#[derive(Clone, Copy, Debug, PartialEq, Eq, Structural)]
pub struct ModeFlags {
    pub read: bool,
    pub write: bool,
    pub manage_channels: bool,
    pub manage_messages: bool,
    pub manage_modes: bool,
}

/// The mode `mode` has every bit of `bit`.
pub open spec fn grants(mode: u8, bit: u8) -> bool {
    mode & bit == bit
}

/// `bit` where `on` is set, else no bit.
pub open spec fn bit_if(on: bool, bit: u8) -> u8 {
    if on {
        bit
    } else {
        0
    }
}

/// The switches that show `bitmask`.
pub open spec fn flags_of(bitmask: u8, bits: Permissions) -> ModeFlags {
    ModeFlags {
        read: grants(bitmask, bits.read),
        write: grants(bitmask, bits.write),
        manage_channels: grants(bitmask, bits.manage_channels),
        manage_messages: grants(bitmask, bits.manage_messages),
        manage_modes: grants(bitmask, bits.manage_modes),
    }
}

/// The bitmask that the switches stand for.
pub open spec fn bitmask_of(flags: ModeFlags, bits: Permissions) -> u8 {
    bit_if(flags.read, bits.read) | bit_if(flags.write, bits.write) | bit_if(
        flags.manage_channels,
        bits.manage_channels,
    ) | bit_if(flags.manage_messages, bits.manage_messages) | bit_if(
        flags.manage_modes,
        bits.manage_modes,
    )
}

/// What a row of switches stands for, read from the first: each of the
/// first five must be a switch, and what follows them is not read.
pub open spec fn switches_read(switches: Seq<Option<bool>>) -> Option<ModeFlags> {
    if switches.len() >= 5 && switches[0] is Some && switches[1] is Some && switches[2] is Some
        && switches[3] is Some && switches[4] is Some {
        Some(
            ModeFlags {
                read: switches[0].unwrap(),
                write: switches[1].unwrap(),
                manage_channels: switches[2].unwrap(),
                manage_messages: switches[3].unwrap(),
                manage_modes: switches[4].unwrap(),
            },
        )
    } else {
        None
    }
}

/// Whether `mode` grants the permission with the bit `bit`.
pub fn permits(mode: u8, bit: u8) -> (granted: bool)
    ensures
        granted == grants(mode, bit),
{
    mode & bit == bit
}

/// The state of the five switches that show the mode `bitmask`.
pub fn render_mode(bitmask: u8, bits: &Permissions) -> (flags: ModeFlags)
    ensures
        flags == flags_of(bitmask, *bits),
{
    ModeFlags {
        read: permits(bitmask, bits.read),
        write: permits(bitmask, bits.write),
        manage_channels: permits(bitmask, bits.manage_channels),
        manage_messages: permits(bitmask, bits.manage_messages),
        manage_modes: permits(bitmask, bits.manage_modes),
    }
}

/// The mode that a row of switches stands for. Each member of `switches`
/// is the state of one widget of the row, or nothing where the widget is no
/// switch. There is no mode where one of the first five is missing.
pub fn get_mode(switches: &Vec<Option<bool>>, bits: &Permissions) -> (bitmask: Option<u8>)
    ensures
        bitmask == match switches_read(switches@) {
            Some(flags) => Some(bitmask_of(flags, *bits)),
            None => None,
        },
{
    if switches.len() < 5 {
        return None;
    }
    let mut bitmask: u8 = 0;
    match switches[0] {
        Some(on) => {
            if on {
                bitmask |= bits.read;
            }
        },
        None => {
            return None;
        },
    }
    match switches[1] {
        Some(on) => {
            if on {
                bitmask |= bits.write;
            }
        },
        None => {
            return None;
        },
    }
    match switches[2] {
        Some(on) => {
            if on {
                bitmask |= bits.manage_channels;
            }
        },
        None => {
            return None;
        },
    }
    match switches[3] {
        Some(on) => {
            if on {
                bitmask |= bits.manage_messages;
            }
        },
        None => {
            return None;
        },
    }
    match switches[4] {
        Some(on) => {
            if on {
                bitmask |= bits.manage_modes;
            }
        },
        None => {
            return None;
        },
    }
    proof {
        let flags = switches_read(switches@).unwrap();
        let a = bit_if(flags.read, bits.read);
        let b = bit_if(flags.write, bits.write);
        let c = bit_if(flags.manage_channels, bits.manage_channels);
        let d = bit_if(flags.manage_messages, bits.manage_messages);
        let e = bit_if(flags.manage_modes, bits.manage_modes);
        assert(0u8 | a == a) by (bit_vector);
        assert(a | 0u8 == a) by (bit_vector);
        assert((a | b) | 0u8 == a | b) by (bit_vector);
        assert(((a | b) | c) | 0u8 == (a | b) | c) by (bit_vector);
        assert((((a | b) | c) | d) | 0u8 == ((a | b) | c) | d) by (bit_vector);
    }
    Some(bitmask)
}

} // verus!

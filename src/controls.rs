//! Start-up settings and key bindings: the playfield scale, the seven
//! control keys, and which request a key press makes.

use crate::game::Command;
use vstd::prelude::*;
use vstd::string::StrSliceExecFns;

verus! {

/// A setting that the game cannot start with.
#[derive(Debug, Clone, Copy, PartialEq, Eq, Structural)]
pub enum ConfigError {
    /// A scale of zero.
    ZeroScale,
    /// A control string that is not seven characters long.
    ControlsLength,
}

/// A key press as the game sees it.
#[derive(Debug, Clone, Copy, PartialEq, Eq, Structural)]
pub enum Key {
    Escape,
    /// A character, and whether Control was held.
    Char(char, bool),
}

/// The seven control keys, in lower case.
#[derive(Debug, Clone, Copy, PartialEq, Eq, Structural)]
pub struct Controls {
    pub left: char,
    pub right: char,
    pub rotate_left: char,
    pub rotate_right: char,
    pub hold: char,
    pub soft_drop: char,
    pub hard_drop: char,
}

/// What `str::to_lowercase` makes of a string.
pub uninterp spec fn lower_of(s: Seq<char>) -> Seq<char>;

/// Relies on str::to_lowercase: the lower-case form of `s`, which depends
/// on the characters of `s` alone.
#[verifier::external_body]
fn lowercase(s: &str) -> (r: String)
    ensures
        r@ == lower_of(s@),
{
    s.to_lowercase()
}

/// `c` with an ASCII capital letter turned into its small letter.
pub open spec fn ascii_lower(c: char) -> char {
    if 'A' <= c <= 'Z' {
        ((c as u32) + 32) as char
    } else {
        c
    }
}

fn to_ascii_lower(c: char) -> (r: char)
    ensures
        r == ascii_lower(c),
{
    if 'A' <= c && c <= 'Z' {
        let code: u32 = c as u32;
        ((code + 32) as u8) as char
    } else {
        c
    }
}

/// The controls that the first seven characters of `keys` name, in the
/// order left, right, rotate left, rotate right, hold, soft drop, hard drop.
pub open spec fn controls_from(keys: Seq<char>) -> Controls {
    Controls {
        left: keys[0],
        right: keys[1],
        rotate_left: keys[2],
        rotate_right: keys[3],
        hold: keys[4],
        soft_drop: keys[5],
        hard_drop: keys[6],
    }
}

/// The request that `key` makes under `controls`: Escape and Control-C
/// quit; a character is compared in lower case with each control in turn.
pub open spec fn key_command(controls: Controls, key: Key) -> Option<Command> {
    match key {
        Key::Escape => Some(Command::Quit),
        Key::Char(c, control) => {
            let ch = ascii_lower(c);
            if ch == 'c' && control {
                Some(Command::Quit)
            } else if ch == controls.left {
                Some(Command::MoveLeft)
            } else if ch == controls.right {
                Some(Command::MoveRight)
            } else if ch == controls.rotate_left {
                Some(Command::RotateLeft)
            } else if ch == controls.rotate_right {
                Some(Command::RotateRight)
            } else if ch == controls.hold {
                Some(Command::Hold)
            } else if ch == controls.soft_drop {
                Some(Command::SoftDrop)
            } else if ch == controls.hard_drop {
                Some(Command::HardDrop)
            } else {
                None
            }
        },
    }
}

/// The playfield scale `(width_scale, vertical_scale)`; both must be
/// positive.
pub fn playfield_scale(width_scale: u8, vertical_scale: u8) -> (r: Result<(isize, isize), ConfigError>)
    ensures
        width_scale == 0 || vertical_scale == 0 ==> r == Err::<(isize, isize), ConfigError>(ConfigError::ZeroScale),
        width_scale > 0 && vertical_scale > 0 ==> r == Ok::<(isize, isize), ConfigError>(
            (width_scale as isize, vertical_scale as isize),
        ),
{
    if width_scale == 0 || vertical_scale == 0 {
        Err(ConfigError::ZeroScale)
    } else {
        Ok((width_scale as isize, vertical_scale as isize))
    }
}

impl Controls {
    /// The controls named by the first seven characters of `keys`, taken
    /// as they are; `None` when there are fewer.
    pub fn from_keys(keys: &str) -> (r: Option<Controls>)
        ensures
            keys@.len() >= 7 ==> r == Some(controls_from(keys@)),
            keys@.len() < 7 ==> r.is_none(),
    {
        if keys.unicode_len() < 7 {
            return None;
        }
        Some(
            Controls {
                left: keys.get_char(0),
                right: keys.get_char(1),
                rotate_left: keys.get_char(2),
                rotate_right: keys.get_char(3),
                hold: keys.get_char(4),
                soft_drop: keys.get_char(5),
                hard_drop: keys.get_char(6),
            },
        )
    }

    /// The controls named by a string of exactly seven characters, in lower
    /// case.
    pub fn parse(arg_str: &str) -> (r: Result<Controls, ConfigError>)
        ensures
            arg_str@.len() != 7 ==> r == Err::<Controls, ConfigError>(ConfigError::ControlsLength),
            arg_str@.len() == 7 && lower_of(arg_str@).len() >= 7 ==> r == Ok::<Controls, ConfigError>(
                controls_from(lower_of(arg_str@)),
            ),
            arg_str@.len() == 7 && lower_of(arg_str@).len() < 7 ==> r == Err::<Controls, ConfigError>(
                ConfigError::ControlsLength,
            ),
    {
        if arg_str.unicode_len() != 7 {
            return Err(ConfigError::ControlsLength);
        }
        let lower = lowercase(arg_str);
        match Controls::from_keys(lower.as_str()) {
            Some(c) => Ok(c),
            None => Err(ConfigError::ControlsLength),
        }
    }

    /// The request that `key` makes, if any.
    pub fn command_for(&self, key: Key) -> (r: Option<Command>)
        ensures
            r == key_command(*self, key),
    {
        match key {
            Key::Escape => Some(Command::Quit),
            Key::Char(c, control) => {
                let ch = to_ascii_lower(c);
                if ch == 'c' && control {
                    Some(Command::Quit)
                } else if ch == self.left {
                    Some(Command::MoveLeft)
                } else if ch == self.right {
                    Some(Command::MoveRight)
                } else if ch == self.rotate_left {
                    Some(Command::RotateLeft)
                } else if ch == self.rotate_right {
                    Some(Command::RotateRight)
                } else if ch == self.hold {
                    Some(Command::Hold)
                } else if ch == self.soft_drop {
                    Some(Command::SoftDrop)
                } else if ch == self.hard_drop {
                    Some(Command::HardDrop)
                } else {
                    None
                }
            },
        }
    }
}

} // verus!

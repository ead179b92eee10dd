use terminal_blocks::controls::playfield_scale;
use terminal_blocks::{Command, ConfigError, Controls, Key};

#[test]
fn default_controls_parse_in_lower_case() {
    let c = Controls::parse("ADQEWS ").unwrap();
    assert_eq!(c.left, 'a');
    assert_eq!(c.right, 'd');
    assert_eq!(c.rotate_left, 'q');
    assert_eq!(c.rotate_right, 'e');
    assert_eq!(c.hold, 'w');
    assert_eq!(c.soft_drop, 's');
    assert_eq!(c.hard_drop, ' ');
}

#[test]
fn controls_of_wrong_length_are_refused() {
    assert_eq!(Controls::parse("ADQEWS"), Err(ConfigError::ControlsLength));
    assert_eq!(Controls::parse("ADQEWS  "), Err(ConfigError::ControlsLength));
    assert_eq!(Controls::parse(""), Err(ConfigError::ControlsLength));
}

#[test]
fn controls_from_keys_takes_first_seven() {
    let c = Controls::from_keys("AE'.,O xyz").unwrap();
    assert_eq!(c.left, 'A');
    assert_eq!(c.hard_drop, ' ');
    assert_eq!(Controls::from_keys("abc"), None);
}

#[test]
fn keys_map_to_commands() {
    let c = Controls::parse("ADQEWS ").unwrap();
    assert_eq!(c.command_for(Key::Char('a', false)), Some(Command::MoveLeft));
    assert_eq!(c.command_for(Key::Char('A', false)), Some(Command::MoveLeft));
    assert_eq!(c.command_for(Key::Char('d', false)), Some(Command::MoveRight));
    assert_eq!(c.command_for(Key::Char('Q', false)), Some(Command::RotateLeft));
    assert_eq!(c.command_for(Key::Char('e', false)), Some(Command::RotateRight));
    assert_eq!(c.command_for(Key::Char('w', false)), Some(Command::Hold));
    assert_eq!(c.command_for(Key::Char('s', false)), Some(Command::SoftDrop));
    assert_eq!(c.command_for(Key::Char(' ', false)), Some(Command::HardDrop));
    assert_eq!(c.command_for(Key::Char('z', false)), None);
    assert_eq!(c.command_for(Key::Char('c', false)), None);
    assert_eq!(c.command_for(Key::Char('C', true)), Some(Command::Quit));
    assert_eq!(c.command_for(Key::Escape), Some(Command::Quit));
}

#[test]
fn scales_must_be_positive() {
    assert_eq!(playfield_scale(2, 1), Ok((2, 1)));
    assert_eq!(playfield_scale(0, 1), Err(ConfigError::ZeroScale));
    assert_eq!(playfield_scale(3, 0), Err(ConfigError::ZeroScale));
}

use pico_chip8::fault::DriverError;
use pico_chip8::keypad::{Error, GpioKeypad, PinOp, SimDelay, SimKeypad};

fn delay() -> SimDelay {
    SimDelay::new()
}

fn drives(keypad: &GpioKeypad<SimKeypad>) -> Vec<(usize, bool)> {
    keypad
        .pins()
        .op_log()
        .iter()
        .filter_map(|op| match op {
            PinOp::Drive(c, level, _) => Some((*c, *level)),
            PinOp::Read(_, _) => None,
        })
        .collect()
}

fn ready(sim: SimKeypad) -> GpioKeypad<SimKeypad> {
    let mut keypad = GpioKeypad::new(sim);
    assert_eq!(keypad.init(), Ok(()));
    keypad
}

#[test]
fn default_keymap_row1_col2_gives_six() {
    let mut sim = SimKeypad::new();
    sim.press(1, 2);
    let mut keypad = ready(sim);
    let mut d = delay();
    assert_eq!(keypad.read_key(&mut d), Ok(Some(0x6)));
    assert_eq!(keypad.pins().levels(), vec![true, true, true, true]);
    // columns 0, 1 and 2 were energized, each followed by the settle wait
    assert_eq!(d.wait_log(), &vec![(500, true), (500, true), (500, true)]);
}

#[test]
fn every_single_key_of_default_keymap_resolves() {
    let expected: [[u8; 4]; 4] = [[1, 2, 3, 0xF], [4, 5, 6, 0xE], [7, 8, 9, 0xD], [0xA, 0, 0xB, 0xC]];
    for r in 0..4 {
        for c in 0..4 {
            let mut sim = SimKeypad::new();
            sim.press(r, c);
            let mut keypad = ready(sim);
            assert_eq!(keypad.read_key(&mut delay()), Ok(Some(expected[r][c])));
        }
    }
}

#[test]
fn custom_keymap_replaces_default() {
    let mut map = [[0u8; 4]; 4];
    for r in 0..4 {
        for c in 0..4 {
            map[r][c] = (15 - (r * 4 + c)) as u8;
        }
    }
    for r in 0..4 {
        for c in 0..4 {
            let mut sim = SimKeypad::new();
            sim.press(r, c);
            let mut keypad = GpioKeypad::new(sim).with_keymap(map);
            assert_eq!(keypad.init(), Ok(()));
            assert_eq!(keypad.read_key(&mut delay()), Ok(Some(map[r][c])));
            assert_eq!(keypad.keymap(), map);
        }
    }
}

#[test]
fn idle_rows_low_returns_none_without_writes() {
    let mut keypad = ready(SimKeypad::new());
    let before = keypad.pins().op_log().len();
    assert_eq!(before, 4);
    let mut d = delay();
    assert_eq!(keypad.read_key(&mut d), Ok(None));
    let log = keypad.pins().op_log();
    assert_eq!(log.len(), before + 4);
    assert_eq!(
        log[before..].to_vec(),
        vec![PinOp::Read(0, true), PinOp::Read(1, true), PinOp::Read(2, true), PinOp::Read(3, true)]
    );
    assert!(d.wait_log().is_empty());
    assert_eq!(keypad.pins().levels(), vec![true, true, true, true]);
}

#[test]
fn scan_write_order() {
    let mut sim = SimKeypad::new();
    sim.press(0, 1);
    let mut keypad = ready(sim);
    assert_eq!(keypad.read_key(&mut delay()), Ok(Some(0x2)));
    let log = drives(&keypad);
    let expected = vec![
        (0, true), (1, true), (2, true), (3, true),
        (0, false), (1, false), (2, false), (3, false),
        (0, true), (0, false),
        (1, true),
        (0, true), (1, true), (2, true), (3, true),
    ];
    assert_eq!(log, expected);
}

#[test]
fn two_rows_on_one_column_is_no_key() {
    let mut sim = SimKeypad::new();
    sim.press(0, 1);
    sim.press(2, 1);
    let mut keypad = ready(sim);
    assert_eq!(keypad.read_key(&mut delay()), Ok(None));
    assert_eq!(keypad.pins().levels(), vec![true, true, true, true]);
}

#[test]
fn ambiguous_column_is_skipped_for_a_later_one() {
    let mut sim = SimKeypad::new();
    sim.press(0, 1);
    sim.press(2, 1);
    sim.press(3, 3);
    let mut keypad = ready(sim);
    assert_eq!(keypad.read_key(&mut delay()), Ok(Some(0xC)));
}

#[test]
fn first_resolving_column_wins() {
    let mut sim = SimKeypad::new();
    sim.press(2, 0);
    sim.press(1, 3);
    let mut keypad = ready(sim);
    assert_eq!(keypad.read_key(&mut delay()), Ok(Some(0x7)));
}

#[test]
fn read_failure_mid_scan_restores_columns() {
    let mut sim = SimKeypad::new();
    sim.press(0, 2);
    sim.fail_reads_on(1);
    let mut keypad = ready(sim);
    assert_eq!(keypad.read_key(&mut delay()), Err(Error::ReadPin));
    assert_eq!(keypad.pins().levels(), vec![true, true, true, true]);
}

#[test]
fn read_failure_in_idle_check() {
    let mut sim = SimKeypad::new();
    sim.press(0, 2);
    sim.fail_reads_on(0);
    let mut keypad = ready(sim);
    assert_eq!(keypad.key_is_pressed(), Err(Error::ReadPin));
    assert_eq!(keypad.read_key(&mut delay()), Err(Error::ReadPin));
    assert_eq!(drives(&keypad).len(), 4);
}

#[test]
fn write_failure_is_reported() {
    let mut sim = SimKeypad::new();
    sim.press(3, 3);
    let mut keypad = ready(sim);
    let mut sim = keypad.into_pins();
    sim.fail_writes_on(2);
    let mut keypad = GpioKeypad::new(sim);
    assert_eq!(keypad.read_key(&mut delay()), Err(Error::WritePin));
}

#[test]
fn init_failure_is_write_pin() {
    let mut sim = SimKeypad::new();
    sim.fail_writes_on(0);
    let mut keypad = GpioKeypad::new(sim);
    assert_eq!(keypad.init(), Err(Error::WritePin));
}

#[test]
fn key_is_pressed_sees_any_row() {
    let mut keypad = ready(SimKeypad::new());
    assert_eq!(keypad.key_is_pressed(), Ok(false));
    let mut sim = SimKeypad::new();
    sim.press(3, 0);
    keypad = ready(sim);
    assert_eq!(keypad.key_is_pressed(), Ok(true));
}

#[test]
fn uninitialized_columns_read_nothing() {
    let mut sim = SimKeypad::new();
    sim.press(1, 1);
    let mut keypad = GpioKeypad::new(sim);
    assert_eq!(keypad.read_key(&mut delay()), Ok(None));
    assert!(drives(&keypad).is_empty());
}

#[test]
fn keypad_errors_map_to_keypad_category() {
    assert_eq!(DriverError::from(Error::WritePin), DriverError::Keypad);
    assert_eq!(DriverError::from(Error::ReadPin), DriverError::Keypad);
    assert_eq!(DriverError::from(Error::Delay), DriverError::Keypad);
}

#[test]
fn all_ambiguous_scans_four_columns_with_four_waits() {
    let mut sim = SimKeypad::new();
    for c in 0..4 {
        sim.press(0, c);
        sim.press(1, c);
    }
    let mut keypad = ready(sim);
    let mut d = delay();
    assert_eq!(keypad.read_key(&mut d), Ok(None));
    assert_eq!(d.wait_log(), &vec![(500, true); 4]);
    assert_eq!(keypad.pins().levels(), vec![true, true, true, true]);
}

#[test]
fn delay_failure_is_reported_and_columns_restored() {
    let mut sim = SimKeypad::new();
    sim.press(2, 2);
    let mut keypad = ready(sim);
    let mut d = delay();
    d.fail();
    assert_eq!(keypad.read_key(&mut d), Err(Error::Delay));
    assert_eq!(d.wait_log(), &vec![(500, false)]);
    assert_eq!(keypad.pins().levels(), vec![true, true, true, true]);
}

#[test]
fn write_failure_mid_scan_then_restore_fails_too() {
    let mut sim = SimKeypad::new();
    sim.press(3, 3);
    let mut keypad = ready(sim);
    let mut sim = keypad.into_pins();
    sim.fail_writes_on(1);
    let mut keypad = GpioKeypad::new(sim);
    assert_eq!(keypad.read_key(&mut delay()), Err(Error::WritePin));
    assert_eq!(keypad.pins().op_log().last(), Some(&PinOp::Drive(1, true, false)));
}

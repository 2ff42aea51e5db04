use pico_chip8::fault::DriverError;
use pico_chip8::screen::{BusEvent, Error, Sh1106, SimPanel};

/// Splits the recorded traffic into framed transactions (data mode, bytes),
/// checking that each one is framed by chip select.
fn frames(events: &[BusEvent<Vec<u8>>]) -> Vec<(bool, Vec<u8>)> {
    let mut out = Vec::new();
    let mut i = 0;
    while i < events.len() {
        match &events[i] {
            BusEvent::Reset(_) => {
                i += 1;
            }
            BusEvent::Mode(m) => {
                assert_eq!(events[i + 1], BusEvent::ChipSelect(false));
                let bytes = match &events[i + 2] {
                    BusEvent::Write(b) => b.clone(),
                    other => panic!("expected a write, got {:?}", other),
                };
                assert_eq!(events[i + 3], BusEvent::ChipSelect(true));
                out.push((*m, bytes));
                i += 4;
            }
            other => panic!("unexpected event {:?}", other),
        }
    }
    out
}

/// The payloads written to each physical column, in order, following the
/// column-address commands.
fn column_writes(events: &[BusEvent<Vec<u8>>]) -> Vec<Vec<Vec<u8>>> {
    let mut cols = vec![Vec::new(); 128];
    let mut lo = 0usize;
    let mut hi = 0usize;
    for (data, bytes) in frames(events) {
        if data {
            cols[hi * 16 + lo].push(bytes);
        } else if bytes.len() == 1 && bytes[0] < 0x10 {
            lo = bytes[0] as usize;
        } else if bytes.len() == 1 && bytes[0] >= 0x10 && bytes[0] < 0x18 {
            hi = (bytes[0] & 0x7) as usize;
        }
    }
    cols
}

fn cleared() -> Sh1106<SimPanel> {
    let mut screen = Sh1106::new(SimPanel::new());
    assert_eq!(screen.clear(), Ok(()));
    screen
}

fn row(screen: &Sh1106<SimPanel>, r: usize) -> Vec<u8> {
    screen.framebuffer()[r * 8..r * 8 + 8].to_vec()
}

#[test]
fn new_screen_is_blank_and_silent() {
    let screen = Sh1106::new(SimPanel::new());
    assert_eq!(screen.framebuffer(), vec![0u8; 256]);
    assert!(screen.bus().recorded().is_empty());
}

#[test]
fn clear_blanks_every_column_once() {
    let screen = cleared();
    let cols = column_writes(screen.bus().recorded());
    for c in 0..64 {
        assert_eq!(cols[c], vec![vec![0u8; 16]], "column {}", c);
    }
    assert_eq!(frames(screen.bus().recorded()).len(), 64 * 3);
    assert_eq!(screen.framebuffer(), vec![0u8; 256]);
}

#[test]
fn clear_then_zero_sprite_keeps_framebuffer() {
    let mut screen = cleared();
    assert_eq!(screen.xor(13, 5, &[0, 0, 0, 0, 0]), Ok(true));
    assert_eq!(screen.framebuffer(), vec![0u8; 256]);
}

#[test]
fn clear_resets_drawn_pixels() {
    let mut screen = cleared();
    assert_eq!(screen.xor(8, 3, &[0xAA, 0x55]), Ok(true));
    assert_ne!(screen.framebuffer(), vec![0u8; 256]);
    assert_eq!(screen.clear(), Ok(()));
    assert_eq!(screen.framebuffer(), vec![0u8; 256]);
}

#[test]
fn full_byte_at_origin_renders_columns_62_and_63() {
    let mut screen = cleared();
    let skip = screen.bus().recorded().len();
    assert_eq!(screen.xor(0, 0, &[0xFF]), Ok(true));
    let events = screen.bus().recorded()[skip..].to_vec();
    let f = frames(&events);
    assert_eq!(
        f,
        vec![
            (false, vec![0x0E]),
            (false, vec![0x13]),
            (true, {
                let mut p = vec![0xFF, 0xFF];
                p.extend(vec![0u8; 14]);
                p
            }),
            (false, vec![0x0F]),
            (false, vec![0x13]),
            (true, {
                let mut p = vec![0xFF, 0xFF];
                p.extend(vec![0u8; 14]);
                p
            }),
        ]
    );
    assert_eq!(row(&screen, 0), vec![0xFF, 0, 0, 0, 0, 0, 0, 0]);
}

#[test]
fn full_row_renders_sixteen_ff_bytes() {
    let mut screen = cleared();
    for x in (0..64).step_by(8) {
        assert_eq!(screen.xor(x, 0, &[0xFF]), Ok(true));
    }
    let cols = column_writes(screen.bus().recorded());
    assert_eq!(cols[62].last().unwrap(), &vec![0xFFu8; 16]);
    assert_eq!(cols[63].last().unwrap(), &vec![0xFFu8; 16]);
}

#[test]
fn payload_reverses_and_doubles_bits() {
    let mut screen = cleared();
    let skip = screen.bus().recorded().len();
    // pixel 7 of byte 0 (rightmost) and pixel 0 of byte 1 (leftmost)
    assert_eq!(screen.xor(0, 31, &[0x01]), Ok(true));
    assert_eq!(screen.xor(8, 31, &[0x80]), Ok(true));
    let events = screen.bus().recorded()[skip..].to_vec();
    let cols = column_writes(&events);
    let mut expected = vec![0u8; 16];
    expected[1] = 0xC0;
    expected[2] = 0x03;
    // row 31 lands on physical columns 0 and 1
    assert_eq!(cols[0].last().unwrap(), &expected);
    assert_eq!(cols[1].last().unwrap(), &expected);
}

#[test]
fn xor_twice_restores_framebuffer() {
    let mut screen = cleared();
    assert_eq!(screen.xor(3, 7, &[0x3C, 0x42, 0x81]), Ok(true));
    let before = screen.framebuffer();
    let sprite = [0xF0, 0x90, 0x90, 0x90, 0xF0];
    assert_eq!(screen.xor(21, 6, &sprite), Ok(true));
    assert_ne!(screen.framebuffer(), before);
    assert_eq!(screen.xor(21, 6, &sprite), Ok(true));
    assert_eq!(screen.framebuffer(), before);
}

#[test]
fn unaligned_x_splits_into_two_bytes() {
    let mut screen = cleared();
    assert_eq!(screen.xor(2, 0, &[0b1000_0001]), Ok(true));
    assert_eq!(row(&screen, 0), vec![0x20, 0x40, 0, 0, 0, 0, 0, 0]);
}

#[test]
fn x_60_wraps_into_bytes_7_and_0() {
    let mut screen = cleared();
    assert_eq!(screen.xor(60, 4, &[0xFF]), Ok(true));
    assert_eq!(row(&screen, 4), vec![0xF0, 0, 0, 0, 0, 0, 0, 0x0F]);
}

#[test]
fn x_wraps_at_64() {
    let mut screen = cleared();
    assert_eq!(screen.xor(64 + 8, 0, &[0x81]), Ok(true));
    assert_eq!(row(&screen, 0), vec![0, 0x81, 0, 0, 0, 0, 0, 0]);
}

#[test]
fn xor_sets_successive_rows() {
    let mut screen = cleared();
    assert_eq!(screen.xor(16, 10, &[1, 2, 3]), Ok(true));
    assert_eq!(row(&screen, 10)[2], 1);
    assert_eq!(row(&screen, 11)[2], 2);
    assert_eq!(row(&screen, 12)[2], 3);
    assert_eq!(row(&screen, 13)[2], 0);
}

#[test]
fn rows_past_the_bottom_are_clipped() {
    let mut screen = cleared();
    let skip = screen.bus().recorded().len();
    assert_eq!(screen.xor(0, 30, &[1, 2, 3, 4]), Ok(true));
    assert_eq!(row(&screen, 30)[0], 1);
    assert_eq!(row(&screen, 31)[0], 2);
    assert_eq!(row(&screen, 0)[0], 0);
    // two rows rendered, each at two columns
    let events = screen.bus().recorded()[skip..].to_vec();
    assert_eq!(frames(&events).len(), 2 * 6);
}

#[test]
fn start_row_wraps_at_32() {
    let mut screen = cleared();
    assert_eq!(screen.xor(0, 33, &[0x80]), Ok(true));
    assert_eq!(row(&screen, 1)[0], 0x80);
}

#[test]
fn set_col_sends_low_then_high_nibble() {
    let mut screen = Sh1106::new(SimPanel::new());
    assert_eq!(screen.set_col(62), Ok(()));
    assert_eq!(frames(screen.bus().recorded()), vec![(false, vec![0x0E]), (false, vec![0x13])]);
}

#[test]
fn parameterized_commands_frame_two_bytes() {
    let mut screen = Sh1106::new(SimPanel::new());
    assert_eq!(screen.set_contrast(0x7F), Ok(()));
    assert_eq!(screen.set_display_start(3), Ok(()));
    assert_eq!(screen.set_display_offset(0x60), Ok(()));
    assert_eq!(screen.set_dclk_osc_freq(0x41), Ok(()));
    assert_eq!(screen.set_pre_charge_period(0x22), Ok(()));
    assert_eq!(screen.set_vcom_deselect_level(0x35), Ok(()));
    assert_eq!(screen.set_vertical_addressing(), Ok(()));
    assert_eq!(screen.display_on(), Ok(()));
    assert_eq!(screen.set_lower_col_addr(0x3A), Ok(()));
    assert_eq!(screen.set_higher_col_addr(0x3A), Ok(()));
    assert_eq!(
        frames(screen.bus().recorded()),
        vec![
            (false, vec![0x81, 0x7F]),
            (false, vec![0xDC, 3]),
            (false, vec![0xD3, 0x60]),
            (false, vec![0xD5, 0x41]),
            (false, vec![0xD9, 0x22]),
            (false, vec![0xD8, 0x35]),
            (false, vec![0x21]),
            (false, vec![0xAF]),
            (false, vec![0x0A]),
            (false, vec![0x12]),
        ]
    );
}

#[test]
fn init_sequence() {
    let mut screen = Sh1106::new(SimPanel::new());
    assert_eq!(screen.init(), Ok(()));
    let events = screen.bus().recorded();
    assert_eq!(
        events[..3].to_vec(),
        vec![BusEvent::Reset(true), BusEvent::Reset(false), BusEvent::Reset(true)]
    );
    let f = frames(events);
    assert_eq!(
        f[..7].to_vec(),
        vec![
            (false, vec![0xDC, 0]),
            (false, vec![0x81, 0x80]),
            (false, vec![0x21]),
            (false, vec![0xD5, 0x41]),
            (false, vec![0xD9, 0x22]),
            (false, vec![0xD8, 0x35]),
            (false, vec![0xD3, 0x60]),
        ]
    );
    assert_eq!(f.len(), 7 + 64 * 3 + 1);
    assert_eq!(f.last().unwrap(), &(false, vec![0xAF]));
    assert_eq!(screen.framebuffer(), vec![0u8; 256]);
}

#[test]
fn failed_write_releases_chip_select() {
    let mut panel = SimPanel::new();
    panel.fail_writes_after(1);
    let mut screen = Sh1106::new(panel);
    assert_eq!(screen.set_contrast(1), Ok(()));
    assert_eq!(screen.set_contrast(2), Err(Error::Spi));
    assert_eq!(
        screen.bus().recorded()[4..].to_vec(),
        vec![BusEvent::Mode(false), BusEvent::ChipSelect(false), BusEvent::ChipSelect(true)]
    );
}

#[test]
fn failed_write_aborts_xor() {
    let mut panel = SimPanel::new();
    panel.fail_writes_after(0);
    let mut screen = Sh1106::new(panel);
    assert_eq!(screen.xor(0, 0, &[1]), Err(Error::Spi));
    assert_eq!(screen.clear(), Err(Error::Spi));
    assert_eq!(screen.init().is_err(), true);
}

#[test]
fn screen_errors_map_to_screen_category() {
    assert_eq!(DriverError::from(Error::Spi), DriverError::Screen);
    assert_eq!(DriverError::from(Error::ChipSelect), DriverError::Screen);
    assert_eq!(DriverError::from(Error::Mode), DriverError::Screen);
    assert_eq!(DriverError::from(Error::Reset), DriverError::Screen);
}

#[test]
fn empty_sprite_sends_nothing() {
    let mut screen = cleared();
    let before = screen.bus().recorded().len();
    assert_eq!(screen.xor(5, 5, &[]), Ok(true));
    assert_eq!(screen.bus().recorded().len(), before);
    assert_eq!(screen.framebuffer(), vec![0u8; 256]);
}

#[test]
fn failed_init_step_stops_the_sequence() {
    let mut panel = SimPanel::new();
    panel.fail_writes_after(3);
    let mut screen = Sh1106::new(panel);
    assert_eq!(screen.init(), Err(Error::Spi));
    let events = screen.bus().recorded();
    let f = frames(&events[..events.len() - 3]);
    assert_eq!(f.len(), 3);
    assert_eq!(f[2], (false, vec![0x21]));
    // the fourth transaction asserted chip select, failed, and released it
    assert_eq!(
        events[events.len() - 3..].to_vec(),
        vec![BusEvent::Mode(false), BusEvent::ChipSelect(false), BusEvent::ChipSelect(true)]
    );
}

#[test]
fn failed_xor_keeps_rows_drawn_before_the_failure() {
    let mut panel = SimPanel::new();
    // the first row renders with six writes; the seventh fails
    panel.fail_writes_after(6);
    let mut screen = Sh1106::new(panel);
    assert_eq!(screen.xor(0, 0, &[0x0F, 0xF0]), Err(Error::Spi));
    assert_eq!(row(&screen, 0)[0], 0x0F);
    assert_eq!(row(&screen, 1)[0], 0xF0);
}

use oled_twi::bus::BusEvent;
use oled_twi::bus::I2cError;
use oled_twi::bus::LocalI2C;
use oled_twi::bus::TwiReply;
use oled_twi::display::DisplayError;
use oled_twi::display::Ssd1306;
use oled_twi::sim::SimTwi;

fn ok_reply(status: u8) -> TwiReply {
    TwiReply { wc: false, status, data: 0 }
}

/// One fully acknowledged write transaction of `n` transmitted bytes.
fn push_write_txn(script: &mut Vec<TwiReply>, n: usize) {
    script.push(ok_reply(0x08));
    for _ in 0..n {
        script.push(ok_reply(0x28));
    }
}

fn new_display(script: Vec<TwiReply>, w: u8, h: u8) -> Ssd1306<SimTwi> {
    Ssd1306::new(LocalI2C::new(SimTwi::new(script)), w, h)
}

fn buffer_copy(d: &Ssd1306<SimTwi>) -> Vec<u8> {
    let mut out = Vec::new();
    for i in 0..1024 {
        out.push(d.buffer_byte(i));
    }
    out
}

fn pixel(d: &Ssd1306<SimTwi>, x: u8, y: u8, w: u8) -> bool {
    let idx = x as usize + (y as usize / 8) * (w as usize);
    d.buffer_byte(idx) & (1u8 << (y % 8)) != 0
}

fn push_cmd_events(ev: &mut Vec<BusEvent>, c: u8) {
    ev.push(BusEvent::Start);
    ev.push(BusEvent::Write(0x78));
    ev.push(BusEvent::Write(0x00));
    ev.push(BusEvent::Write(c));
    ev.push(BusEvent::Stop);
}

#[test]
fn draw_pixel_sets_and_clears_the_bit() {
    let mut d = new_display(Vec::new(), 128, 64);
    d.draw_pixel(10, 10, true);
    // byte 10 + (10 / 8) * 128, bit 10 % 8
    assert_eq!(d.buffer_byte(10 + 128), 1u8 << 2);
    assert!(pixel(&d, 10, 10, 128));
    d.draw_pixel(10, 10, false);
    assert_eq!(d.buffer_byte(10 + 128), 0);
}

#[test]
fn draw_pixel_leaves_other_pixels_alone() {
    let mut d = new_display(Vec::new(), 128, 64);
    d.draw_pixel(3, 9, true);
    d.draw_pixel(3, 10, true);
    d.draw_pixel(4, 9, false);
    assert!(pixel(&d, 3, 9, 128));
    assert!(pixel(&d, 3, 10, 128));
    assert!(!pixel(&d, 4, 9, 128));
    // the two set pixels share one buffer byte
    assert_eq!(d.buffer_byte(3 + 128), (1u8 << 1) | (1u8 << 2));
}

#[test]
fn draw_pixel_out_of_bounds_is_ignored() {
    let mut d = new_display(Vec::new(), 64, 48);
    d.draw_pixel(64, 0, true);
    d.draw_pixel(0, 48, true);
    d.draw_pixel(255, 255, true);
    for i in 0..1024 {
        assert_eq!(d.buffer_byte(i), 0);
    }
}

#[test]
fn draw_pixel_twice_equals_once() {
    let mut once = new_display(Vec::new(), 128, 64);
    once.draw_pixel(77, 33, true);
    let mut twice = new_display(Vec::new(), 128, 64);
    twice.draw_pixel(77, 33, true);
    twice.draw_pixel(77, 33, true);
    assert_eq!(buffer_copy(&once), buffer_copy(&twice));
}

#[test]
fn draw_line_diagonal_sets_exactly_six_pixels() {
    let mut d = new_display(Vec::new(), 128, 64);
    d.draw_line(0, 0, 5, 5, true);
    for x in 0..128u8 {
        for y in 0..64u8 {
            let expected = x == y && x <= 5;
            assert_eq!(pixel(&d, x, y, 128), expected, "pixel ({}, {})", x, y);
        }
    }
}

#[test]
fn draw_line_horizontal_sets_exactly_six_pixels() {
    let mut d = new_display(Vec::new(), 128, 64);
    d.draw_line(0, 0, 5, 0, true);
    for x in 0..128u8 {
        for y in 0..64u8 {
            let expected = y == 0 && x <= 5;
            assert_eq!(pixel(&d, x, y, 128), expected, "pixel ({}, {})", x, y);
        }
    }
}

#[test]
fn draw_line_follows_the_stepping_rule() {
    // Reference walk of the stepping rule for a shallow line.
    let (x0, y0, x1, y1) = (2u8, 1u8, 9u8, 4u8);
    let mut expected = vec![vec![false; 64]; 128];
    {
        let dx = (x1 as i32 - x0 as i32).abs();
        let dy = (y1 as i32 - y0 as i32).abs();
        let sx = if x1 > x0 { 1i32 } else { -1 };
        let sy = if y1 > y0 { 1i32 } else { -1 };
        let mut err = dx - dy;
        let mut x = x0 as i32;
        let mut y = y0 as i32;
        loop {
            expected[x as usize][y as usize] = true;
            if x == x1 as i32 && y == y1 as i32 {
                break;
            }
            let e2 = 2 * err;
            if e2 > -dy {
                err -= dy;
                x += sx;
            }
            if e2 < dx {
                err += dx;
                y += sy;
            }
        }
    }
    let mut d = new_display(Vec::new(), 128, 64);
    d.draw_line(x0, y0, x1, y1, false);
    // drawing "off" pixels over a zeroed buffer changes nothing
    for i in 0..1024 {
        assert_eq!(d.buffer_byte(i), 0);
    }
    d.draw_line(x0, y0, x1, y1, true);
    for x in 0..128u8 {
        for y in 0..64u8 {
            assert_eq!(pixel(&d, x, y, 128), expected[x as usize][y as usize]);
        }
    }
}

#[test]
fn draw_line_partially_off_screen_is_clipped() {
    let mut d = new_display(Vec::new(), 16, 16);
    d.draw_line(10, 3, 30, 3, true);
    for x in 0..16u8 {
        for y in 0..16u8 {
            let expected = y == 3 && x >= 10;
            assert_eq!(pixel(&d, x, y, 16), expected);
        }
    }
}

#[test]
fn init_sends_the_configuration_sequence() {
    let mut script = Vec::new();
    for _ in 0..7 {
        push_write_txn(&mut script, 3);
    }
    let mut d = new_display(script, 128, 64);
    assert!(d.init().is_ok());
    let mut expected = Vec::new();
    for c in [0xAEu8, 0x00, 0x10, 0x40, 0x81, 0xCF, 0xAF] {
        push_cmd_events(&mut expected, c);
    }
    assert_eq!(*d.bus().port().recorded(), expected);
}

#[test]
fn init_aborts_at_the_first_failing_command() {
    let mut script = Vec::new();
    push_write_txn(&mut script, 3);
    push_write_txn(&mut script, 3);
    script.push(ok_reply(0x08));
    script.push(ok_reply(0x28));
    script.push(ok_reply(0x00)); // control byte of the third command not acked
    let mut d = new_display(script, 128, 64);
    let r = d.init();
    assert_eq!(
        r,
        Err(DisplayError::Command { opcode: 0x10, cause: I2cError::NackError })
    );
    // two full commands, then the aborted third
    assert_eq!(d.bus().port().recorded().len(), 5 + 5 + 4);
}

#[test]
fn command_wraps_opcode_with_control_byte() {
    let mut script = Vec::new();
    push_write_txn(&mut script, 3);
    let mut d = new_display(script, 128, 64);
    assert!(d.command(0xA5).is_ok());
    let mut expected = Vec::new();
    push_cmd_events(&mut expected, 0xA5);
    assert_eq!(*d.bus().port().recorded(), expected);
}

#[test]
fn command_write_collision_is_reported() {
    let script = vec![ok_reply(0x08), TwiReply { wc: true, status: 0x28, data: 0 }];
    let mut d = new_display(script, 128, 64);
    let r = d.command(0xAF);
    assert_eq!(
        r,
        Err(DisplayError::Command { opcode: 0xAF, cause: I2cError::WriteCollision })
    );
}

#[test]
fn command_bad_start_is_protocol_error() {
    let script = vec![ok_reply(0x40)];
    let mut d = new_display(script, 128, 64);
    let r = d.command(0xAE);
    assert_eq!(
        r,
        Err(DisplayError::Command { opcode: 0xAE, cause: I2cError::ProtocolError })
    );
}

#[test]
fn set_page_address_sends_one_command() {
    let mut script = Vec::new();
    push_write_txn(&mut script, 3);
    let mut d = new_display(script, 128, 64);
    assert!(d.set_page_address(5).is_ok());
    let mut expected = Vec::new();
    push_cmd_events(&mut expected, 0xB5);
    assert_eq!(*d.bus().port().recorded(), expected);
}

#[test]
fn set_column_address_sends_three_commands() {
    let mut script = Vec::new();
    for _ in 0..3 {
        push_write_txn(&mut script, 3);
    }
    let mut d = new_display(script, 128, 64);
    assert!(d.set_column_address(0, 127).is_ok());
    let mut expected = Vec::new();
    push_cmd_events(&mut expected, 0x21);
    push_cmd_events(&mut expected, 0);
    push_cmd_events(&mut expected, 127);
    assert_eq!(*d.bus().port().recorded(), expected);
}

#[test]
fn flush_streams_eight_pages_in_order() {
    let w: usize = 64;
    let mut script = Vec::new();
    for _ in 0..8 {
        for _ in 0..4 {
            push_write_txn(&mut script, 3);
        }
        push_write_txn(&mut script, w + 2);
    }
    let mut d = new_display(script, 64, 64);
    d.draw_pixel(0, 0, true); // first buffer byte becomes 0x01
    assert!(d.display().is_ok());

    let mut expected = Vec::new();
    for p in 0..8u8 {
        push_cmd_events(&mut expected, 0xB0 + p);
        push_cmd_events(&mut expected, 0x21);
        push_cmd_events(&mut expected, 0x00);
        push_cmd_events(&mut expected, 63);
        expected.push(BusEvent::Start);
        expected.push(BusEvent::Write(0x78));
        expected.push(BusEvent::Write(0x40));
        for col in 0..w {
            let b = if p == 0 && col == 0 { 0x01 } else { 0x00 };
            expected.push(BusEvent::Write(b));
        }
        expected.push(BusEvent::Stop);
    }
    let log = d.bus().port().recorded();
    assert_eq!(*log, expected);

    // page-address commands, column windows and data bytes, counted
    let mut page_cmds = 0;
    let mut window_cmds = 0;
    for ev in log.iter() {
        if let BusEvent::Write(b) = ev {
            if (0xB0..0xB8).contains(b) {
                page_cmds += 1;
            }
            if *b == 0x21 {
                window_cmds += 1;
            }
        }
    }
    assert_eq!(page_cmds, 8);
    assert_eq!(window_cmds, 8);
    let data_events: usize = 8 * (w + 2); // address, control and data bytes per page
    let cmd_events: usize = 8 * 4 * 3;
    let starts_stops: usize = 8 * 5 * 2;
    assert_eq!(log.len(), data_events + cmd_events + starts_stops);
}

#[test]
fn flush_aborts_on_a_page_error_and_reports_the_page() {
    let w: usize = 64;
    let mut script = Vec::new();
    // pages 0 through 2 fully acknowledged
    for _ in 0..3 {
        for _ in 0..4 {
            push_write_txn(&mut script, 3);
        }
        push_write_txn(&mut script, w + 2);
    }
    // page 3: addressing fine, data transaction dies at its first byte
    for _ in 0..4 {
        push_write_txn(&mut script, 3);
    }
    script.push(ok_reply(0x08));
    script.push(ok_reply(0x00));
    let mut d = new_display(script, 64, 64);
    let r = d.display();
    assert_eq!(
        r,
        Err(DisplayError::Data { page: 3, cause: I2cError::NackError })
    );
    // three full pages, page 3's commands, then the aborted data transfer
    let per_page = 4 * 5 + (w + 4);
    assert_eq!(d.bus().port().recorded().len(), 3 * per_page + 4 * 5 + 3);
}

#[test]
fn flush_reports_a_failing_addressing_command() {
    // page 0: the page-address command is not even started
    let script = vec![ok_reply(0x00)];
    let mut d = new_display(script, 64, 64);
    let r = d.display();
    assert_eq!(
        r,
        Err(DisplayError::Command { opcode: 0xB0, cause: I2cError::ProtocolError })
    );
}

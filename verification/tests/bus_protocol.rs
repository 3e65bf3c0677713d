use oled_twi::bus::BusEvent;
use oled_twi::bus::I2cError;
use oled_twi::bus::LocalI2C;
use oled_twi::bus::TwiReply;
use oled_twi::sim::SimTwi;

fn ok_reply(status: u8) -> TwiReply {
    TwiReply { wc: false, status, data: 0 }
}

fn data_reply(status: u8, data: u8) -> TwiReply {
    TwiReply { wc: false, status, data }
}

/// One fully acknowledged write transaction of `n` transmitted bytes:
/// a start reply followed by `n` transmit acknowledgements.
fn push_write_txn(script: &mut Vec<TwiReply>, n: usize) {
    script.push(ok_reply(0x08));
    for _ in 0..n {
        script.push(ok_reply(0x28));
    }
}

#[test]
fn write_transaction_event_sequence() {
    let mut script: Vec<TwiReply> = Vec::new();
    push_write_txn(&mut script, 3);
    let mut bus = LocalI2C::new(SimTwi::new(script));
    let r = bus.write(0x3C, &[0x00, 0xAE]);
    assert!(r.is_ok());
    let log = bus.port().recorded();
    let expected = vec![
        BusEvent::Start,
        BusEvent::Write(0x78),
        BusEvent::Write(0x00),
        BusEvent::Write(0xAE),
        BusEvent::Stop,
    ];
    assert_eq!(*log, expected);
}

#[test]
fn write_nack_at_address_sends_nothing_more() {
    // Start is acknowledged, but the address byte gets a status outside
    // the master-transmit family: the data bytes must never be sent.
    let script = vec![ok_reply(0x08), ok_reply(0x20)];
    let mut bus = LocalI2C::new(SimTwi::new(script));
    let r = bus.write(0x3C, &[0x00, 0xAE]);
    assert_eq!(r, Err(I2cError::NackError));
    let log = bus.port().recorded();
    let expected = vec![BusEvent::Start, BusEvent::Write(0x78), BusEvent::Stop];
    assert_eq!(*log, expected);
}

#[test]
fn write_bad_start_is_protocol_error() {
    let script = vec![ok_reply(0x00)];
    let mut bus = LocalI2C::new(SimTwi::new(script));
    let r = bus.write(0x3C, &[0x01]);
    assert_eq!(r, Err(I2cError::ProtocolError));
    let log = bus.port().recorded();
    assert_eq!(*log, vec![BusEvent::Start, BusEvent::Stop]);
}

#[test]
fn write_nack_mid_data_keeps_prefix() {
    // Address and first data byte acknowledged, second data byte not.
    let script = vec![ok_reply(0x08), ok_reply(0x28), ok_reply(0x28), ok_reply(0x30)];
    let mut bus = LocalI2C::new(SimTwi::new(script));
    let r = bus.write(0x3C, &[0x11, 0x22, 0x33]);
    assert_eq!(r, Err(I2cError::NackError));
    let log = bus.port().recorded();
    let expected = vec![
        BusEvent::Start,
        BusEvent::Write(0x78),
        BusEvent::Write(0x11),
        BusEvent::Write(0x22),
        BusEvent::Stop,
    ];
    assert_eq!(*log, expected);
}

#[test]
fn write_collision_is_surfaced() {
    let script = vec![ok_reply(0x08), TwiReply { wc: true, status: 0x28, data: 0 }];
    let mut bus = LocalI2C::new(SimTwi::new(script));
    let r = bus.write(0x3C, &[0x55]);
    assert_eq!(r, Err(I2cError::WriteCollision));
    // A collided byte never reaches the bus.
    let log = bus.port().recorded();
    assert_eq!(*log, vec![BusEvent::Start, BusEvent::Stop]);
}

#[test]
fn write_to_silent_device_fails() {
    let mut bus = LocalI2C::new(SimTwi::new(Vec::new()));
    let r = bus.write(0x3C, &[0xAE]);
    assert_eq!(r, Err(I2cError::ProtocolError));
}

#[test]
fn status_prescaler_bits_are_masked() {
    // Status 0x2B carries prescaler bits; the code family 0x28 must match.
    let script = vec![ok_reply(0x0B), ok_reply(0x2B)];
    let mut bus = LocalI2C::new(SimTwi::new(script));
    assert!(bus.start().is_ok());
    assert!(bus.send_byte(0x42).is_ok());
    bus.stop();
    let log = bus.port().recorded();
    assert_eq!(*log, vec![BusEvent::Start, BusEvent::Write(0x42), BusEvent::Stop]);
}

#[test]
fn read_transaction_returns_scripted_bytes() {
    let mut script: Vec<TwiReply> = Vec::new();
    script.push(ok_reply(0x08));
    script.push(ok_reply(0x28));
    script.push(data_reply(0x50, 0xAA));
    script.push(data_reply(0x50, 0x55));
    let mut bus = LocalI2C::new(SimTwi::new(script));
    let r = bus.read(0x3C, 2);
    assert_eq!(r, Ok(vec![0xAA, 0x55]));
    let log = bus.port().recorded();
    let expected = vec![
        BusEvent::Start,
        BusEvent::Write(0x79),
        BusEvent::Read(true),
        BusEvent::Read(false),
        BusEvent::Stop,
    ];
    assert_eq!(*log, expected);
}

#[test]
fn read_single_byte_is_not_acknowledged() {
    // The final (here: only) byte must carry a cleared acknowledge.
    let script = vec![ok_reply(0x08), ok_reply(0x28), data_reply(0x50, 0x7F)];
    let mut bus = LocalI2C::new(SimTwi::new(script));
    let r = bus.read(0x3C, 1);
    assert_eq!(r, Ok(vec![0x7F]));
    let log = bus.port().recorded();
    let expected = vec![
        BusEvent::Start,
        BusEvent::Write(0x79),
        BusEvent::Read(false),
        BusEvent::Stop,
    ];
    assert_eq!(*log, expected);
}

#[test]
fn read_bad_receive_status_is_protocol_error() {
    let script = vec![ok_reply(0x08), ok_reply(0x28), data_reply(0x50, 0x01), data_reply(0x58, 0x02)];
    let mut bus = LocalI2C::new(SimTwi::new(script));
    let r = bus.read(0x3C, 3);
    assert_eq!(r, Err(I2cError::ProtocolError));
    let log = bus.port().recorded();
    let expected = vec![
        BusEvent::Start,
        BusEvent::Write(0x79),
        BusEvent::Read(true),
        BusEvent::Read(true),
        BusEvent::Stop,
    ];
    assert_eq!(*log, expected);
}

#[test]
fn read_nack_at_address() {
    let script = vec![ok_reply(0x08), ok_reply(0x48)];
    let mut bus = LocalI2C::new(SimTwi::new(script));
    let r = bus.read(0x3C, 2);
    assert_eq!(r, Err(I2cError::NackError));
    let log = bus.port().recorded();
    assert_eq!(*log, vec![BusEvent::Start, BusEvent::Write(0x79), BusEvent::Stop]);
}

#[test]
fn receive_byte_records_acknowledge_flag() {
    let script = vec![data_reply(0x50, 0x10), data_reply(0x50, 0x20)];
    let mut bus = LocalI2C::new(SimTwi::new(script));
    assert_eq!(bus.receive_byte(true), Ok(0x10));
    assert_eq!(bus.receive_byte(false), Ok(0x20));
    let log = bus.port().recorded();
    assert_eq!(*log, vec![BusEvent::Read(true), BusEvent::Read(false)]);
}

#[test]
fn write_of_no_bytes_still_addresses_the_device() {
    let script = vec![ok_reply(0x08), ok_reply(0x28)];
    let mut bus = LocalI2C::new(SimTwi::new(script));
    assert_eq!(bus.write(0x3C, &[]), Ok(()));
    let log = bus.port().recorded();
    assert_eq!(*log, vec![BusEvent::Start, BusEvent::Write(0x78), BusEvent::Stop]);
}

#[test]
fn read_of_no_bytes_still_addresses_the_device() {
    let script = vec![ok_reply(0x08), ok_reply(0x28)];
    let mut bus = LocalI2C::new(SimTwi::new(script));
    assert_eq!(bus.read(0x3C, 0), Ok(Vec::new()));
    let log = bus.port().recorded();
    assert_eq!(*log, vec![BusEvent::Start, BusEvent::Write(0x79), BusEvent::Stop]);
}

#[test]
fn write_read_runs_both_phases() {
    let mut script: Vec<TwiReply> = Vec::new();
    push_write_txn(&mut script, 2); // address byte and one data byte
    script.push(ok_reply(0x08));
    script.push(ok_reply(0x28));
    script.push(data_reply(0x50, 0xC3));
    let mut bus = LocalI2C::new(SimTwi::new(script));
    let r = bus.write_read(0x3C, &[0x0F], 1);
    assert_eq!(r, Ok(vec![0xC3]));
    let log = bus.port().recorded();
    let expected = vec![
        BusEvent::Start,
        BusEvent::Write(0x78),
        BusEvent::Write(0x0F),
        BusEvent::Stop,
        BusEvent::Start,
        BusEvent::Write(0x79),
        BusEvent::Read(false),
        BusEvent::Stop,
    ];
    assert_eq!(*log, expected);
}

#[test]
fn write_read_skips_the_read_phase_on_a_write_error() {
    let script = vec![ok_reply(0x08), ok_reply(0x00)];
    let mut bus = LocalI2C::new(SimTwi::new(script));
    let r = bus.write_read(0x3C, &[0x0F], 4);
    assert_eq!(r, Err(I2cError::NackError));
    let log = bus.port().recorded();
    assert_eq!(*log, vec![BusEvent::Start, BusEvent::Write(0x78), BusEvent::Stop]);
}

#[test]
fn write_read_reports_a_read_phase_error() {
    let mut script: Vec<TwiReply> = Vec::new();
    push_write_txn(&mut script, 2);
    script.push(ok_reply(0x08));
    script.push(ok_reply(0x28));
    script.push(data_reply(0x38, 0x00)); // receive status outside the family
    let mut bus = LocalI2C::new(SimTwi::new(script));
    let r = bus.write_read(0x3C, &[0x0F], 1);
    assert_eq!(r, Err(I2cError::ProtocolError));
}

#[test]
fn start_with_wrong_status_fails() {
    let script = vec![ok_reply(0x10)];
    let mut bus = LocalI2C::new(SimTwi::new(script));
    assert_eq!(bus.start(), Err(I2cError::ProtocolError));
}

//! Driver stack for a monochrome OLED display behind a two-wire serial bus.
//!
//! The stack has two layers. [`bus::LocalI2C`] is a bus master that drives
//! the two-wire handshake protocol (start/stop conditions, byte transfer,
//! acknowledgement checking) over an opaque register port. [`display::Ssd1306`]
//! sits on top of it: it keeps an off-screen pixel buffer, rasterizes lines
//! into it, and flushes it to the device page by page.
//!
//! Hardware access is abstracted by the [`bus::TwiPort`] trait, whose contract
//! describes every register interaction as an event appended to a wire log and
//! a status reply consumed from a stream. [`sim::SimTwi`] is a verified
//! in-memory port used to exercise the drivers against scripted hardware.

pub mod bus;
pub mod display;
pub mod sim;

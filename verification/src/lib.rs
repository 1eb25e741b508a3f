//! Core logic of a split mechanical keyboard's firmware.
//!
//! Each half of the keyboard scans its own switch matrix, debounces the raw
//! samples into discrete press/release events, translates local matrix
//! coordinates into a unified coordinate space, exchanges events with the
//! other half over a byte-oriented serial link, resolves layered and
//! hold-tap actions, and assembles a USB HID boot-protocol keyboard report.
//!
//! This crate holds that pipeline as verified code. The hardware shell
//! (interrupt wiring, USB and UART peripherals) lives outside; it hands the
//! library raw matrix samples and received bytes, and takes back wire
//! packets and finished reports.

pub mod event;
pub mod codec;
pub mod debounce;
pub mod report;
pub mod layout;
pub mod keyboard;

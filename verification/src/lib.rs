//! Mapping engine that turns decoded OSC control messages into pixel values
//! for a bank of fixed-length LED strips, and flushes every strip's buffer to
//! its output device once per cycle.
//!
//! The library owns the addressing schemes and the bounds-checked buffer
//! arithmetic. Platform work (socket reception, wire decoding, SPI bring-up)
//! stays outside; it hands in an already decoded [`osc::OscPacket`] and
//! implements [`strip::RGB8SmartLedsWrite`] for its devices.

pub mod color;
pub mod mapper;
pub mod osc;
pub mod route;
pub mod strip;
pub mod text;

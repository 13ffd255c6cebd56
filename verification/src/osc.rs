//! The decoded message model.
//!
//! The wire protocol is decoded outside this library; the engine receives a
//! packet that is either one message — an address path plus typed arguments —
//! or something else (a bundle, say), which it drops as unsupported.

use vstd::prelude::*;
use crate::color::Rgb;

verus! {

/// One typed argument of a decoded message. Only color and float arguments
/// mean anything to the mapping engine; every other argument type collapses
/// into `Other`.
///
/// A float argument arrives here already scaled to a byte: the decode
/// boundary multiplies the raw value by 255 and truncates, because the
/// mapping logic only ever reads that byte.
#[derive(Clone, Copy, PartialEq, Eq, Structural, Debug)]
pub enum OscArg {
    /// A color argument: three 8-bit channels.
    Color(Rgb),
    /// A float argument, carried as its byte-scaled value.
    Float { byte: u8 },
    /// An argument of any other type.
    Other,
}

/// A decoded message: a slash-delimited address path and its arguments.
pub struct OscMessage {
    pub addr: String,
    pub args: Vec<OscArg>,
}

/// A decoded packet: either a single message, or other content (such as a
/// bundle), which the engine does not support.
pub enum OscPacket {
    Message(OscMessage),
    Other,
}

} // verus!

//! The address router: classifies a decoded message by the shape of its
//! address path and argument list.
//!
//! Exactly two shapes are understood. A two-segment path `led_strips/<n>`
//! where `<n>` parses as a non-negative integer is a sequential-color
//! request; the parsed index only gates acceptance and does not select a
//! strip. A three-segment path `<universe>/dmx/<channel>` whose numeric
//! segments parse, carrying exactly one float argument, is a
//! channel-indexed request. Everything else is unsupported and dropped.

use vstd::prelude::*;
use crate::osc::{OscArg, OscMessage};
use crate::text::{parse_usize, spec_parse_usize, spec_split_path, split_path, str_eq};

verus! {

/// The mapping strategy selected for one message.
#[derive(Clone, Copy, PartialEq, Eq, Structural, Debug)]
pub enum Route {
    /// Packed color stream: fill pixels in bank order from the first strip.
    SequentialColor,
    /// One float value for one color channel of one pixel, addressed by a
    /// flattened universe/channel number.
    ChannelIndexed { universe: usize, channel: usize },
    /// Anything else: dropped without effect.
    Unsupported,
}

/// Whether `args` is exactly one float argument.
pub open spec fn single_float(args: Seq<OscArg>) -> bool {
    args.len() == 1 && args[0] is Float
}

/// The route of a message with address path `addr` and arguments `args`.
pub open spec fn spec_route(addr: Seq<char>, args: Seq<OscArg>) -> Route {
    let segs = spec_split_path(addr);
    if segs.len() == 2 && segs[0] == "led_strips"@ {
        if spec_parse_usize(segs[1]) is Some {
            Route::SequentialColor
        } else {
            Route::Unsupported
        }
    } else if segs.len() == 3 && segs[1] == "dmx"@ && spec_parse_usize(segs[0]) is Some
        && spec_parse_usize(segs[2]) is Some && single_float(args) {
        Route::ChannelIndexed {
            universe: spec_parse_usize(segs[0]).unwrap(),
            channel: spec_parse_usize(segs[2]).unwrap(),
        }
    } else {
        Route::Unsupported
    }
}

/// Classifies one decoded message. Routing reads the message and nothing
/// else; it never touches pixel state.
pub fn route(msg: &OscMessage) -> (r: Route)
    ensures
        r == spec_route(msg.addr@, msg.args@),
{
    let segs = split_path(msg.addr.as_str());
    let ghost sv = spec_split_path(msg.addr@);
    proof {
        assert(segs@.map_values(|t: String| t@)[0] == segs@[0]@);
    }
    if segs.len() == 2 && str_eq(segs[0].as_str(), "led_strips") {
        proof {
            assert(segs@.map_values(|t: String| t@)[1] == segs@[1]@);
        }
        match parse_usize(segs[1].as_str()) {
            Some(_) => Route::SequentialColor,
            None => Route::Unsupported,
        }
    } else if segs.len() == 3 && str_eq(segs[1].as_str(), "dmx") {
        proof {
            assert(segs@.map_values(|t: String| t@)[1] == segs@[1]@);
            assert(segs@.map_values(|t: String| t@)[2] == segs@[2]@);
        }
        let u = parse_usize(segs[0].as_str());
        let c = parse_usize(segs[2].as_str());
        let args_ok = msg.args.len() == 1 && matches!(msg.args[0], OscArg::Float { .. });
        match (u, c) {
            (Some(universe), Some(channel)) => {
                if args_ok {
                    Route::ChannelIndexed { universe, channel }
                } else {
                    Route::Unsupported
                }
            },
            _ => Route::Unsupported,
        }
    } else {
        Route::Unsupported
    }
}

} // verus!

use osc_receiver::color::Rgb;
use osc_receiver::osc::{OscArg, OscMessage};
use osc_receiver::route::{route, Route};

fn msg(addr: &str, args: Vec<OscArg>) -> OscMessage {
    OscMessage { addr: String::from(addr), args }
}

#[test]
fn routes_sequential_color_path() {
    let m = msg("/led_strips/0", vec![OscArg::Color(Rgb { r: 1, g: 2, b: 3 })]);
    assert_eq!(route(&m), Route::SequentialColor);
}

#[test]
fn sequential_index_only_gates_acceptance() {
    // Any parsable index is accepted, whatever its value.
    let m = msg("/led_strips/99", vec![]);
    assert_eq!(route(&m), Route::SequentialColor);
}

#[test]
fn sequential_index_may_carry_a_plus_sign() {
    // The numeric segment parses as `usize` does, sign included.
    let m = msg("/led_strips/+1", vec![]);
    assert_eq!(route(&m), Route::SequentialColor);
}

#[test]
fn rejects_sequential_path_with_bad_index() {
    let m = msg("/led_strips/zero", vec![]);
    assert_eq!(route(&m), Route::Unsupported);
}

#[test]
fn routes_channel_indexed_path() {
    let m = msg("/1/dmx/7", vec![OscArg::Float { byte: 10 }]);
    assert_eq!(route(&m), Route::ChannelIndexed { universe: 1, channel: 7 });
}

#[test]
fn rejects_channel_indexed_without_single_float() {
    let none = msg("/1/dmx/7", vec![]);
    assert_eq!(route(&none), Route::Unsupported);
    let two = msg(
        "/1/dmx/7",
        vec![OscArg::Float { byte: 1 }, OscArg::Float { byte: 2 }],
    );
    assert_eq!(route(&two), Route::Unsupported);
    let color = msg("/1/dmx/7", vec![OscArg::Color(Rgb { r: 0, g: 0, b: 0 })]);
    assert_eq!(route(&color), Route::Unsupported);
}

#[test]
fn rejects_channel_indexed_with_bad_numbers() {
    let m = msg("/one/dmx/7", vec![OscArg::Float { byte: 1 }]);
    assert_eq!(route(&m), Route::Unsupported);
    let m = msg("/1/dmx/seven", vec![OscArg::Float { byte: 1 }]);
    assert_eq!(route(&m), Route::Unsupported);
}

#[test]
fn rejects_other_shapes() {
    assert_eq!(route(&msg("/foo/bar", vec![])), Route::Unsupported);
    assert_eq!(route(&msg("/led_strips", vec![])), Route::Unsupported);
    assert_eq!(route(&msg("/led_strips/1/2", vec![])), Route::Unsupported);
    assert_eq!(
        route(&msg("/1/dmx/2/3", vec![OscArg::Float { byte: 1 }])),
        Route::Unsupported
    );
    assert_eq!(route(&msg("", vec![])), Route::Unsupported);
}

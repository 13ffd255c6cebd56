use osc_receiver::color::Rgb;
use osc_receiver::mapper::{map_channel_indexed, map_sequential, receive_osc_packet, Receipt};
use osc_receiver::osc::{OscArg, OscMessage, OscPacket};
use osc_receiver::strip::{LedStrip, RecordingSink};

fn off() -> Rgb {
    Rgb { r: 0, g: 0, b: 0 }
}

fn bank(lens: &[usize]) -> Vec<LedStrip<RecordingSink>> {
    lens.iter()
        .map(|&n| LedStrip { smart_led: RecordingSink::new(), data: vec![off(); n] })
        .collect()
}

fn datas(strips: &Vec<LedStrip<RecordingSink>>) -> Vec<Vec<Rgb>> {
    strips.iter().map(|s| s.data.clone()).collect()
}

fn float_to_byte(value: f32) -> u8 {
    (value * 255.0) as u8
}

fn dmx_packet(universe: usize, channel: usize, value: f32) -> OscPacket {
    OscPacket::Message(OscMessage {
        addr: format!("/{}/dmx/{}", universe, channel),
        args: vec![OscArg::Float { byte: float_to_byte(value) }],
    })
}

fn color_packet(colors: &[Rgb]) -> OscPacket {
    OscPacket::Message(OscMessage {
        addr: String::from("/led_strips/0"),
        args: colors.iter().map(|&c| OscArg::Color(c)).collect(),
    })
}

#[test]
fn channel_zero_sets_red_of_first_pixel() {
    // universe 0, channel 0, value 1.0: flat 0, color 0 (red), pixel 0.
    let mut strips = bank(&[5]);
    let receipt = receive_osc_packet(&dmx_packet(0, 0, 1.0), &mut strips);
    assert_eq!(receipt, Receipt::ChannelSet);
    assert_eq!(strips[0].data[0], Rgb { r: 255, g: 0, b: 0 });
    for i in 1..5 {
        assert_eq!(strips[0].data[i], off());
    }
}

#[test]
fn channel_two_sets_blue_of_first_pixel_truncated() {
    // universe 0, channel 2, value 0.5: color 2 (blue), 0.5 * 255 truncates
    // to 127.
    let mut strips = bank(&[5]);
    let receipt = receive_osc_packet(&dmx_packet(0, 2, 0.5), &mut strips);
    assert_eq!(receipt, Receipt::ChannelSet);
    assert_eq!(strips[0].data[0], Rgb { r: 0, g: 0, b: 127 });
}

#[test]
fn channel_one_sets_green() {
    let mut strips = bank(&[5]);
    let receipt = receive_osc_packet(&dmx_packet(0, 1, 1.0), &mut strips);
    assert_eq!(receipt, Receipt::ChannelSet);
    assert_eq!(strips[0].data[0], Rgb { r: 0, g: 255, b: 0 });
}

#[test]
fn universe_one_lands_on_pixel_170_blue() {
    // universe 1, channel 0: flat 512, color 2 (blue), global pixel 170.
    let mut strips = bank(&[171]);
    let receipt = receive_osc_packet(&dmx_packet(1, 0, 1.0), &mut strips);
    assert_eq!(receipt, Receipt::ChannelSet);
    assert_eq!(strips[0].data[170], Rgb { r: 0, g: 0, b: 255 });
}

#[test]
fn universe_one_dropped_when_bank_too_small() {
    // Global pixel 170 does not exist in a bank of 170 pixels: dropped, no
    // mutation.
    let mut strips = bank(&[100, 70]);
    let before = datas(&strips);
    let receipt = receive_osc_packet(&dmx_packet(1, 0, 1.0), &mut strips);
    assert_eq!(receipt, Receipt::ChannelDropped);
    assert_eq!(datas(&strips), before);
}

#[test]
fn channel_indexed_crosses_strips() {
    // Global pixel 4 of bank [3, 4] is pixel 1 of the second strip;
    // channel 12 flattens to color 0 (red) of global pixel 4.
    let mut strips = bank(&[3, 4]);
    let receipt = receive_osc_packet(&dmx_packet(0, 12, 1.0), &mut strips);
    assert_eq!(receipt, Receipt::ChannelSet);
    assert_eq!(strips[1].data[1], Rgb { r: 255, g: 0, b: 0 });
    assert_eq!(strips[0].data, vec![off(); 3]);
}

#[test]
fn channel_indexed_is_idempotent() {
    let mut once = bank(&[4, 4]);
    let mut twice = bank(&[4, 4]);
    let packet = dmx_packet(0, 7, 0.9);
    receive_osc_packet(&packet, &mut once);
    receive_osc_packet(&packet, &mut twice);
    receive_osc_packet(&packet, &mut twice);
    assert_eq!(datas(&once), datas(&twice));
}

#[test]
fn later_message_wins_on_same_channel() {
    let mut strips = bank(&[4]);
    receive_osc_packet(&dmx_packet(0, 0, 1.0), &mut strips);
    receive_osc_packet(&dmx_packet(0, 0, 0.5), &mut strips);
    assert_eq!(strips[0].data[0], Rgb { r: 127, g: 0, b: 0 });
}

#[test]
fn sequential_fills_in_argument_and_bank_order() {
    // Strips of length 4 take three colors each before the cursor advances:
    // the last pixel of each strip is left for the advance check.
    let c: Vec<Rgb> = (1..=4).map(|i| Rgb { r: i, g: 0, b: 0 }).collect();
    let mut strips = bank(&[4, 4]);
    let receipt = receive_osc_packet(&color_packet(&c), &mut strips);
    assert_eq!(receipt, Receipt::Sequential { overflowed: false });
    assert_eq!(strips[0].data, vec![c[0], c[1], c[2], off()]);
    assert_eq!(strips[1].data, vec![c[3], off(), off(), off()]);
}

#[test]
fn sequential_keeps_prior_values_beyond_the_message() {
    let prior = Rgb { r: 9, g: 9, b: 9 };
    let mut strips = bank(&[3, 3]);
    for strip in strips.iter_mut() {
        for p in strip.data.iter_mut() {
            *p = prior;
        }
    }
    let c0 = Rgb { r: 1, g: 2, b: 3 };
    let receipt = receive_osc_packet(&color_packet(&[c0]), &mut strips);
    assert_eq!(receipt, Receipt::Sequential { overflowed: false });
    assert_eq!(strips[0].data, vec![c0, prior, prior]);
    assert_eq!(strips[1].data, vec![prior; 3]);
}

#[test]
fn sequential_overflow_fills_capacity_and_warns_once() {
    // Capacity of bank [3, 3] for packed colors is 2 + 2 slots; six colors
    // overflow it, the four slots are filled, nothing lands out of bounds.
    let c: Vec<Rgb> = (1..=6).map(|i| Rgb { r: 0, g: i, b: 0 }).collect();
    let mut strips = bank(&[3, 3]);
    let receipt = receive_osc_packet(&color_packet(&c), &mut strips);
    assert_eq!(receipt, Receipt::Sequential { overflowed: true });
    assert_eq!(strips[0].data, vec![c[0], c[1], off()]);
    assert_eq!(strips[1].data, vec![c[2], c[3], off()]);
}

#[test]
fn sequential_skips_non_color_arguments() {
    let c0 = Rgb { r: 5, g: 0, b: 0 };
    let c1 = Rgb { r: 6, g: 0, b: 0 };
    let mut strips = bank(&[4]);
    let packet = OscPacket::Message(OscMessage {
        addr: String::from("/led_strips/0"),
        args: vec![
            OscArg::Color(c0),
            OscArg::Float { byte: 200 },
            OscArg::Other,
            OscArg::Color(c1),
        ],
    });
    let receipt = receive_osc_packet(&packet, &mut strips);
    assert_eq!(receipt, Receipt::Sequential { overflowed: false });
    assert_eq!(strips[0].data, vec![c0, c1, off(), off()]);
}

#[test]
fn sequential_strip_index_does_not_select_the_strip() {
    // The parsed index is validated but filling always starts at the first
    // strip in bank order.
    let c0 = Rgb { r: 8, g: 8, b: 8 };
    let mut strips = bank(&[3, 3]);
    let packet = OscPacket::Message(OscMessage {
        addr: String::from("/led_strips/1"),
        args: vec![OscArg::Color(c0)],
    });
    let receipt = receive_osc_packet(&packet, &mut strips);
    assert_eq!(receipt, Receipt::Sequential { overflowed: false });
    assert_eq!(strips[0].data[0], c0);
    assert_eq!(strips[1].data, vec![off(); 3]);
}

#[test]
fn unsupported_address_is_dropped_without_mutation() {
    let mut strips = bank(&[3, 3]);
    let before = datas(&strips);
    let packet = OscPacket::Message(OscMessage {
        addr: String::from("/foo/bar"),
        args: vec![OscArg::Float { byte: 77 }, OscArg::Other],
    });
    let receipt = receive_osc_packet(&packet, &mut strips);
    assert_eq!(receipt, Receipt::Unsupported);
    assert_eq!(datas(&strips), before);
}

#[test]
fn non_message_packet_is_dropped_without_mutation() {
    let mut strips = bank(&[3]);
    let before = datas(&strips);
    let receipt = receive_osc_packet(&OscPacket::Other, &mut strips);
    assert_eq!(receipt, Receipt::Unsupported);
    assert_eq!(datas(&strips), before);
}

#[test]
fn mappers_called_directly_agree_with_the_engine() {
    let mut a = bank(&[4, 4]);
    let mut b = bank(&[4, 4]);
    let c: Vec<Rgb> = (1..=4).map(|i| Rgb { r: i, g: i, b: i }).collect();
    let args: Vec<OscArg> = c.iter().map(|&x| OscArg::Color(x)).collect();
    let overflowed = map_sequential(&mut a, &args);
    let receipt = receive_osc_packet(&color_packet(&c), &mut b);
    assert!(!overflowed);
    assert_eq!(receipt, Receipt::Sequential { overflowed: false });
    assert_eq!(datas(&a), datas(&b));

    let mut a = bank(&[4]);
    let mut b = bank(&[4]);
    assert!(map_channel_indexed(&mut a, 0, 2, 255));
    assert_eq!(receive_osc_packet(&dmx_packet(0, 2, 1.0), &mut b), Receipt::ChannelSet);
    assert_eq!(datas(&a), datas(&b));
}

#[test]
fn channel_indexed_rejected_when_flat_index_overflows() {
    let mut strips = bank(&[4]);
    let before = datas(&strips);
    assert!(!map_channel_indexed(&mut strips, usize::MAX, usize::MAX, 255));
    assert_eq!(datas(&strips), before);
}

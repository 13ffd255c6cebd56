//! Strips, the output capability, and the per-cycle flush.
//!
//! A strip pairs one pixel buffer with the device that displays it. The
//! device is reached through [`RGB8SmartLedsWrite`], a capability with a
//! single operation: write this exact pixel sequence. The flush walks the
//! bank in order and performs exactly one write per strip, every cycle,
//! whether or not the buffer changed.

use vstd::prelude::*;
use crate::color::Rgb;

verus! {

/// The pixel count every strip of this design is built with. Nothing in the
/// mapping logic requires equal lengths; this is the configured size.
pub const STRIP_LENGTH: usize = 450;

/// A transport-level failure reported by an output device.
#[derive(Clone, Copy, PartialEq, Eq, Structural, Debug)]
pub struct WriteError;

/// The output capability of one strip: a sink that accepts a full pixel
/// sequence and performs one bus transaction, which either succeeds or
/// reports a transport failure. The ghost history `writes` records every
/// sequence handed to the device, so contracts can state exactly what was
/// flushed and how often.
pub trait RGB8SmartLedsWrite {
    /// The history of pixel sequences written to the device, oldest first.
    /// The default, a history that is forever empty, cannot satisfy
    /// `write_rgb8`'s contract: an implementation verified against it must
    /// say what its own history is. Platform device drivers outside the
    /// verified world leave it be.
    open spec fn writes(&self) -> Seq<Seq<Rgb>> {
        Seq::empty()
    }

    /// Performs one bus transaction carrying exactly `pixels`. The
    /// transaction is attempted — and recorded — whether or not the bus
    /// reports a failure.
    fn write_rgb8(&mut self, pixels: &Vec<Rgb>) -> (r: Result<(), WriteError>)
        ensures
            final (self).writes() == old(self).writes().push(pixels@),
    ;
}

/// One physically addressable LED chain: its current frame and its device.
pub struct LedStrip<S> {
    pub smart_led: S,
    pub data: Vec<Rgb>,
}

impl<S> LedStrip<S> {
    /// A strip of `STRIP_LENGTH` pixels, all off, over the given device.
    pub fn new(smart_led: S) -> (strip: LedStrip<S>)
        ensures
            strip.smart_led == smart_led,
            strip.data@.len() == STRIP_LENGTH,
            forall|i: int| 0 <= i < strip.data@.len() ==> strip.data@[i] == (Rgb {
                r: 0,
                g: 0,
                b: 0,
            }),
    {
        let mut data: Vec<Rgb> = Vec::new();
        let mut i: usize = 0;
        while i < STRIP_LENGTH
            invariant
                i <= STRIP_LENGTH,
                data@.len() == i,
                forall|j: int| 0 <= j < i ==> data@[j] == (Rgb { r: 0, g: 0, b: 0 }),
            decreases STRIP_LENGTH - i,
        {
            data.push(Rgb { r: 0, g: 0, b: 0 });
            i += 1;
        }
        LedStrip { smart_led, data }
    }
}

/// Writes every strip's full buffer to its device, in bank order: exactly
/// one transaction per strip, performed unconditionally. Pixel data is never
/// changed by a flush. Each strip's bus outcome is reported in its slot of
/// the result; the caller decides what a failure means for the cycle.
pub fn flush<S: RGB8SmartLedsWrite>(led_strips: &mut Vec<LedStrip<S>>) -> (results: Vec<
    Result<(), WriteError>,
>)
    ensures
        final (led_strips)@.len() == old(led_strips)@.len(),
        results@.len() == old(led_strips)@.len(),
        forall|i: int|
            0 <= i < old(led_strips)@.len() ==> final (led_strips)@[i].data == old(
                led_strips,
            )@[i].data,
        forall|i: int|
            0 <= i < old(led_strips)@.len() ==> final (led_strips)@[i].smart_led.writes() == old(
                led_strips,
            )@[i].smart_led.writes().push(old(led_strips)@[i].data@),
{
    let mut results: Vec<Result<(), WriteError>> = Vec::new();
    let n = led_strips.len();
    let mut i: usize = 0;
    while i < n
        invariant
            0 <= i <= n,
            n == led_strips@.len(),
            n == old(led_strips)@.len(),
            results@.len() == i,
            forall|k: int| 0 <= k < n ==> led_strips@[k].data == old(led_strips)@[k].data,
            forall|k: int|
                0 <= k < i ==> led_strips@[k].smart_led.writes() == old(
                    led_strips,
                )@[k].smart_led.writes().push(old(led_strips)@[k].data@),
            forall|k: int|
                i <= k < n ==> led_strips@[k].smart_led == old(led_strips)@[k].smart_led,
        decreases n - i,
    {
        let strip = &mut led_strips[i];
        let r = strip.smart_led.write_rgb8(&strip.data);
        results.push(r);
        i += 1;
    }
    results
}

/// Sets the first and third LED of the first strip's device to `color` to
/// indicate status, leaving the second off: one write of that three-pixel
/// pattern, straight to the device, without touching any pixel buffer.
pub fn set_indicator_leds<S: RGB8SmartLedsWrite>(
    led_strips: &mut Vec<LedStrip<S>>,
    color: Rgb,
) -> (r: Result<(), WriteError>)
    requires
        old(led_strips)@.len() >= 1,
    ensures
        final (led_strips)@.len() == old(led_strips)@.len(),
        forall|i: int|
            0 <= i < old(led_strips)@.len() ==> final (led_strips)@[i].data == old(
                led_strips,
            )@[i].data,
        forall|i: int|
            1 <= i < old(led_strips)@.len() ==> final (led_strips)@[i].smart_led == old(
                led_strips,
            )@[i].smart_led,
        final (led_strips)@[0].smart_led.writes() == old(led_strips)@[0].smart_led.writes().push(
            seq![color, (Rgb { r: 0, g: 0, b: 0 }), color],
        ),
{
    let mut colors: Vec<Rgb> = Vec::new();
    colors.push(color);
    colors.push(Rgb { r: 0, g: 0, b: 0 });
    colors.push(color);
    proof {
        assert(colors@ =~= seq![color, (Rgb { r: 0, g: 0, b: 0 }), color]);
    }
    let strip = &mut led_strips[0];
    strip.smart_led.write_rgb8(&colors)
}

/// A sink that keeps every written frame in memory instead of driving a
/// bus: the in-library implementation of the output capability, used to
/// observe flush behaviour. When `fail` is set it reports a transport
/// failure on every write, though the write is still recorded.
pub struct RecordingSink {
    pub log: Vec<Vec<Rgb>>,
    pub fail: bool,
}

impl RecordingSink {
    /// A sink with an empty history that reports success.
    pub fn new() -> (sink: RecordingSink)
        ensures
            sink.writes() == Seq::<Seq<Rgb>>::empty(),
            sink.fail == false,
    {
        let sink = RecordingSink { log: Vec::new(), fail: false };
        proof {
            assert(sink.log@.map_values(|v: Vec<Rgb>| v@) =~= Seq::<Seq<Rgb>>::empty());
        }
        sink
    }
}

impl RGB8SmartLedsWrite for RecordingSink {
    open spec fn writes(&self) -> Seq<Seq<Rgb>> {
        self.log@.map_values(|v: Vec<Rgb>| v@)
    }

    fn write_rgb8(&mut self, pixels: &Vec<Rgb>) -> (r: Result<(), WriteError>) {
        let mut frame: Vec<Rgb> = Vec::new();
        let mut i: usize = 0;
        while i < pixels.len()
            invariant
                0 <= i <= pixels@.len(),
                frame@ == pixels@.take(i as int),
            decreases pixels@.len() - i,
        {
            frame.push(pixels[i]);
            proof {
                assert(frame@ =~= pixels@.take(i + 1));
            }
            i += 1;
        }
        proof {
            assert(frame@ =~= pixels@);
        }
        self.log.push(frame);
        proof {
            assert(self.log@.map_values(|v: Vec<Rgb>| v@) =~= old(self).log@.map_values(
                |v: Vec<Rgb>| v@,
            ).push(pixels@));
        }
        if self.fail {
            Err(WriteError)
        } else {
            Ok(())
        }
    }
}

} // verus!

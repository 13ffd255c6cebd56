//! The two mapping strategies and the per-message engine.
//!
//! Both strategies mutate pixel buffers through bounds-checked index
//! arithmetic only; a message that would reach outside the bank is dropped
//! with its work undone rather than partially applied out of range.

use vstd::prelude::*;
use crate::color::{with_channel, Rgb};
use crate::osc::{OscArg, OscPacket};
use crate::route::{route, spec_route, Route};
use crate::strip::{flush, LedStrip, RGB8SmartLedsWrite, WriteError};

verus! {

/// The pixel contents of a bank: each strip's buffer, in bank order.
pub open spec fn datas<S>(strips: Seq<LedStrip<S>>) -> Seq<Seq<Rgb>> {
    strips.map_values(|st: LedStrip<S>| st.data@)
}

/// Whether `b` has the same strips as `a`, each over the same device state.
pub open spec fn sinks_unchanged<S>(a: Seq<LedStrip<S>>, b: Seq<LedStrip<S>>) -> bool {
    &&& b.len() == a.len()
    &&& forall|i: int| 0 <= i < a.len() ==> b[i].smart_led == a[i].smart_led
}

/// The total pixel count of the bank: the length of the concatenated global
/// index space.
pub open spec fn total_len(v: Seq<Seq<Rgb>>) -> int
    decreases v.len(),
{
    if v.len() == 0 {
        0
    } else {
        v[0].len() + total_len(v.drop_first())
    }
}

/// Which strip contains global pixel index `g`: the first strip whose range
/// of the concatenated index space reaches past `g`.
pub open spec fn strip_of(v: Seq<Seq<Rgb>>, g: int) -> int
    decreases v.len(),
{
    if v.len() == 0 {
        0
    } else if g < v[0].len() {
        0
    } else {
        1 + strip_of(v.drop_first(), g - v[0].len())
    }
}

/// The index within its strip of global pixel index `g`.
pub open spec fn local_of(v: Seq<Seq<Rgb>>, g: int) -> int
    decreases v.len(),
{
    if v.len() == 0 {
        g
    } else if g < v[0].len() {
        g
    } else {
        local_of(v.drop_first(), g - v[0].len())
    }
}

/// The flattened channel number of a (universe, channel) pair: universes
/// are 512 channels wide.
pub open spec fn flat_of(universe: int, channel: int) -> int {
    universe * 512 + channel
}

/// The color channel a flattened channel number selects: 0 red, 1 green,
/// 2 blue.
pub open spec fn color_index_of(flat: int) -> int {
    flat % 3
}

/// The global pixel index a flattened channel number selects.
pub open spec fn global_index_of(flat: int) -> int {
    (flat - color_index_of(flat)) / 3
}

/// Whether a channel-indexed update lands on a pixel of the bank: its
/// flattened channel number must be computable in `usize` and its global
/// pixel index must fall inside the concatenated index space.
pub open spec fn chan_accepted(v: Seq<Seq<Rgb>>, universe: int, channel: int) -> bool {
    &&& flat_of(universe, channel) <= usize::MAX
    &&& global_index_of(flat_of(universe, channel)) < total_len(v)
}

/// The bank contents after a channel-indexed update: one color channel of
/// one pixel replaced when the update lands on the bank, the contents
/// untouched otherwise.
pub open spec fn chan_apply(v: Seq<Seq<Rgb>>, universe: int, channel: int, byte: u8) -> Seq<
    Seq<Rgb>,
> {
    let flat = flat_of(universe, channel);
    let g = global_index_of(flat);
    if 0 <= g && g < total_len(v) {
        let s = strip_of(v, g);
        let l = local_of(v, g);
        v.update(s, v[s].update(l, with_channel(v[s][l], color_index_of(flat), byte)))
    } else {
        v
    }
}

proof fn lemma_total_len_nonneg(v: Seq<Seq<Rgb>>)
    ensures
        total_len(v) >= 0,
    decreases v.len(),
{
    if v.len() > 0 {
        lemma_total_len_nonneg(v.drop_first());
    }
}

proof fn lemma_total_len_take(v: Seq<Seq<Rgb>>, s: int)
    requires
        0 <= s < v.len(),
    ensures
        total_len(v.take(s + 1)) == total_len(v.take(s)) + v[s].len(),
    decreases s,
{
    if s == 0 {
        assert(v.take(0) =~= Seq::<Seq<Rgb>>::empty());
        assert(v.take(1).drop_first() =~= Seq::<Seq<Rgb>>::empty());
        assert(v.take(1)[0] == v[0]);
        assert(v.take(1).len() == 1);
        assert(total_len(Seq::<Seq<Rgb>>::empty()) == 0);
        assert(total_len(v.take(1)) == v.take(1)[0].len() + total_len(v.take(1).drop_first()));
    } else {
        lemma_total_len_take(v.drop_first(), s - 1);
        assert(v.take(s + 1).drop_first() =~= v.drop_first().take(s));
        assert(v.take(s).drop_first() =~= v.drop_first().take(s - 1));
        assert(v.take(s + 1)[0] == v[0]);
        assert(v.take(s)[0] == v[0]);
        assert(v.drop_first()[s - 1] == v[s]);
    }
}

/// Locates global index `g` from the running total of prior strips'
/// lengths, the way the walk of the bank finds it.
proof fn lemma_locate(v: Seq<Seq<Rgb>>, g: int, s: int)
    requires
        0 <= s < v.len(),
        total_len(v.take(s)) <= g,
        g - total_len(v.take(s)) < v[s].len(),
    ensures
        strip_of(v, g) == s,
        local_of(v, g) == g - total_len(v.take(s)),
        g < total_len(v),
    decreases s,
{
    if s == 0 {
        assert(v.take(0) =~= Seq::<Seq<Rgb>>::empty());
        assert(g < v[0].len());
        lemma_total_len_nonneg(v.drop_first());
    } else {
        assert(v.take(s)[0] == v[0]);
        assert(v.take(s).drop_first() =~= v.drop_first().take(s - 1));
        lemma_total_len_nonneg(v.drop_first().take(s - 1));
        assert(g >= v[0].len());
        assert(v.drop_first()[s - 1] == v[s]);
        lemma_locate(v.drop_first(), g - v[0].len(), s - 1);
    }
}

/// Applies one channel-indexed update: value `byte` into the color channel
/// and pixel that `(universe, channel)` flattens to. Returns whether the
/// update landed on the bank; out-of-range updates are dropped with nothing
/// mutated. Every accepted update touches exactly one channel of exactly
/// one pixel.
pub fn map_channel_indexed<S>(
    led_strips: &mut Vec<LedStrip<S>>,
    universe: usize,
    channel: usize,
    byte: u8,
) -> (accepted: bool)
    ensures
        sinks_unchanged(old(led_strips)@, final (led_strips)@),
        accepted == chan_accepted(datas(old(led_strips)@), universe as int, channel as int),
        accepted ==> datas(final (led_strips)@) == chan_apply(
            datas(old(led_strips)@),
            universe as int,
            channel as int,
            byte,
        ),
        !accepted ==> final (led_strips)@ == old(led_strips)@,
{
    let ghost v = datas(old(led_strips)@);
    let flat = match universe.checked_mul(512) {
        Some(t) => match t.checked_add(channel) {
            Some(f) => f,
            None => {
                proof {
                    assert(!chan_accepted(v, universe as int, channel as int));
                }
                return false;
            },
        },
        None => {
            proof {
                assert(flat_of(universe as int, channel as int) > usize::MAX);
            }
            return false;
        },
    };
    let color_index = flat % 3;
    let g = (flat - color_index) / 3;
    proof {
        assert(g == global_index_of(flat as int));
    }
    let mut before: usize = 0;
    let mut s: usize = 0;
    let n = led_strips.len();
    while s < n
        invariant
            0 <= s <= n,
            n == led_strips@.len(),
            led_strips@ == old(led_strips)@,
            v == datas(led_strips@),
            g == global_index_of(flat_of(universe as int, channel as int)),
            flat == flat_of(universe as int, channel as int),
            color_index as int == color_index_of(flat as int),
            before == total_len(v.take(s as int)),
            before <= g,
        decreases n - s,
    {
        proof {
            assert(v[s as int] == led_strips@[s as int].data@);
        }
        let len_s = led_strips[s].data.len();
        if g - before < len_s {
            let local = g - before;
            proof {
                lemma_locate(v, g as int, s as int);
                // Per-strip boundary recheck: the located index is strictly
                // inside the strip.
                assert(local < len_s);
            }
            let old_pixel = led_strips[s].data[local];
            let new_pixel = if color_index == 0 {
                Rgb { r: byte, g: old_pixel.g, b: old_pixel.b }
            } else if color_index == 1 {
                Rgb { r: old_pixel.r, g: byte, b: old_pixel.b }
            } else {
                Rgb { r: old_pixel.r, g: old_pixel.g, b: byte }
            };
            proof {
                assert(0 <= color_index < 3);
                assert(color_index as int == color_index_of(flat as int));
                assert(new_pixel == with_channel(old_pixel, color_index as int, byte));
            }
            led_strips[s].data[local] = new_pixel;
            proof {
                assert(led_strips@[s as int].data@ == v[s as int].update(
                    local as int,
                    with_channel(old_pixel, color_index as int, byte),
                ));
                assert(datas(led_strips@) =~= chan_apply(
                    v,
                    universe as int,
                    channel as int,
                    byte,
                ));
            }
            return true;
        }
        proof {
            lemma_total_len_take(v, s as int);
        }
        before = before + len_s;
        s += 1;
    }
    proof {
        assert(v.take(n as int) =~= v);
        assert(total_len(v) <= g);
    }
    false
}

/// How many pixels of a strip the sequential cursor fills before it
/// advances: every pixel but the last, except that a one-pixel strip is
/// filled whole. Meaningful for `len >= 1`.
pub open spec fn writable(len: int) -> int {
    if len == 1 {
        1
    } else {
        len - 1
    }
}

/// The (strip, pixel) positions the sequential cursor visits from strip `s`
/// on, in visiting order. The walk ends early at a zero-length strip, where
/// the cursor has no pixel to place into.
pub open spec fn all_slots_from(v: Seq<Seq<Rgb>>, s: int) -> Seq<(int, int)>
    decreases v.len() - s,
{
    if s < 0 || s >= v.len() {
        Seq::empty()
    } else if v[s].len() == 0 {
        Seq::empty()
    } else {
        Seq::new(writable(v[s].len() as int) as nat, |j: int| (s, j)) + all_slots_from(v, s + 1)
    }
}

/// Every position the sequential mapper can fill, in filling order: the
/// bank's capacity for packed color arguments.
pub open spec fn all_slots(v: Seq<Seq<Rgb>>) -> Seq<(int, int)> {
    all_slots_from(v, 0)
}

/// The bank's capacity for packed color arguments: each strip takes one
/// color fewer than its pixel count before the cursor moves on, except that
/// a one-pixel strip takes its single pixel.
pub open spec fn slot_capacity(v: Seq<Seq<Rgb>>) -> int
    decreases v.len(),
{
    if v.len() == 0 {
        0
    } else {
        writable(v[0].len() as int) + slot_capacity(v.drop_first())
    }
}

/// The positions still ahead of a sequential cursor. `None` is the cursor
/// before the first placement.
pub open spec fn rem_slots(v: Seq<Seq<Rgb>>, cur: Option<(int, int)>) -> Seq<(int, int)> {
    match cur {
        Option::None => all_slots_from(v, 0),
        Option::Some(c) => {
            if c.1 + 1 >= v[c.0].len() {
                all_slots_from(v, c.0 + 1)
            } else {
                Seq::new((v[c.0].len() - 1 - c.1) as nat, |j: int| (c.0, c.1 + j))
                    + all_slots_from(v, c.0 + 1)
            }
        },
    }
}

/// The color arguments of `args`, in argument order.
pub open spec fn colors_of(args: Seq<OscArg>) -> Seq<Rgb>
    decreases args.len(),
{
    if args.len() == 0 {
        Seq::empty()
    } else {
        let rest = colors_of(args.drop_first());
        match args[0] {
            OscArg::Color(c) => seq![c] + rest,
            _ => rest,
        }
    }
}

/// Strict lexicographic order on (strip, pixel) positions.
pub open spec fn slot_lt(a: (int, int), b: (int, int)) -> bool {
    a.0 < b.0 || (a.0 == b.0 && a.1 < b.1)
}

/// Whether `(s, j)` is among the first `n` positions of `sl`.
pub open spec fn slot_written(sl: Seq<(int, int)>, n: int, s: int, j: int) -> bool {
    exists|m: int| 0 <= m < n && sl[m] == (s, j)
}

/// What a sequential-color message leaves behind: with `k` color arguments
/// and slot capacity `C`, exactly the first `min(k, C)` slots hold the
/// colors in argument order, and every other pixel keeps its prior value.
pub open spec fn seq_applied(v: Seq<Seq<Rgb>>, args: Seq<OscArg>, w: Seq<Seq<Rgb>>) -> bool {
    let sl = all_slots(v);
    let cols = colors_of(args);
    let n = if cols.len() <= sl.len() {
        cols.len() as int
    } else {
        sl.len() as int
    };
    &&& w.len() == v.len()
    &&& (forall|s: int| 0 <= s < v.len() ==> w[s].len() == v[s].len())
    &&& (forall|m: int|
        0 <= m < n ==> w[#[trigger] sl[m].0][sl[m].1] == cols[m])
    &&& (forall|s: int, j: int|
        0 <= s < v.len() && 0 <= j < v[s].len() && !slot_written(sl, n, s, j) ==> w[s][j] == v[s][j])
}

proof fn lemma_all_slots_from_props(v: Seq<Seq<Rgb>>, s: int)
    requires
        0 <= s,
    ensures
        forall|m: int|
            0 <= m < all_slots_from(v, s).len() ==> (s <= #[trigger] all_slots_from(v, s)[m].0
                < v.len() && 0 <= all_slots_from(v, s)[m].1 < v[all_slots_from(v, s)[m].0].len()),
        forall|m1: int, m2: int|
            0 <= m1 < m2 < all_slots_from(v, s).len() ==> slot_lt(
                #[trigger] all_slots_from(v, s)[m1],
                #[trigger] all_slots_from(v, s)[m2],
            ),
    decreases v.len() - s,
{
    if 0 <= s < v.len() && v[s].len() > 0 {
        lemma_all_slots_from_props(v, s + 1);
        let first = Seq::new(writable(v[s].len() as int) as nat, |j: int| (s, j));
        let rest = all_slots_from(v, s + 1);
        let a = all_slots_from(v, s);
        assert(a == first + rest);
        assert(writable(v[s].len() as int) <= v[s].len());
        assert forall|m: int| 0 <= m < a.len() implies (s <= #[trigger] a[m].0 < v.len() && 0
            <= a[m].1 < v[a[m].0].len()) by {
            if m < first.len() {
                assert(a[m] == first[m]);
            } else {
                assert(a[m] == rest[m - first.len()]);
            }
        }
        assert forall|m1: int, m2: int| 0 <= m1 < m2 < a.len() implies slot_lt(
            #[trigger] a[m1],
            #[trigger] a[m2],
        ) by {
            if m2 < first.len() {
                assert(a[m1] == first[m1]);
                assert(a[m2] == first[m2]);
            } else if m1 < first.len() {
                assert(a[m1] == first[m1]);
                assert(a[m2] == rest[m2 - first.len()]);
            } else {
                assert(a[m1] == rest[m1 - first.len()]);
                assert(a[m2] == rest[m2 - first.len()]);
            }
        }
    }
}

/// In a bank with no zero-length strip, the number of slots the sequential
/// mapper can fill is each strip's capacity summed in bank order. (A
/// zero-length strip ends the cursor's walk early, so there this count and
/// the walk part ways.)
pub proof fn lemma_slot_capacity(v: Seq<Seq<Rgb>>)
    requires
        forall|i: int| 0 <= i < v.len() ==> #[trigger] v[i].len() >= 1,
    ensures
        all_slots(v).len() == slot_capacity(v),
{
    lemma_slot_capacity_from(v, 0);
    assert(v.skip(0) =~= v);
}

proof fn lemma_slot_capacity_from(v: Seq<Seq<Rgb>>, s: int)
    requires
        0 <= s <= v.len(),
        forall|i: int| 0 <= i < v.len() ==> #[trigger] v[i].len() >= 1,
    ensures
        all_slots_from(v, s).len() == slot_capacity(v.skip(s)),
    decreases v.len() - s,
{
    if s == v.len() {
        assert(v.skip(s) =~= Seq::<Seq<Rgb>>::empty());
    } else {
        lemma_slot_capacity_from(v, s + 1);
        assert(v.skip(s)[0] == v[s]);
        assert(v.skip(s).drop_first() =~= v.skip(s + 1));
    }
}

proof fn lemma_rem_at_advance(v: Seq<Seq<Rgb>>, cur: Option<(int, int)>, next: int)
    requires
        match cur {
            Option::None => next == 0,
            Option::Some(c) => 0 <= c.0 < v.len() && 1 <= c.1 <= v[c.0].len() && c.1 + 1
                >= v[c.0].len() && next == c.0 + 1,
        },
    ensures
        rem_slots(v, cur) == all_slots_from(v, next),
{
}

proof fn lemma_rem_fresh(v: Seq<Seq<Rgb>>, next: int)
    requires
        0 <= next < v.len(),
        v[next].len() >= 1,
    ensures
        all_slots_from(v, next).len() >= 1,
        all_slots_from(v, next)[0] == (next, 0int),
        rem_slots(v, Some((next, 1))) == all_slots_from(v, next).drop_first(),
{
    let first = Seq::new(writable(v[next].len() as int) as nat, |j: int| (next, j));
    let rest = all_slots_from(v, next + 1);
    let a = all_slots_from(v, next);
    assert(a == first + rest);
    assert(a[0] == first[0]);
    if v[next].len() <= 2 {
        assert(first.len() == 1);
        assert(rem_slots(v, Some((next, 1))) == rest);
        assert(a.drop_first() =~= rest);
    } else {
        let rem2 = Seq::new((v[next as int].len() - 2) as nat, |j: int| (next, 1 + j));
        assert(rem_slots(v, Some((next, 1))) == rem2 + rest);
        assert forall|i: int| 0 <= i < a.drop_first().len() implies a.drop_first()[i] == (rem2
            + rest)[i] by {
            assert(a.drop_first()[i] == a[i + 1]);
            if i + 1 < first.len() {
                assert(a[i + 1] == first[i + 1]);
                assert((rem2 + rest)[i] == rem2[i]);
            } else {
                assert(a[i + 1] == rest[i + 1 - first.len()]);
                assert((rem2 + rest)[i] == rest[i - rem2.len()]);
            }
        }
        assert(a.drop_first() =~= rem2 + rest);
    }
}

proof fn lemma_rem_continue(v: Seq<Seq<Rgb>>, s: int, off: int)
    requires
        0 <= s < v.len(),
        1 <= off,
        off + 1 < v[s].len(),
    ensures
        rem_slots(v, Some((s, off))).len() >= 1,
        rem_slots(v, Some((s, off)))[0] == (s, off),
        rem_slots(v, Some((s, off + 1))) == rem_slots(v, Some((s, off))).drop_first(),
{
    let rest = all_slots_from(v, s + 1);
    let here = Seq::new((v[s].len() - 1 - off) as nat, |j: int| (s, off + j));
    let a = rem_slots(v, Some((s, off)));
    assert(a == here + rest);
    assert(a[0] == here[0]);
    if off + 2 >= v[s].len() {
        assert(here.len() == 1);
        assert(rem_slots(v, Some((s, off + 1))) == rest);
        assert(a.drop_first() =~= rest);
    } else {
        let here2 = Seq::new((v[s].len() - 2 - off) as nat, |j: int| (s, off + 1 + j));
        assert(rem_slots(v, Some((s, off + 1))) == here2 + rest);
        assert forall|i: int| 0 <= i < a.drop_first().len() implies a.drop_first()[i] == (here2
            + rest)[i] by {
            assert(a.drop_first()[i] == a[i + 1]);
            if i + 1 < here.len() {
                assert(a[i + 1] == here[i + 1]);
                assert((here2 + rest)[i] == here2[i]);
            } else {
                assert(a[i + 1] == rest[i + 1 - here.len()]);
                assert((here2 + rest)[i] == rest[i - here2.len()]);
            }
        }
        assert(a.drop_first() =~= here2 + rest);
    }
}

proof fn lemma_colors_of_append(a: Seq<OscArg>, b: Seq<OscArg>)
    ensures
        colors_of(a + b) == colors_of(a) + colors_of(b),
    decreases a.len(),
{
    if a.len() == 0 {
        assert(a + b =~= b);
        assert(colors_of(a) + colors_of(b) =~= colors_of(b));
    } else {
        lemma_colors_of_append(a.drop_first(), b);
        assert((a + b).drop_first() =~= a.drop_first() + b);
        assert((a + b)[0] == a[0]);
        match a[0] {
            OscArg::Color(c) => {
                assert(colors_of(a + b) == seq![c] + (colors_of(a.drop_first()) + colors_of(b)));
                assert(seq![c] + (colors_of(a.drop_first()) + colors_of(b)) =~= (seq![c]
                    + colors_of(a.drop_first())) + colors_of(b));
            },
            _ => {},
        }
    }
}

proof fn lemma_colors_take_step(args: Seq<OscArg>, k: int)
    requires
        0 <= k < args.len(),
    ensures
        colors_of(args.take(k + 1)) == (match args[k] {
            OscArg::Color(c) => colors_of(args.take(k)).push(c),
            _ => colors_of(args.take(k)),
        }),
{
    assert(args.take(k + 1) =~= args.take(k) + seq![args[k]]);
    lemma_colors_of_append(args.take(k), seq![args[k]]);
    assert(seq![args[k]].drop_first() =~= Seq::<OscArg>::empty());
    match args[k] {
        OscArg::Color(c) => {
            assert(colors_of(seq![args[k]]) == seq![c] + colors_of(Seq::<OscArg>::empty()));
            assert(seq![c] + colors_of(Seq::<OscArg>::empty()) =~= seq![c]);
            assert(colors_of(args.take(k)) + seq![c] =~= colors_of(args.take(k)).push(c));
        },
        _ => {
            assert(colors_of(seq![args[k]]) == colors_of(seq![args[k]].drop_first()));
            assert(colors_of(Seq::<OscArg>::empty()) =~= Seq::<Rgb>::empty());
            assert(colors_of(args.take(k)) + colors_of(seq![args[k]]) =~= colors_of(args.take(k)));
        },
    }
}

proof fn lemma_colors_prefix(args: Seq<OscArg>, k: int)
    requires
        0 <= k <= args.len(),
    ensures
        colors_of(args).len() >= colors_of(args.take(k)).len(),
        forall|m: int|
            0 <= m < colors_of(args.take(k)).len() ==> colors_of(args)[m] == colors_of(
                args.take(k),
            )[m],
        k < args.len() && args[k] is Color ==> colors_of(args).len() >= colors_of(
            args.take(k),
        ).len() + 1,
{
    assert(args =~= args.take(k) + args.skip(k));
    lemma_colors_of_append(args.take(k), args.skip(k));
    if k < args.len() && args[k] is Color {
        assert(args.skip(k)[0] == args[k]);
        assert(colors_of(args.skip(k)).len() >= 1);
    }
}

/// Consumes the argument list of a sequential-color request: each color
/// argument goes to the next position of the cursor's walk across the bank,
/// in argument order and bank order; non-color arguments are skipped. When
/// the bank runs out, the remaining arguments are dropped and one overflow
/// warning is reported as the return value.
pub fn map_sequential<S>(led_strips: &mut Vec<LedStrip<S>>, args: &Vec<OscArg>) -> (overflowed:
    bool)
    ensures
        sinks_unchanged(old(led_strips)@, final (led_strips)@),
        seq_applied(datas(old(led_strips)@), args@, datas(final (led_strips)@)),
        overflowed == (colors_of(args@).len() > all_slots(datas(old(led_strips)@)).len()),
{
    let ghost v = datas(old(led_strips)@);
    let ghost sl = all_slots(v);
    let ghost cols = colors_of(args@);
    let mut cur_strip: usize = 0;
    let mut cur_off: usize = 0;
    let mut have_cur: bool = false;
    let ghost mut placed: int = 0;
    let mut overflowed: bool = false;
    let mut k: usize = 0;
    let n_args = args.len();
    proof {
        assert(sl.skip(0) =~= sl);
        assert(args@.take(0) =~= Seq::<OscArg>::empty());
    }
    while k < n_args && !overflowed
        invariant
            0 <= k <= args@.len(),
            n_args == args@.len(),
            v == datas(old(led_strips)@),
            sl == all_slots(v),
            cols == colors_of(args@),
            led_strips@.len() == v.len(),
            sinks_unchanged(old(led_strips)@, led_strips@),
            forall|i: int| 0 <= i < v.len() ==> led_strips@[i].data@.len() == v[i].len(),
            0 <= placed <= sl.len(),
            !overflowed ==> placed == colors_of(args@.take(k as int)).len(),
            !overflowed ==> rem_slots(
                v,
                if have_cur {
                    Some((cur_strip as int, cur_off as int))
                } else {
                    None
                },
            ) == sl.skip(placed),
            have_cur ==> cur_strip < v.len() && 1 <= cur_off <= v[cur_strip as int].len(),
            overflowed ==> placed == sl.len() && cols.len() > sl.len(),
            forall|m: int|
                0 <= m < placed ==> datas(led_strips@)[#[trigger] sl[m].0][sl[m].1] == cols[m],
            forall|s: int, j: int|
                0 <= s < v.len() && 0 <= j < v[s].len() && !slot_written(sl, placed, s, j) ==> datas(
                    led_strips@,
                )[s][j] == v[s][j],
        decreases n_args - k,
    {
        let ghost cur_before: Option<(int, int)> = if have_cur {
            Some((cur_strip as int, cur_off as int))
        } else {
            None
        };
        let a = args[k];
        match a {
            OscArg::Color(rgb) => {
                proof {
                    lemma_all_slots_from_props(v, 0);
                }
                let need_adv = if !have_cur {
                    true
                } else {
                    let len_c = led_strips[cur_strip].data.len();
                    cur_off >= len_c - 1
                };
                if need_adv {
                    let bank_len = led_strips.len();
                    let next = if have_cur {
                        proof {
                            assert(cur_strip < bank_len);
                        }
                        cur_strip + 1
                    } else {
                        0
                    };
                    proof {
                        lemma_rem_at_advance(v, cur_before, next as int);
                    }
                    if next >= led_strips.len() || led_strips[next].data.len() == 0 {
                        proof {
                            assert(all_slots_from(v, next as int) =~= Seq::<(int, int)>::empty());
                            assert(sl.skip(placed).len() == 0);
                            assert(placed == sl.len());
                            lemma_colors_prefix(args@, k as int);
                            assert(cols.len() > sl.len());
                        }
                        overflowed = true;
                    } else {
                        proof {
                            lemma_rem_fresh(v, next as int);
                            assert(sl.skip(placed).drop_first() =~= sl.skip(placed + 1));
                        }
                        cur_strip = next;
                        cur_off = 0;
                        have_cur = true;
                    }
                } else {
                    proof {
                        lemma_rem_continue(v, cur_strip as int, cur_off as int);
                        assert(sl.skip(placed).drop_first() =~= sl.skip(placed + 1));
                    }
                }
                if !overflowed {
                    proof {
                        assert(sl.skip(placed)[0] == sl[placed]);
                        assert(sl[placed] == (cur_strip as int, cur_off as int));
                        assert(cur_off < v[cur_strip as int].len());
                        lemma_colors_take_step(args@, k as int);
                        lemma_colors_prefix(args@, k as int + 1);
                        assert(cols[placed] == rgb);
                    }
                    let ghost data_before = datas(led_strips@);
                    led_strips[cur_strip].data[cur_off] = rgb;
                    cur_off += 1;
                    proof {
                        assert(datas(led_strips@) =~= data_before.update(
                            cur_strip as int,
                            data_before[cur_strip as int].update(cur_off - 1, rgb),
                        ));
                        assert forall|m: int| 0 <= m < placed + 1 implies datas(
                            led_strips@,
                        )[#[trigger] sl[m].0][sl[m].1] == cols[m] by {
                            if m < placed {
                                assert(slot_lt(sl[m], sl[placed]));
                            }
                        }
                        assert forall|s: int, j: int|
                            0 <= s < v.len() && 0 <= j < v[s].len() && !slot_written(
                                sl,
                                placed + 1,
                                s,
                                j,
                            ) implies datas(led_strips@)[s][j] == v[s][j] by {
                            assert(!slot_written(sl, placed, s, j));
                            assert((s, j) != sl[placed]);
                        }
                        placed = placed + 1;
                        // The new cursor sits one past the slot just filled.
                        assert(rem_slots(v, Some((cur_strip as int, cur_off as int))) == sl.skip(
                            placed,
                        ));
                    }
                }
            },
            _ => {
                proof {
                    lemma_colors_take_step(args@, k as int);
                }
            },
        }
        k += 1;
    }
    proof {
        if !overflowed {
            assert(args@.take(k as int) =~= args@);
            assert(placed == cols.len());
        }
        assert(seq_applied(v, args@, datas(led_strips@)));
    }
    overflowed
}

/// What one message did: which strategy ran and whether its work was
/// applied, dropped for want of room (the overflow warning), or unsupported.
#[derive(Clone, Copy, PartialEq, Eq, Structural, Debug)]
pub enum Receipt {
    /// A sequential-color message ran; `overflowed` reports whether color
    /// arguments beyond the bank's capacity were dropped.
    Sequential { overflowed: bool },
    /// A channel-indexed message set one color channel of one pixel.
    ChannelSet,
    /// A channel-indexed message addressed a pixel outside the bank and was
    /// dropped with nothing mutated.
    ChannelDropped,
    /// The message was not understood and dropped with nothing mutated.
    Unsupported,
}

/// The byte a float argument carries; zero for any other argument.
pub open spec fn float_byte(a: OscArg) -> u8 {
    match a {
        OscArg::Float { byte } => byte,
        _ => 0,
    }
}

/// The engine's whole per-message contract: how the bank contents `after`
/// and the receipt relate to the contents `before` for one decoded packet.
pub open spec fn packet_applied(
    packet: OscPacket,
    before: Seq<Seq<Rgb>>,
    after: Seq<Seq<Rgb>>,
    receipt: Receipt,
) -> bool {
    match packet {
        OscPacket::Other => after == before && receipt == Receipt::Unsupported,
        OscPacket::Message(m) => match spec_route(m.addr@, m.args@) {
            Route::SequentialColor => seq_applied(before, m.args@, after) && receipt == (
            Receipt::Sequential {
                overflowed: colors_of(m.args@).len() > all_slots(before).len(),
            }),
            Route::ChannelIndexed { universe, channel } => {
                let byte = float_byte(m.args@[0]);
                if chan_accepted(before, universe as int, channel as int) {
                    after == chan_apply(before, universe as int, channel as int, byte) && receipt
                        == Receipt::ChannelSet
                } else {
                    after == before && receipt == Receipt::ChannelDropped
                }
            },
            Route::Unsupported => after == before && receipt == Receipt::Unsupported,
        },
    }
}

/// Applies one decoded packet to the bank: routes it, runs the selected
/// mapping strategy, and reports what happened. A message that is
/// unsupported or out of range is dropped with no mutation; this function
/// never touches the output devices.
pub fn receive_osc_packet<S>(packet: &OscPacket, led_strips: &mut Vec<LedStrip<S>>) -> (receipt:
    Receipt)
    ensures
        sinks_unchanged(old(led_strips)@, final (led_strips)@),
        packet_applied(*packet, datas(old(led_strips)@), datas(final (led_strips)@), receipt),
{
    let msg = match packet {
        OscPacket::Message(m) => m,
        OscPacket::Other => {
            return Receipt::Unsupported;
        },
    };
    match route(msg) {
        Route::SequentialColor => {
            let overflowed = map_sequential(led_strips, &msg.args);
            Receipt::Sequential { overflowed }
        },
        Route::ChannelIndexed { universe, channel } => {
            let byte = match msg.args[0] {
                OscArg::Float { byte } => byte,
                _ => {
                    proof {
                        assert(false);
                    }
                    0
                },
            };
            if map_channel_indexed(led_strips, universe, channel, byte) {
                Receipt::ChannelSet
            } else {
                Receipt::ChannelDropped
            }
        },
        Route::Unsupported => Receipt::Unsupported,
    }
}

impl<S: RGB8SmartLedsWrite> LedStrip<S> {
    /// One control-loop cycle: applies the packet to the bank, then flushes
    /// every strip's buffer to its device — exactly one write per strip, in
    /// bank order, carrying that strip's complete current contents, whether
    /// or not the packet changed it. Per-strip bus outcomes come back beside
    /// the receipt; the caller decides what a bus failure means.
    pub fn update(led_strips: &mut Vec<LedStrip<S>>, packet: &OscPacket) -> (out: (
        Receipt,
        Vec<Result<(), WriteError>>,
    ))
        ensures
            final (led_strips)@.len() == old(led_strips)@.len(),
            packet_applied(
                *packet,
                datas(old(led_strips)@),
                datas(final (led_strips)@),
                out.0,
            ),
            out.1@.len() == old(led_strips)@.len(),
            forall|i: int|
                0 <= i < old(led_strips)@.len() ==> final (led_strips)@[i].smart_led.writes()
                    == old(led_strips)@[i].smart_led.writes().push(final (led_strips)@[i].data@),
    {
        let receipt = receive_osc_packet(packet, led_strips);
        let ghost mid = led_strips@;
        let results = flush(led_strips);
        proof {
            assert(datas(led_strips@) =~= datas(mid));
        }
        (receipt, results)
    }
}

proof fn lemma_locate_same_lens(v: Seq<Seq<Rgb>>, w: Seq<Seq<Rgb>>, g: int)
    requires
        w.len() == v.len(),
        forall|i: int| 0 <= i < v.len() ==> w[i].len() == v[i].len(),
    ensures
        total_len(w) == total_len(v),
        strip_of(w, g) == strip_of(v, g),
        local_of(w, g) == local_of(v, g),
    decreases v.len(),
{
    if v.len() > 0 {
        assert(w[0].len() == v[0].len());
        assert forall|i: int| 0 <= i < v.drop_first().len() implies w.drop_first()[i].len()
            == v.drop_first()[i].len() by {
            assert(w.drop_first()[i] == w[i + 1]);
            assert(v.drop_first()[i] == v[i + 1]);
        }
        lemma_locate_same_lens(v.drop_first(), w.drop_first(), g - v[0].len());
    }
}

proof fn lemma_locate_bounds(v: Seq<Seq<Rgb>>, g: int)
    requires
        0 <= g < total_len(v),
    ensures
        0 <= strip_of(v, g) < v.len(),
        0 <= local_of(v, g) < v[strip_of(v, g)].len(),
    decreases v.len(),
{
    if v.len() > 0 && g >= v[0].len() {
        lemma_locate_bounds(v.drop_first(), g - v[0].len());
        assert(v.drop_first()[strip_of(v.drop_first(), g - v[0].len())] == v[strip_of(v, g)]);
    }
}

/// Applying the same channel-indexed update twice leaves the bank exactly
/// as applying it once: every accepted update is idempotent, and a dropped
/// update changes nothing however often it recurs.
pub proof fn lemma_channel_indexed_idempotent(
    v: Seq<Seq<Rgb>>,
    universe: int,
    channel: int,
    byte: u8,
)
    ensures
        chan_apply(chan_apply(v, universe, channel, byte), universe, channel, byte) == chan_apply(
            v,
            universe,
            channel,
            byte,
        ),
{
    let flat = flat_of(universe, channel);
    let g = global_index_of(flat);
    let w = chan_apply(v, universe, channel, byte);
    if 0 <= g && g < total_len(v) {
        let s = strip_of(v, g);
        let l = local_of(v, g);
        lemma_locate_bounds(v, g);
        assert forall|i: int| 0 <= i < v.len() implies w[i].len() == v[i].len() by {
            if i != s {
                assert(w[i] == v[i]);
            }
        }
        lemma_locate_same_lens(v, w, g);
        let p1 = with_channel(v[s][l], color_index_of(flat), byte);
        assert(w[s][l] == p1);
        assert(with_channel(p1, color_index_of(flat), byte) == p1);
        assert(w[s].update(l, p1) =~= w[s]);
        assert(w.update(s, w[s]) =~= w);
    }
}

} // verus!




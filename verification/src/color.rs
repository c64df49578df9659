//! Packed colors, color counts, and the orders that median cut sorts them in.

use vstd::prelude::*;
use vstd::relations::{sorted_by, total_ordering};

verus! {

/// A color packed as `0xRRGGBB`, with the number of pixels that have it.
#[derive(Debug, Clone, Copy)]
pub struct ColorCount {
    pub color: u32,
    pub count: u64,
}

/// `0xRRGGBB` from its three channels.
pub open spec fn packed(r: int, g: int, b: int) -> u32 {
    (r * 0x10000 + g * 0x100 + b) as u32
}

/// Channel 0 is red, 1 is green, 2 is blue.
pub open spec fn channel(color: u32, index: int) -> int {
    if index == 0 {
        color as int / 0x10000 % 0x100
    } else if index == 1 {
        color as int / 0x100 % 0x100
    } else {
        color as int % 0x100
    }
}

/// Packing three bytes and taking a channel out again gives the byte back.
pub proof fn lemma_packed_channels(r: int, g: int, b: int)
    requires
        0 <= r < 0x100,
        0 <= g < 0x100,
        0 <= b < 0x100,
    ensures
        channel(packed(r, g, b), 0) == r,
        channel(packed(r, g, b), 1) == g,
        channel(packed(r, g, b), 2) == b,
        packed(r, g, b) < 0x1000000,
{
}

/// A packed color is made of its three channels.
pub proof fn lemma_channels_pack(color: u32)
    requires
        color < 0x1000000,
    ensures
        packed(channel(color, 0), channel(color, 1), channel(color, 2)) == color,
{
}

/// Packs the first three bytes of `px`.
pub fn pack_rgb(px: &[u8]) -> (color: u32)
    requires
        px.len() >= 3,
    ensures
        color == packed(px[0] as int, px[1] as int, px[2] as int),
{
    let r = px[0] as u32;
    let g = px[1] as u32;
    let b = px[2] as u32;
    assert((r << 16) | (g << 8) | b == r * 0x10000 + g * 0x100 + b) by (bit_vector)
        requires
            r < 0x100,
            g < 0x100,
            b < 0x100,
    ;
    (r << 16) | (g << 8) | b
}

/// One channel of a packed color.
pub fn channel_of(color: u32, index: u8) -> (value: u32)
    requires
        index < 3,
    ensures
        value == channel(color, index as int),
        value < 0x100,
{
    let shift: u32 = 16 - index as u32 * 8;
    assert((color >> 16u32) & 0xFF == color / 0x10000 % 0x100) by (bit_vector);
    assert((color >> 8u32) & 0xFF == color / 0x100 % 0x100) by (bit_vector);
    assert((color >> 0u32) & 0xFF == color % 0x100) by (bit_vector);
    (color >> shift) & 0xFF
}

/// The order by one channel, then by the whole color, then by count.
pub open spec fn channel_order(index: int) -> spec_fn(ColorCount, ColorCount) -> bool {
    |a: ColorCount, b: ColorCount|
        {
            if channel(a.color, index) != channel(b.color, index) {
                channel(a.color, index) < channel(b.color, index)
            } else if a.color != b.color {
                a.color < b.color
            } else {
                a.count <= b.count
            }
        }
}

pub proof fn lemma_channel_order_total(index: int)
    ensures
        total_ordering(channel_order(index)),
{
    let leq = channel_order(index);
    assert forall|a: ColorCount, b: ColorCount| #[trigger] leq(a, b) && #[trigger] leq(b, a) implies a
        == b by {
        assert(a.color == b.color && a.count == b.count);
    }
}

/// Whether `a` does not come after `b` in [`channel_order`].
fn precedes(a: &ColorCount, b: &ColorCount, index: u8) -> (yes: bool)
    requires
        index < 3,
    ensures
        yes == channel_order(index as int)(*a, *b),
{
    let left = channel_of(a.color, index);
    let right = channel_of(b.color, index);
    if left != right {
        left < right
    } else if a.color != b.color {
        a.color < b.color
    } else {
        a.count <= b.count
    }
}

/// `colors` with the entries from `start` to `end` put in [`channel_order`].
pub open spec fn sort_span(
    colors: Seq<ColorCount>,
    start: int,
    end: int,
    index: int,
) -> Seq<ColorCount> {
    colors.take(start) + colors.subrange(start, end).sort_by(channel_order(index)) + colors.skip(
        end,
    )
}

/// Merges two ordered runs into one.
fn merge(left: &Vec<ColorCount>, right: &Vec<ColorCount>, index: u8) -> (out: Vec<ColorCount>)
    requires
        index < 3,
        sorted_by(left@, channel_order(index as int)),
        sorted_by(right@, channel_order(index as int)),
    ensures
        sorted_by(out@, channel_order(index as int)),
        out@.to_multiset() == left@.to_multiset().add(right@.to_multiset()),
{
    let ghost leq = channel_order(index as int);
    proof {
        lemma_channel_order_total(index as int);
    }
    let mut out: Vec<ColorCount> = Vec::new();
    let mut i: usize = 0;
    let mut j: usize = 0;
    proof {
        broadcast use vstd::seq_lib::group_to_multiset_ensures;

        assert(left@.take(0) =~= Seq::empty());
        assert(right@.take(0) =~= Seq::empty());
        assert(out@.to_multiset() =~= left@.take(0).to_multiset().add(right@.take(0).to_multiset()));
    }
    while i < left.len() || j < right.len()
        invariant
            index < 3,
            leq == channel_order(index as int),
            total_ordering(leq),
            i <= left.len(),
            j <= right.len(),
            sorted_by(left@, leq),
            sorted_by(right@, leq),
            sorted_by(out@, leq),
            forall|k: int, l: int|
                #![trigger out@[k], left@[l]]
                0 <= k < out.len() && i <= l < left.len() ==> leq(out@[k], left@[l]),
            forall|k: int, l: int|
                #![trigger out@[k], right@[l]]
                0 <= k < out.len() && j <= l < right.len() ==> leq(out@[k], right@[l]),
            out@.to_multiset() == left@.take(i as int).to_multiset().add(
                right@.take(j as int).to_multiset(),
            ),
        decreases left.len() - i + right.len() - j,
    {
        let ghost before = out@;
        let take_left = if i == left.len() {
            false
        } else if j == right.len() {
            true
        } else {
            precedes(&left[i], &right[j], index)
        };
        if take_left {
            out.push(left[i]);
            proof {
                vstd::seq_lib::to_multiset_build(before, left@[i as int]);
                vstd::seq_lib::to_multiset_build(left@.take(i as int), left@[i as int]);
                assert(left@.take(i + 1) =~= left@.take(i as int).push(left@[i as int]));
                assert(out@.to_multiset() =~= left@.take(i + 1).to_multiset().add(
                    right@.take(j as int).to_multiset(),
                ));
                assert forall|l: int| j <= l < right.len() implies leq(
                    left@[i as int],
                    #[trigger] right@[l],
                ) by {
                    if l > j {
                        assert(leq(right@[j as int], right@[l]));
                    }
                }
            }
            i += 1;
        } else {
            out.push(right[j]);
            proof {
                vstd::seq_lib::to_multiset_build(before, right@[j as int]);
                vstd::seq_lib::to_multiset_build(right@.take(j as int), right@[j as int]);
                assert(right@.take(j + 1) =~= right@.take(j as int).push(right@[j as int]));
                assert(out@.to_multiset() =~= left@.take(i as int).to_multiset().add(
                    right@.take(j + 1).to_multiset(),
                ));
                assert forall|l: int| i <= l < left.len() implies leq(
                    right@[j as int],
                    #[trigger] left@[l],
                ) by {
                    assert(leq(right@[j as int], left@[i as int]));
                    if l > i {
                        assert(leq(left@[i as int], left@[l]));
                    }
                }
            }
            j += 1;
        }
    }
    assert(left@.take(i as int) =~= left@);
    assert(right@.take(j as int) =~= right@);
    out
}

/// The entries from `start` to `end`, in order.
fn sorted_span(colors: &Vec<ColorCount>, start: usize, end: usize, index: u8) -> (out: Vec<
    ColorCount,
>)
    requires
        index < 3,
        start <= end <= colors.len(),
    ensures
        sorted_by(out@, channel_order(index as int)),
        out@.to_multiset() == colors@.subrange(start as int, end as int).to_multiset(),
    decreases end - start,
{
    if end - start < 2 {
        let mut out: Vec<ColorCount> = Vec::new();
        if start < end {
            out.push(colors[start]);
        }
        assert(out@ =~= colors@.subrange(start as int, end as int));
        out
    } else {
        let middle = start + (end - start) / 2;
        let left = sorted_span(colors, start, middle, index);
        let right = sorted_span(colors, middle, end, index);
        proof {
            let a = colors@.subrange(start as int, middle as int);
            let b = colors@.subrange(middle as int, end as int);
            assert(colors@.subrange(start as int, end as int) =~= a + b);
            vstd::seq_lib::lemma_multiset_commutative(a, b);
        }
        merge(&left, &right, index)
    }
}

/// Puts the entries from `start` to `end` in [`channel_order`].
pub fn sort_colors(colors: &mut Vec<ColorCount>, start: usize, end: usize, index: u8)
    requires
        index < 3,
        start <= end <= old(colors).len(),
    ensures
        final(colors)@ == sort_span(old(colors)@, start as int, end as int, index as int),
{
    let ghost leq = channel_order(index as int);
    let ghost span = colors@.subrange(start as int, end as int);
    let run = sorted_span(colors, start, end, index);
    proof {
        lemma_channel_order_total(index as int);
        span.lemma_sort_by_ensures(leq);
        vstd::seq_lib::lemma_sorted_unique(run@, span.sort_by(leq), leq);
        vstd::seq_lib::to_multiset_len(run@);
        vstd::seq_lib::to_multiset_len(span);
    }
    let ghost before = colors@;
    let mut i: usize = 0;
    while i < run.len()
        invariant
            i <= run.len(),
            run.len() == end - start,
            start <= end <= before.len(),
            colors@ == before.take(start as int) + run@.take(i as int) + before.skip(start + i),
        decreases run.len() - i,
    {
        colors.set(start + i, run[i]);
        i += 1;
        assert(colors@ =~= before.take(start as int) + run@.take(i as int) + before.skip(start + i));
    }
    assert(run@.take(i as int) =~= run@);
}

/// A packed color is red times 65536, plus green times 256, plus blue; its channels are these
/// three numbers.
pub proof fn law_colors_are_packed_by_place(r: int, g: int, b: int)
    requires
        0 <= r < 256,
        0 <= g < 256,
        0 <= b < 256,
    ensures
        packed(r, g, b) == r * 65536 + g * 256 + b,
        channel((r * 65536 + g * 256 + b) as u32, 0) == r,
        channel((r * 65536 + g * 256 + b) as u32, 1) == g,
        channel((r * 65536 + g * 256 + b) as u32, 2) == b,
{
}

} // verus!

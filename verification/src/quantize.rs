//! Median-cut quantization of the opaque pixels of an RGBA buffer.

use std::collections::HashMap;
use vstd::prelude::*;
use vstd::relations::sorted_by;

use crate::color::{
    channel, channel_of, channel_order, lemma_channel_order_total, lemma_channels_pack,
    lemma_packed_channels, pack_rgb, packed, sort_colors, sort_span, ColorCount,
};

verus! {

broadcast use vstd::std_specs::hash::group_hash_axioms;

/// The most palette entries that one image can address.
pub const MAX_PALETTE: usize = 256;

/// Pixels whose alpha lies below this stay unpainted.
pub const OPAQUE_ALPHA: u8 = 128;

/// One past the largest packed color.
pub const COLOR_SPACE: u32 = 0x1000000;

/// The number of whole RGBA pixels in a buffer.
pub open spec fn pixel_total(pixels: Seq<u8>) -> nat {
    pixels.len() / 4
}

/// Whether pixel `i` is painted at all.
pub open spec fn opaque(pixels: Seq<u8>, i: int) -> bool {
    pixels[4 * i + 3] >= OPAQUE_ALPHA
}

/// The packed color of pixel `i`.
pub open spec fn color_at(pixels: Seq<u8>, i: int) -> u32 {
    packed(pixels[4 * i] as int, pixels[4 * i + 1] as int, pixels[4 * i + 2] as int)
}

/// How many of the first `n` pixels are opaque and have this color.
pub open spec fn occurrences(pixels: Seq<u8>, color: u32, n: nat) -> nat
    decreases n,
{
    if n == 0 {
        0
    } else {
        let rest = occurrences(pixels, color, (n - 1) as nat);
        if opaque(pixels, n - 1) && color_at(pixels, n - 1) == color {
            rest + 1
        } else {
            rest
        }
    }
}

/// How many pixels are opaque and have this color.
pub open spec fn tally(pixels: Seq<u8>, color: u32) -> nat {
    occurrences(pixels, color, pixel_total(pixels))
}

/// The colors below `bound` that occur, ascending, each with its tally.
pub open spec fn histogram_below(pixels: Seq<u8>, bound: nat) -> Seq<ColorCount>
    decreases bound,
{
    if bound == 0 {
        Seq::empty()
    } else {
        let rest = histogram_below(pixels, (bound - 1) as nat);
        let color = (bound - 1) as u32;
        if tally(pixels, color) > 0 {
            rest.push(ColorCount { color, count: tally(pixels, color) as u64 })
        } else {
            rest
        }
    }
}

/// Every opaque color of the image, ascending, with the number of its pixels.
pub open spec fn histogram(pixels: Seq<u8>) -> Seq<ColorCount> {
    histogram_below(pixels, COLOR_SPACE as nat)
}

/// No two entries have the same color.
pub open spec fn distinct_colors(colors: Seq<ColorCount>) -> bool {
    forall|i: int, j: int|
        #![trigger colors[i], colors[j]]
        0 <= i < j < colors.len() ==> colors[i].color != colors[j].color
}

/// Each entry counts a color that occurs, and each color that occurs has an entry.
pub open spec fn counts_image(colors: Seq<ColorCount>, pixels: Seq<u8>) -> bool {
    &&& forall|i: int|
        #![trigger colors[i]]
        0 <= i < colors.len() ==> colors[i].color < COLOR_SPACE && colors[i].count == tally(
            pixels,
            colors[i].color,
        ) && colors[i].count > 0
    &&& forall|color: u32|
        #[trigger] tally(pixels, color) > 0 ==> exists|i: int|
            0 <= i < colors.len() && (#[trigger] colors[i]).color == color
}

proof fn lemma_occurrences_bound(pixels: Seq<u8>, color: u32, n: nat)
    ensures
        occurrences(pixels, color, n) <= n,
    decreases n,
{
    if n > 0 {
        lemma_occurrences_bound(pixels, color, (n - 1) as nat);
    }
}

/// An ascending list that counts the image starts with the histogram below any bound.
pub proof fn lemma_ascending_below(pixels: Seq<u8>, colors: Seq<ColorCount>, bound: nat) -> (k: int)
    requires
        counts_image(colors, pixels),
        forall|i: int, j: int|
            #![trigger colors[i], colors[j]]
            0 <= i < j < colors.len() ==> colors[i].color < colors[j].color,
        bound <= COLOR_SPACE,
    ensures
        0 <= k <= colors.len(),
        histogram_below(pixels, bound) == colors.take(k),
        forall|i: int| #![trigger colors[i]] 0 <= i < k ==> colors[i].color < bound,
        forall|i: int| #![trigger colors[i]] k <= i < colors.len() ==> colors[i].color >= bound,
    decreases bound,
{
    if bound == 0 {
        assert(colors.take(0) =~= Seq::empty());
        0
    } else {
        let k0 = lemma_ascending_below(pixels, colors, (bound - 1) as nat);
        let color = (bound - 1) as u32;
        if tally(pixels, color) > 0 {
            let m = choose|i: int| 0 <= i < colors.len() && (#[trigger] colors[i]).color == color;
            assert(m >= k0);
            if m > k0 {
                assert(colors[k0].color < colors[m].color);
            }
            assert(colors.take(k0 + 1) =~= colors.take(k0).push(colors[k0]));
            k0 + 1
        } else {
            if k0 < colors.len() && colors[k0].color == color {
                assert(tally(pixels, colors[k0].color) > 0);
            }
            assert forall|i: int| #![trigger colors[i]] k0 <= i < colors.len() implies colors[i].color
                >= bound by {
                if i > k0 {
                    assert(colors[k0].color < colors[i].color);
                }
            }
            k0
        }
    }
}

/// Sorting a list that counts the image gives the histogram.
proof fn lemma_sorted_is_histogram(pixels: Seq<u8>, colors: Seq<ColorCount>)
    requires
        counts_image(colors, pixels),
        distinct_colors(colors),
        sorted_by(colors, channel_order(0)),
    ensures
        colors == histogram(pixels),
{
    let leq = channel_order(0);
    assert forall|i: int, j: int|
        #![trigger colors[i], colors[j]]
        0 <= i < j < colors.len() implies colors[i].color < colors[j].color by {
        assert(leq(colors[i], colors[j]));
    }
    let k = lemma_ascending_below(pixels, colors, COLOR_SPACE as nat);
    if k < colors.len() {
        assert(colors[k].color < COLOR_SPACE);
    }
    assert(colors.take(k) =~= colors);
}

/// The opaque colors of the image in the order of their first pixel, with their counts.
fn count_colors(pixels: &[u8]) -> (colors: Vec<ColorCount>)
    ensures
        counts_image(colors@, pixels@),
        distinct_colors(colors@),
{
    let mut colors: Vec<ColorCount> = Vec::new();
    let mut places: HashMap<u32, usize> = HashMap::new();
    let total = pixels.len() / 4;
    let mut i: usize = 0;
    while i < total
        invariant
            i <= total,
            total == pixel_total(pixels@),
            4 * total <= pixels.len(),
            forall|k: int|
                #![trigger colors@[k]]
                0 <= k < colors.len() ==> {
                    &&& colors@[k].color < COLOR_SPACE
                    &&& colors@[k].count == occurrences(pixels@, colors@[k].color, i as nat)
                    &&& colors@[k].count > 0
                    &&& places@.contains_key(colors@[k].color)
                    &&& places@[colors@[k].color] == k
                },
            forall|color: u32|
                #[trigger] occurrences(pixels@, color, i as nat) > 0 ==> places@.contains_key(color),
            forall|color: u32| #[trigger]
                places@.contains_key(color) ==> places@[color] < colors.len()
                    && colors@[places@[color] as int].color == color,
        decreases total - i,
    {
        let base = i * 4;
        let px = vstd::slice::slice_subrange(pixels, base, base + 4);
        if px[3] >= OPAQUE_ALPHA {
            let color = pack_rgb(px);
            proof {
                lemma_packed_channels(px[0] as int, px[1] as int, px[2] as int);
                lemma_occurrences_bound(pixels@, color, i as nat);
            }
            assert(color == color_at(pixels@, i as int));
            let known: Option<usize> = match places.get(&color) {
                Some(place) => Some(*place),
                None => None,
            };
            match known {
                Some(place) => {
                    let count = colors[place].count;
                    colors.set(place, ColorCount { color, count: count + 1 });
                },
                None => {
                    places.insert(color, colors.len());
                    colors.push(ColorCount { color, count: 1 });
                },
            }
        }
        i += 1;
        assert forall|color: u32| #[trigger]
            occurrences(pixels@, color, i as nat) > 0 implies places@.contains_key(color) by {
            assert(opaque(pixels@, i - 1) && color_at(pixels@, i - 1) == color || occurrences(
                pixels@,
                color,
                (i - 1) as nat,
            ) > 0);
        }
    }
    colors
}

/// The number of pixels counted by the entries from `start` to `end`.
pub open spec fn weight(colors: Seq<ColorCount>, start: int, end: int) -> nat
    decreases end - start,
{
    if end <= start {
        0
    } else {
        weight(colors, start, end - 1) + colors[end - 1].count as nat
    }
}

/// The largest value of a channel among the entries from `start` to `end`.
pub open spec fn channel_top(colors: Seq<ColorCount>, start: int, end: int, index: int) -> int
    decreases end - start,
{
    if end <= start {
        0
    } else {
        let rest = channel_top(colors, start, end - 1, index);
        let value = channel(colors[end - 1].color, index);
        if value > rest {
            value
        } else {
            rest
        }
    }
}

/// The smallest value of a channel among the entries from `start` to `end`.
pub open spec fn channel_bottom(colors: Seq<ColorCount>, start: int, end: int, index: int) -> int
    decreases end - start,
{
    if end <= start {
        0xFF
    } else {
        let rest = channel_bottom(colors, start, end - 1, index);
        let value = channel(colors[end - 1].color, index);
        if value < rest {
            value
        } else {
            rest
        }
    }
}

/// How far apart a channel's values lie among the entries from `start` to `end`.
pub open spec fn spread(colors: Seq<ColorCount>, start: int, end: int, index: int) -> int {
    channel_top(colors, start, end, index) - channel_bottom(colors, start, end, index)
}

/// Candidate `k` is channel `k % 3` of box `k / 3`.
pub open spec fn candidate_spread(
    colors: Seq<ColorCount>,
    boxes: Seq<(usize, usize)>,
    k: int,
) -> int {
    spread(colors, boxes[k / 3].0 as int, boxes[k / 3].1 as int, k % 3)
}

/// Candidate `k` is the first of those with the widest spread, and it has one.
pub open spec fn is_widest(
    colors: Seq<ColorCount>,
    boxes: Seq<(usize, usize)>,
    k: int,
) -> bool {
    &&& 0 <= k < 3 * boxes.len()
    &&& candidate_spread(colors, boxes, k) > 0
    &&& forall|j: int|
        0 <= j < k ==> #[trigger] candidate_spread(colors, boxes, j) < candidate_spread(
            colors,
            boxes,
            k,
        )
    &&& forall|j: int|
        k < j < 3 * boxes.len() ==> #[trigger] candidate_spread(colors, boxes, j)
            <= candidate_spread(colors, boxes, k)
}

/// The entries from `start` up to `i` are the fewest that hold half of the span's pixels.
pub open spec fn is_weighted_median(
    colors: Seq<ColorCount>,
    start: int,
    end: int,
    i: int,
) -> bool {
    &&& start < i <= end
    &&& 2 * weight(colors, start, i) >= weight(colors, start, end)
    &&& forall|j: int|
        start < j < i ==> 2 * #[trigger] weight(colors, start, j) < weight(colors, start, end)
}

/// Where a box is split: at its weighted median, so that neither part is empty.
pub open spec fn split_place(colors: Seq<ColorCount>, start: int, end: int) -> int {
    let i = choose|i: int| is_weighted_median(colors, start, end, i);
    if i >= end {
        end - 1
    } else {
        i
    }
}

pub proof fn lemma_spread_of_one(colors: Seq<ColorCount>, start: int, end: int, index: int)
    requires
        end - start < 2,
    ensures
        spread(colors, start, end, index) <= 0,
{
    reveal_with_fuel(channel_top, 2);
    reveal_with_fuel(channel_bottom, 2);
}

proof fn lemma_weight_monotone(colors: Seq<ColorCount>, start: int, i: int, j: int)
    requires
        i <= j,
    ensures
        weight(colors, start, i) <= weight(colors, start, j),
    decreases j - i,
{
    if i < j {
        lemma_weight_monotone(colors, start, i, j - 1);
    }
}

pub proof fn lemma_weight_splits(colors: Seq<ColorCount>, a: int, b: int, c: int)
    requires
        a <= b <= c,
    ensures
        weight(colors, a, c) == weight(colors, a, b) + weight(colors, b, c),
    decreases c - b,
{
    if b < c {
        lemma_weight_splits(colors, a, b, c - 1);
    }
}

/// The occurrences, among the first `n` pixels, of the first `m` listed colors.
spec fn listed_occurrences(pixels: Seq<u8>, colors: Seq<ColorCount>, m: nat, n: nat) -> nat
    decreases m,
{
    if m == 0 {
        0
    } else {
        listed_occurrences(pixels, colors, (m - 1) as nat, n) + occurrences(
            pixels,
            colors[m - 1].color,
            n,
        )
    }
}

proof fn lemma_listed_step(pixels: Seq<u8>, colors: Seq<ColorCount>, m: nat, n: nat)
    requires
        distinct_colors(colors),
        m <= colors.len(),
        n > 0,
    ensures
        listed_occurrences(pixels, colors, m, n) <= listed_occurrences(
            pixels,
            colors,
            m,
            (n - 1) as nat,
        ) + 1,
        (forall|i: int| 0 <= i < m ==> (#[trigger] colors[i]).color != color_at(pixels, n - 1))
            ==> listed_occurrences(pixels, colors, m, n) <= listed_occurrences(
            pixels,
            colors,
            m,
            (n - 1) as nat,
        ),
    decreases m,
{
    if m > 0 {
        lemma_listed_step(pixels, colors, (m - 1) as nat, n);
        if colors[m - 1].color == color_at(pixels, n - 1) {
            assert forall|i: int| 0 <= i < m - 1 implies (#[trigger] colors[i]).color != color_at(
                pixels,
                n - 1,
            ) by {
                assert(colors[i].color != colors[m - 1].color);
            }
        }
    }
}

proof fn lemma_listed_bound(pixels: Seq<u8>, colors: Seq<ColorCount>, m: nat, n: nat)
    requires
        distinct_colors(colors),
        m <= colors.len(),
    ensures
        listed_occurrences(pixels, colors, m, n) <= n,
    decreases n, m,
{
    if n > 0 {
        lemma_listed_bound(pixels, colors, m, (n - 1) as nat);
        lemma_listed_step(pixels, colors, m, n);
    } else if m > 0 {
        lemma_listed_bound(pixels, colors, (m - 1) as nat, n);
    }
}

proof fn lemma_weight_is_listed(pixels: Seq<u8>, colors: Seq<ColorCount>, m: nat)
    requires
        counts_image(colors, pixels),
        m <= colors.len(),
    ensures
        weight(colors, 0, m as int) == listed_occurrences(
            pixels,
            colors,
            m,
            pixel_total(pixels),
        ),
    decreases m,
{
    if m > 0 {
        lemma_weight_is_listed(pixels, colors, (m - 1) as nat);
        assert(colors[m - 1].count == tally(pixels, colors[m - 1].color));
    }
}

/// A list that counts an image weighs no more than the image has pixels.
proof fn lemma_weight_bound(pixels: Seq<u8>, colors: Seq<ColorCount>, start: int, end: int)
    requires
        counts_image(colors, pixels),
        distinct_colors(colors),
        0 <= start <= end <= colors.len(),
    ensures
        weight(colors, start, end) <= pixel_total(pixels),
{
    lemma_weight_is_listed(pixels, colors, end as nat);
    lemma_listed_bound(pixels, colors, end as nat, pixel_total(pixels));
    lemma_weight_splits(colors, 0, start, end);
}

/// Reordering a span keeps what the list counts.
pub proof fn lemma_sort_span_counts(
    pixels: Seq<u8>,
    colors: Seq<ColorCount>,
    start: int,
    end: int,
    index: int,
)
    requires
        0 <= start <= end <= colors.len(),
    ensures
        ({
            let sorted = sort_span(colors, start, end, index);
            &&& sorted.len() == colors.len()
            &&& sorted.to_multiset() == colors.to_multiset()
            &&& sorted_by(sorted.subrange(start, end), channel_order(index))
            &&& distinct_colors(colors) ==> distinct_colors(sorted)
            &&& counts_image(colors, pixels) ==> counts_image(sorted, pixels)
        }),
{
    broadcast use vstd::seq_lib::group_to_multiset_ensures;

    let leq = channel_order(index);
    let span = colors.subrange(start, end);
    let run = span.sort_by(leq);
    let sorted = sort_span(colors, start, end, index);
    lemma_channel_order_total(index);
    span.lemma_sort_by_ensures(leq);
    vstd::seq_lib::to_multiset_len(run);
    vstd::seq_lib::to_multiset_len(span);
    let head = colors.take(start);
    let tail = colors.skip(end);
    assert(colors =~= head + span + tail);
    vstd::seq_lib::lemma_multiset_commutative(head, span);
    vstd::seq_lib::lemma_multiset_commutative(head + span, tail);
    vstd::seq_lib::lemma_multiset_commutative(head, run);
    vstd::seq_lib::lemma_multiset_commutative(head + run, tail);
    assert(sorted.subrange(start, end) =~= run);
    assert forall|x: ColorCount| colors.contains(x) == sorted.contains(x) by {
        assert(colors.to_multiset().count(x) == sorted.to_multiset().count(x));
    }
    if distinct_colors(colors) {
        assert(colors.no_duplicates());
        colors.lemma_multiset_has_no_duplicates();
        sorted.lemma_multiset_has_no_duplicates_conv();
        assert forall|i: int, j: int|
            #![trigger sorted[i], sorted[j]]
            0 <= i < j < sorted.len() implies sorted[i].color != sorted[j].color by {
            assert(sorted.contains(sorted[i]) && sorted.contains(sorted[j]));
            assert(colors.contains(sorted[i]) && colors.contains(sorted[j]));
            let a = choose|a: int| 0 <= a < colors.len() && colors[a] == sorted[i];
            let b = choose|b: int| 0 <= b < colors.len() && colors[b] == sorted[j];
            assert(a != b);
            if a < b {
                assert(colors[a].color != colors[b].color);
            } else {
                assert(colors[b].color != colors[a].color);
            }
        }
    }
    if counts_image(colors, pixels) {
        assert forall|i: int|
            #![trigger sorted[i]]
            0 <= i < sorted.len() implies sorted[i].color < COLOR_SPACE && sorted[i].count == tally(
            pixels,
            sorted[i].color,
        ) && sorted[i].count > 0 by {
            assert(sorted.contains(sorted[i]));
            assert(colors.contains(sorted[i]));
            let a = choose|a: int| 0 <= a < colors.len() && colors[a] == sorted[i];
            assert(colors[a].count > 0);
        }
        assert forall|color: u32| #[trigger] tally(pixels, color) > 0 implies exists|i: int|
            0 <= i < sorted.len() && (#[trigger] sorted[i]).color == color by {
            let a = choose|a: int| 0 <= a < colors.len() && (#[trigger] colors[a]).color == color;
            assert(colors.contains(colors[a]));
            assert(sorted.contains(colors[a]));
            let i = choose|i: int| 0 <= i < sorted.len() && sorted[i] == colors[a];
            assert(sorted[i].color == color);
        }
    }
}

/// Splits the box with the widest channel spread, again and again, until there are
/// [`MAX_PALETTE`] boxes or no box holds two colors.
pub open spec fn median_cut(colors: Seq<ColorCount>, boxes: Seq<(usize, usize)>) -> (
    Seq<ColorCount>,
    Seq<(usize, usize)>,
)
    decreases MAX_PALETTE - boxes.len(),
{
    if boxes.len() >= MAX_PALETTE || !exists|k: int| is_widest(colors, boxes, k) {
        (colors, boxes)
    } else {
        let k = choose|k: int| is_widest(colors, boxes, k);
        let (start, end) = boxes[k / 3];
        let sorted = sort_span(colors, start as int, end as int, k % 3);
        let middle = split_place(sorted, start as int, end as int) as usize;
        median_cut(sorted, boxes.update(k / 3, (start, middle)).push((middle, end)))
    }
}

/// The boxes are not empty, and each of the `total` entries lies in exactly one of them.
pub open spec fn partitions(boxes: Seq<(usize, usize)>, total: int) -> bool {
    &&& forall|b: int|
        #![trigger boxes[b]]
        0 <= b < boxes.len() ==> boxes[b].0 < boxes[b].1 <= total
    &&& forall|b: int, c: int|
        #![trigger boxes[b], boxes[c]]
        0 <= b < boxes.len() && 0 <= c < boxes.len() && b != c ==> boxes[b].1 <= boxes[c].0
            || boxes[c].1 <= boxes[b].0
    &&& forall|p: int| 0 <= p < total ==> #[trigger] covered(boxes, p)
}

/// Some box holds entry `p`.
pub open spec fn covered(boxes: Seq<(usize, usize)>, p: int) -> bool {
    exists|b: int| 0 <= b < boxes.len() && (#[trigger] boxes[b]).0 <= p < boxes[b].1
}

/// Splitting a box keeps a partition.
pub proof fn lemma_split_partitions(
    boxes: Seq<(usize, usize)>,
    total: int,
    b: int,
    middle: usize,
)
    requires
        partitions(boxes, total),
        0 <= b < boxes.len(),
        boxes[b].0 < middle < boxes[b].1,
    ensures
        partitions(
            boxes.update(b, (boxes[b].0, middle)).push((middle, boxes[b].1)),
            total,
        ),
{
    let after = boxes.update(b, (boxes[b].0, middle)).push((middle, boxes[b].1));
    assert forall|p: int| 0 <= p < total implies #[trigger] covered(after, p) by {
        assert(covered(boxes, p));
        let c = choose|c: int| 0 <= c < boxes.len() && (#[trigger] boxes[c]).0 <= p < boxes[c].1;
        if c == b && p >= middle {
            assert(after[boxes.len() as int].0 <= p < after[boxes.len() as int].1);
        } else {
            assert(after[c].0 <= p < after[c].1);
        }
    }
}

/// How far apart a channel's values lie.
fn measure_spread(colors: &Vec<ColorCount>, start: usize, end: usize, index: u8) -> (value: u32)
    requires
        index < 3,
        start < end <= colors.len(),
    ensures
        value == spread(colors@, start as int, end as int, index as int),
{
    let mut min: u32 = 0xFF;
    let mut max: u32 = 0;
    let mut i = start;
    while i < end
        invariant
            index < 3,
            start <= i <= end <= colors.len(),
            max == channel_top(colors@, start as int, i as int, index as int),
            min == channel_bottom(colors@, start as int, i as int, index as int),
            max <= 0xFF,
            i > start ==> min <= max,
        decreases end - i,
    {
        let value = channel_of(colors[i].color, index);
        if value < min {
            min = value;
        }
        if value > max {
            max = value;
        }
        i += 1;
    }
    max - min
}

/// The first box and channel with the widest spread, if any spread is positive.
fn find_widest(colors: &Vec<ColorCount>, boxes: &Vec<(usize, usize)>) -> (found: Option<
    (usize, u8),
>)
    requires
        partitions(boxes@, colors.len() as int),
    ensures
        match found {
            Some((b, index)) => index < 3 && is_widest(colors@, boxes@, 3 * b + index),
            None => !exists|k: int| is_widest(colors@, boxes@, k),
        },
{
    let mut best: Option<(usize, u8)> = None;
    let mut best_spread: u32 = 0;
    let mut b: usize = 0;
    while b < boxes.len()
        invariant
            partitions(boxes@, colors.len() as int),
            b <= boxes.len(),
            leads(colors@, boxes@, 3 * b as int, best, best_spread),
        decreases boxes.len() - b,
    {
        let (start, end) = boxes[b];
        let mut index: u8 = 0;
        while index < 3
            invariant
                partitions(boxes@, colors.len() as int),
                b < boxes.len(),
                index <= 3,
                (start, end) == boxes@[b as int],
                leads(colors@, boxes@, 3 * b + index, best, best_spread),
            decreases 3 - index,
        {
            let ghost k = 3 * b + index;
            assert(k / 3 == b && k % 3 == index as int);
            let width = measure_spread(colors, start, end, index);
            assert(width == candidate_spread(colors@, boxes@, k));
            if width > best_spread {
                best = Some((b, index));
                best_spread = width;
            }
            index += 1;
        }
        b += 1;
    }
    proof {
        if best is None {
            assert forall|k: int| !is_widest(colors@, boxes@, k) by {
                if 0 <= k < 3 * boxes@.len() {
                    assert(candidate_spread(colors@, boxes@, k) <= 0);
                }
            }
        }
    }
    best
}

/// `best` is the widest of the first `n` candidates.
spec fn leads(
    colors: Seq<ColorCount>,
    boxes: Seq<(usize, usize)>,
    n: int,
    best: Option<(usize, u8)>,
    best_spread: u32,
) -> bool {
    match best {
        None => best_spread == 0 && forall|j: int|
            0 <= j < n ==> #[trigger] candidate_spread(colors, boxes, j) <= 0,
        Some((b, index)) => {
            let k = 3 * b + index;
            &&& 0 <= k < n
            &&& index < 3
            &&& best_spread > 0
            &&& best_spread == candidate_spread(colors, boxes, k)
            &&& forall|j: int|
                0 <= j < k ==> #[trigger] candidate_spread(colors, boxes, j) < best_spread
            &&& forall|j: int|
                k < j < n ==> #[trigger] candidate_spread(colors, boxes, j) <= best_spread
        },
    }
}

/// There is exactly one weighted median.
proof fn lemma_weighted_median_unique(colors: Seq<ColorCount>, start: int, end: int, i: int)
    requires
        is_weighted_median(colors, start, end, i),
    ensures
        i == (choose|i: int| is_weighted_median(colors, start, end, i)),
{
    let c = choose|i: int| is_weighted_median(colors, start, end, i);
    assert(is_weighted_median(colors, start, end, c));
    if c < i {
        assert(2 * weight(colors, start, c) < weight(colors, start, end));
    } else if i < c {
        assert(2 * weight(colors, start, i) < weight(colors, start, end));
    }
}

/// The place at which a box of at least two colors is split.
fn find_split(colors: &Vec<ColorCount>, start: usize, end: usize) -> (middle: usize)
    requires
        start + 2 <= end <= colors.len(),
        weight(colors@, start as int, end as int) <= u64::MAX / 2,
    ensures
        middle == split_place(colors@, start as int, end as int),
        start < middle < end,
{
    let mut total: u64 = 0;
    let mut i = start;
    while i < end
        invariant
            start <= i <= end <= colors.len(),
            weight(colors@, start as int, end as int) <= u64::MAX / 2,
            total == weight(colors@, start as int, i as int),
        decreases end - i,
    {
        proof {
            lemma_weight_monotone(colors@, start as int, i + 1, end as int);
        }
        total += colors[i].count;
        i += 1;
    }
    let mut acc: u64 = colors[start].count;
    let mut i: usize = start + 1;
    proof {
        reveal_with_fuel(weight, 2);
        lemma_weight_monotone(colors@, start as int, start + 1, end as int);
    }
    while acc * 2 < total
        invariant
            start < i <= end <= colors.len(),
            total == weight(colors@, start as int, end as int),
            total <= u64::MAX / 2,
            acc == weight(colors@, start as int, i as int),
            acc <= total,
            forall|j: int|
                start < j < i ==> 2 * #[trigger] weight(colors@, start as int, j) < total,
        decreases end - i,
    {
        proof {
            if i == end {
                assert(acc == total);
            }
            lemma_weight_monotone(colors@, start as int, i + 1, end as int);
        }
        acc += colors[i].count;
        i += 1;
    }
    proof {
        lemma_weighted_median_unique(colors@, start as int, end as int, i as int);
    }
    if i >= end {
        end - 1
    } else {
        i
    }
}

/// Cuts `colors` into boxes, reordering them on the way.
fn cut_boxes(colors: &mut Vec<ColorCount>, Ghost(pixels): Ghost<Seq<u8>>) -> (boxes: Vec<
    (usize, usize),
>)
    requires
        old(colors).len() > 0,
        counts_image(old(colors)@, pixels),
        distinct_colors(old(colors)@),
        pixel_total(pixels) <= u64::MAX / 2,
    ensures
        (final(colors)@, boxes@) == median_cut(
            old(colors)@,
            seq![(0usize, old(colors)@.len() as usize)],
        ),
        counts_image(final(colors)@, pixels),
        distinct_colors(final(colors)@),
        partitions(boxes@, final(colors).len() as int),
        boxes.len() <= MAX_PALETTE,
{
    let mut boxes: Vec<(usize, usize)> = Vec::new();
    boxes.push((0, colors.len()));
    assert(boxes@ =~= seq![(0usize, old(colors)@.len() as usize)]);
    assert forall|p: int| 0 <= p < colors.len() implies #[trigger] covered(boxes@, p) by {
        assert(boxes@[0].0 <= p < boxes@[0].1);
    }
    let ghost goal = median_cut(colors@, boxes@);
    while boxes.len() < MAX_PALETTE
        invariant
            counts_image(colors@, pixels),
            distinct_colors(colors@),
            pixel_total(pixels) <= u64::MAX / 2,
            partitions(boxes@, colors.len() as int),
            boxes.len() <= MAX_PALETTE,
            median_cut(colors@, boxes@) == goal,
            goal == median_cut(old(colors)@, seq![(0usize, old(colors)@.len() as usize)]),
        decreases MAX_PALETTE - boxes.len(),
    {
        let (b, index) = match find_widest(colors, &boxes) {
            Some(found) => found,
            None => {
                return boxes;
            },
        };
        let ghost k = 3 * b + index;
        assert(k / 3 == b && k % 3 == index as int);
        assert(k == choose|k: int| is_widest(colors@, boxes@, k)) by {
            let c = choose|k: int| is_widest(colors@, boxes@, k);
            assert(is_widest(colors@, boxes@, k));
            assert(is_widest(colors@, boxes@, c));
            if c != k {
                assert(candidate_spread(colors@, boxes@, c) != candidate_spread(
                    colors@,
                    boxes@,
                    k,
                ));
            }
        }
        let (start, end) = boxes[b];
        proof {
            if end - start < 2 {
                lemma_spread_of_one(colors@, start as int, end as int, index as int);
            }
            lemma_sort_span_counts(pixels, colors@, start as int, end as int, index as int);
        }
        sort_colors(colors, start, end, index);
        proof {
            lemma_weight_bound(pixels, colors@, start as int, end as int);
        }
        let middle = find_split(colors, start, end);
        proof {
            lemma_split_partitions(boxes@, colors.len() as int, b as int, middle);
        }
        boxes.set(b, (start, middle));
        boxes.push((middle, end));
    }
    boxes
}

/// The order of boxes by start, then by end.
pub open spec fn box_order() -> spec_fn((usize, usize), (usize, usize)) -> bool {
    |a: (usize, usize), b: (usize, usize)| a.0 < b.0 || (a.0 == b.0 && a.1 <= b.1)
}

/// The colors of the image as they are grouped, and the groups in order: one box for each
/// color while the palette has room for all of them, and the boxes of the median cut otherwise.
pub open spec fn grouped(pixels: Seq<u8>) -> (Seq<ColorCount>, Seq<(usize, usize)>) {
    let colors = histogram(pixels);
    if colors.len() <= MAX_PALETTE {
        (colors, Seq::new(colors.len(), |i: int| (i as usize, (i + 1) as usize)))
    } else {
        let (sorted, boxes) = median_cut(colors, seq![(0usize, colors.len() as usize)]);
        (sorted, boxes.sort_by(box_order()))
    }
}

/// The sum of a channel over the pixels counted by the entries from `start` to `end`.
pub open spec fn channel_sum(colors: Seq<ColorCount>, start: int, end: int, index: int) -> int
    decreases end - start,
{
    if end <= start {
        0
    } else {
        channel_sum(colors, start, end - 1, index) + channel(colors[end - 1].color, index)
            * colors[end - 1].count
    }
}

/// The mean color of the pixels counted by the entries from `start` to `end`, rounded down.
pub open spec fn mean_color(colors: Seq<ColorCount>, start: int, end: int) -> u32 {
    let total = weight(colors, start, end) as int;
    packed(
        channel_sum(colors, start, end, 0) / total,
        channel_sum(colors, start, end, 1) / total,
        channel_sum(colors, start, end, 2) / total,
    )
}

/// The palette of the image: the mean color of each group.
pub open spec fn palette_of(pixels: Seq<u8>) -> Seq<u32> {
    let (colors, boxes) = grouped(pixels);
    Seq::new(
        boxes.len(),
        |b: int| mean_color(colors, boxes[b].0 as int, boxes[b].1 as int),
    )
}

/// The box has an entry with this color.
pub open spec fn holds_color(
    colors: Seq<ColorCount>,
    bounds: (usize, usize),
    color: u32,
) -> bool {
    exists|p: int| bounds.0 <= p < bounds.1 && (#[trigger] colors[p]).color == color
}

/// The group that a color of the image belongs to.
pub open spec fn group_of(pixels: Seq<u8>, color: u32) -> int {
    let (colors, boxes) = grouped(pixels);
    choose|b: int| 0 <= b < boxes.len() && #[trigger] holds_color(colors, boxes[b], color)
}

/// The palette index of each opaque color of the image.
pub open spec fn index_of(pixels: Seq<u8>) -> Map<u32, u16> {
    Map::new(|color: u32| tally(pixels, color) > 0, |color: u32| group_of(pixels, color) as u16)
}

/// Puts boxes in order.
fn order_boxes(boxes: &Vec<(usize, usize)>) -> (out: Vec<(usize, usize)>)
    ensures
        out@ == boxes@.sort_by(box_order()),
{
    let ghost leq = box_order();
    let mut out: Vec<(usize, usize)> = Vec::new();
    let mut i: usize = 0;
    assert(boxes@.take(0) =~= out@);
    while i < boxes.len()
        invariant
            i <= boxes.len(),
            leq == box_order(),
            sorted_by(out@, leq),
            out.len() == i,
            out@.to_multiset() == boxes@.take(i as int).to_multiset(),
        decreases boxes.len() - i,
    {
        let item = boxes[i];
        let mut at: usize = 0;
        while at < out.len() && (out[at].0 < item.0 || (out[at].0 == item.0 && out[at].1
            <= item.1))
            invariant
                at <= out.len(),
                leq == box_order(),
                forall|k: int| 0 <= k < at ==> leq(#[trigger] out@[k], item),
            decreases out.len() - at,
        {
            at += 1;
        }
        let ghost before = out@;
        out.insert(at, item);
        proof {
            vstd::seq_lib::to_multiset_insert(before, at as int, item);
            vstd::seq_lib::to_multiset_build(boxes@.take(i as int), item);
            assert(boxes@.take(i + 1) =~= boxes@.take(i as int).push(item));
            assert forall|a: int, b: int| 0 <= a < b < out.len() implies #[trigger] leq(
                out@[a],
                out@[b],
            ) by {
                if at < before.len() {
                    assert(leq(item, before[at as int]));
                }
                let x = if a < at { a } else { a - 1 };
                let y = if b < at { b } else { b - 1 };
                if a != at && b != at {
                    assert(leq(before[x], before[y]));
                } else if a == at {
                    if y > at {
                        assert(leq(before[at as int], before[y]));
                    }
                } else {
                    assert(leq(before[a], item));
                }
            }
        }
        i += 1;
    }
    proof {
        assert(boxes@.take(i as int) =~= boxes@);
        boxes@.lemma_sort_by_ensures(leq);
        vstd::seq_lib::lemma_sorted_unique(out@, boxes@.sort_by(leq), leq);
    }
    out
}

/// Reordering the boxes keeps a partition.
proof fn lemma_reorder_partitions(
    boxes: Seq<(usize, usize)>,
    ordered: Seq<(usize, usize)>,
    total: int,
)
    requires
        partitions(boxes, total),
        ordered.to_multiset() == boxes.to_multiset(),
    ensures
        partitions(ordered, total),
        ordered.len() == boxes.len(),
{
    broadcast use vstd::seq_lib::group_to_multiset_ensures;

    vstd::seq_lib::to_multiset_len(boxes);
    vstd::seq_lib::to_multiset_len(ordered);
    assert forall|x: (usize, usize)| #[trigger] boxes.contains(x) == ordered.contains(x) by {
        vstd::seq_lib::to_multiset_contains(boxes, x);
        vstd::seq_lib::to_multiset_contains(ordered, x);
    }
    assert forall|b: int, c: int| 0 <= b < c < boxes.len() implies boxes[b] != boxes[c] by {
        assert(boxes[b].0 < boxes[b].1 && boxes[c].0 < boxes[c].1);
    }
    assert(boxes.no_duplicates());
    boxes.lemma_multiset_has_no_duplicates();
    ordered.lemma_multiset_has_no_duplicates_conv();
    assert forall|b: int| #![trigger ordered[b]] 0 <= b < ordered.len() implies ordered[b].0
        < ordered[b].1 <= total by {
        assert(boxes.contains(ordered[b]));
        let x = choose|x: int| 0 <= x < boxes.len() && boxes[x] == ordered[b];
        assert(boxes[x].0 < boxes[x].1);
    }
    assert forall|b: int, c: int|
        #![trigger ordered[b], ordered[c]]
        0 <= b < ordered.len() && 0 <= c < ordered.len() && b != c implies ordered[b].1
        <= ordered[c].0 || ordered[c].1 <= ordered[b].0 by {
        assert(boxes.contains(ordered[b]) && boxes.contains(ordered[c]));
        let x = choose|x: int| 0 <= x < boxes.len() && boxes[x] == ordered[b];
        let y = choose|y: int| 0 <= y < boxes.len() && boxes[y] == ordered[c];
        assert(x != y);
        assert(boxes[x].1 <= boxes[y].0 || boxes[y].1 <= boxes[x].0);
    }
    assert forall|p: int| 0 <= p < total implies #[trigger] covered(ordered, p) by {
        assert(covered(boxes, p));
        let x = choose|x: int| 0 <= x < boxes.len() && (#[trigger] boxes[x]).0 <= p < boxes[x].1;
        assert(boxes.contains(boxes[x]));
        let b = choose|b: int| 0 <= b < ordered.len() && ordered[b] == boxes[x];
        assert(ordered[b].0 <= p < ordered[b].1);
    }
}

proof fn lemma_channel_sum_bound(colors: Seq<ColorCount>, start: int, end: int, index: int)
    ensures
        0 <= channel_sum(colors, start, end, index) <= 0xFF * weight(colors, start, end),
    decreases end - start,
{
    if end > start {
        lemma_channel_sum_bound(colors, start, end - 1, index);
        let value = channel(colors[end - 1].color, index);
        let count = colors[end - 1].count as int;
        assert(0 <= value * count <= 0xFF * count) by (nonlinear_arith)
            requires
                0 <= value <= 0xFF,
                count >= 0,
        ;
    }
}

/// The mean of one channel over a span.
fn mean_channel(colors: &Vec<ColorCount>, start: usize, end: usize, index: u8) -> (value: u32)
    requires
        index < 3,
        start < end <= colors.len(),
        0 < weight(colors@, start as int, end as int) <= u64::MAX,
    ensures
        value == channel_sum(colors@, start as int, end as int, index as int) / weight(
            colors@,
            start as int,
            end as int,
        ) as int,
        value <= 0xFF,
{
    let mut sum: u128 = 0;
    let mut total: u64 = 0;
    let mut i = start;
    while i < end
        invariant
            index < 3,
            start <= i <= end <= colors.len(),
            weight(colors@, start as int, end as int) <= u64::MAX,
            total == weight(colors@, start as int, i as int),
            sum == channel_sum(colors@, start as int, i as int, index as int),
        decreases end - i,
    {
        let entry = colors[i];
        let value = channel_of(entry.color, index);
        proof {
            lemma_weight_monotone(colors@, start as int, i + 1, end as int);
            lemma_channel_sum_bound(colors@, start as int, i as int, index as int);
            lemma_channel_sum_bound(colors@, start as int, i + 1, index as int);
            assert(0 <= value * entry.count <= 0xFF * entry.count) by (nonlinear_arith)
                requires
                    0 <= value <= 0xFF,
                    entry.count >= 0,
            ;
        }
        sum += value as u128 * entry.count as u128;
        total += entry.count;
        i += 1;
    }
    proof {
        lemma_channel_sum_bound(colors@, start as int, end as int, index as int);
        assert(0 <= sum as int / total as int <= 0xFF) by (nonlinear_arith)
            requires
                0 <= sum <= 0xFF * total,
                total > 0,
        ;
    }
    (sum / total as u128) as u32
}

/// The groups of an image with their colors, in order.
fn group_colors(pixels: &[u8]) -> (groups: (Vec<ColorCount>, Vec<(usize, usize)>))
    ensures
        (groups.0@, groups.1@) == grouped(pixels@),
        counts_image(groups.0@, pixels@),
        distinct_colors(groups.0@),
        partitions(groups.1@, groups.0.len() as int),
        groups.1.len() <= MAX_PALETTE,
{
    let mut colors = count_colors(pixels);
    let total = colors.len();
    proof {
        lemma_sort_span_counts(pixels@, colors@, 0, total as int, 0);
        let sorted = sort_span(colors@, 0, total as int, 0);
        assert(sorted.subrange(0, total as int) =~= sorted);
        lemma_sorted_is_histogram(pixels@, sorted);
    }
    sort_colors(&mut colors, 0, total, 0);
    if total <= MAX_PALETTE {
        let mut boxes: Vec<(usize, usize)> = Vec::new();
        let mut i: usize = 0;
        while i < total
            invariant
                i <= total <= MAX_PALETTE,
                boxes.len() == i,
                forall|b: int| 0 <= b < i ==> #[trigger] boxes@[b] == (b as usize, (b + 1) as usize),
            decreases total - i,
        {
            boxes.push((i, i + 1));
            i += 1;
        }
        assert(boxes@ =~= grouped(pixels@).1);
        assert forall|p: int| 0 <= p < total implies #[trigger] covered(boxes@, p) by {
            assert(boxes@[p].0 <= p < boxes@[p].1);
        }
        (colors, boxes)
    } else {
        assert(pixels@.len() == pixels.len());
        let boxes = cut_boxes(&mut colors, Ghost(pixels@));
        let ordered = order_boxes(&boxes);
        proof {
            boxes@.lemma_sort_by_ensures(box_order());
            lemma_reorder_partitions(boxes@, ordered@, colors.len() as int);
        }
        (colors, ordered)
    }
}

/// Median-cut quantization over the opaque pixels.
///
/// Returns the palette, as packed colors, and the palette index of every opaque color of the
/// image.
pub fn quantize(pixels: &[u8]) -> (result: (Vec<u32>, HashMap<u32, u16>))
    ensures
        result.0@ == palette_of(pixels@),
        result.1@ == index_of(pixels@),
{
    let (colors, boxes) = group_colors(pixels);
    let mut palette: Vec<u32> = Vec::new();
    let mut index: HashMap<u32, u16> = HashMap::new();
    let mut b: usize = 0;
    while b < boxes.len()
        invariant
            b <= boxes.len() <= MAX_PALETTE,
            counts_image(colors@, pixels@),
            distinct_colors(colors@),
            partitions(boxes@, colors.len() as int),
            palette.len() == b,
            forall|c: int|
                0 <= c < b ==> #[trigger] palette@[c] == mean_color(
                    colors@,
                    boxes@[c].0 as int,
                    boxes@[c].1 as int,
                ),
            forall|c: int, p: int|
                #![trigger boxes@[c], colors@[p]]
                0 <= c < b && boxes@[c].0 <= p < boxes@[c].1 ==> index@.contains_key(
                    colors@[p].color,
                ) && index@[colors@[p].color] == c,
            forall|color: u32| #[trigger]
                index@.contains_key(color) ==> tally(pixels@, color) > 0,
        decreases boxes.len() - b,
    {
        let (start, end) = boxes[b];
        proof {
            lemma_weight_bound(pixels@, colors@, start as int, end as int);
            assert(pixels@.len() == pixels.len());
            assert(colors@[end - 1].count > 0);
        }
        let red = mean_channel(&colors, start, end, 0);
        let green = mean_channel(&colors, start, end, 1);
        let blue = mean_channel(&colors, start, end, 2);
        palette.push(red * 0x10000 + green * 0x100 + blue);
        let mut p = start;
        while p < end
            invariant
                b < boxes.len() <= MAX_PALETTE,
                (start, end) == boxes@[b as int],
                start <= p <= end,
                counts_image(colors@, pixels@),
                distinct_colors(colors@),
                partitions(boxes@, colors.len() as int),
                forall|c: int, q: int|
                    #![trigger boxes@[c], colors@[q]]
                    0 <= c < b && boxes@[c].0 <= q < boxes@[c].1 ==> index@.contains_key(
                        colors@[q].color,
                    ) && index@[colors@[q].color] == c,
                forall|q: int|
                    #![trigger colors@[q]]
                    start <= q < p ==> index@.contains_key(colors@[q].color)
                        && index@[colors@[q].color] == b,
                forall|color: u32| #[trigger]
                    index@.contains_key(color) ==> tally(pixels@, color) > 0,
            decreases end - p,
        {
            let ghost before = index@;
            index.insert(colors[p].color, b as u16);
            proof {
                assert(colors@[p as int].count > 0);
                assert forall|c: int, q: int|
                    #![trigger boxes@[c], colors@[q]]
                    0 <= c < b && boxes@[c].0 <= q < boxes@[c].1 implies index@.contains_key(
                    colors@[q].color,
                ) && index@[colors@[q].color] == c by {
                    assert(boxes@[c].1 <= boxes@[b as int].0 || boxes@[b as int].1 <= boxes@[c].0);
                    assert(colors@[q].color != colors@[p as int].color);
                }
            }
            p += 1;
        }
        b += 1;
    }
    proof {
        assert(palette@ =~= palette_of(pixels@));
        assert forall|color: u32| #[trigger] tally(pixels@, color) > 0 implies index@.contains_key(color)
            && index@[color] == group_of(pixels@, color) as u16 by {
            let i = choose|i: int| 0 <= i < colors@.len() && (#[trigger] colors@[i]).color == color;
            assert(covered(boxes@, i));
            let c = choose|c: int|
                0 <= c < boxes@.len() && (#[trigger] boxes@[c]).0 <= i < boxes@[c].1;
            assert(holds_color(colors@, boxes@[c], color));
            let g = group_of(pixels@, color);
            assert(0 <= g < boxes@.len() && holds_color(colors@, boxes@[g], color));
            let q = choose|q: int|
                boxes@[g].0 <= q < boxes@[g].1 && (#[trigger] colors@[q]).color == color;
            assert(boxes@[g].1 <= colors@.len());
            if q < i {
                assert(colors@[q].color != colors@[i].color);
            } else if i < q {
                assert(colors@[i].color != colors@[q].color);
            }
            if g != c {
                assert(boxes@[c].1 <= boxes@[g].0 || boxes@[g].1 <= boxes@[c].0);
            }
        }
        assert(index@ =~= index_of(pixels@));
    }
    (palette, index)
}

/// A pixel's color occurs.
pub proof fn lemma_pixel_counted(pixels: Seq<u8>, i: int, n: nat)
    requires
        0 <= i < n,
        opaque(pixels, i),
    ensures
        occurrences(pixels, color_at(pixels, i), n) > 0,
    decreases n,
{
    if i < n - 1 {
        lemma_pixel_counted(pixels, i, (n - 1) as nat);
    }
}

/// The histogram lists the colors of the image in ascending order.
pub proof fn lemma_histogram_below(pixels: Seq<u8>, bound: nat)
    requires
        pixels.len() <= usize::MAX,
        bound <= COLOR_SPACE,
    ensures
        ({
            let colors = histogram_below(pixels, bound);
            &&& forall|i: int|
                #![trigger colors[i]]
                0 <= i < colors.len() ==> colors[i].color < bound && colors[i].count == tally(
                    pixels,
                    colors[i].color,
                ) && colors[i].count > 0
            &&& forall|color: u32|
                color < bound && #[trigger] tally(pixels, color) > 0 ==> exists|i: int|
                    0 <= i < colors.len() && (#[trigger] colors[i]).color == color
            &&& forall|i: int, j: int|
                #![trigger colors[i], colors[j]]
                0 <= i < j < colors.len() ==> colors[i].color < colors[j].color
        }),
    decreases bound,
{
    if bound > 0 {
        lemma_histogram_below(pixels, (bound - 1) as nat);
        let rest = histogram_below(pixels, (bound - 1) as nat);
        let colors = histogram_below(pixels, bound);
        let last = (bound - 1) as u32;
        lemma_occurrences_bound(pixels, last, pixel_total(pixels));
        assert forall|color: u32|
            color < bound && #[trigger] tally(pixels, color) > 0 implies exists|i: int|
            0 <= i < colors.len() && (#[trigger] colors[i]).color == color by {
            if color == last {
                assert(colors[rest.len() as int].color == color);
            } else {
                let i = choose|i: int| 0 <= i < rest.len() && (#[trigger] rest[i]).color == color;
                assert(colors[i].color == color);
            }
        }
    }
}

/// A color of an image comes from three bytes.
pub proof fn lemma_color_in_space(pixels: Seq<u8>, color: u32, n: nat)
    requires
        occurrences(pixels, color, n) > 0,
    ensures
        color < COLOR_SPACE,
    decreases n,
{
    if opaque(pixels, n - 1) && color_at(pixels, n - 1) == color {
        lemma_packed_channels(
            pixels[4 * (n - 1)] as int,
            pixels[4 * (n - 1) + 1] as int,
            pixels[4 * (n - 1) + 2] as int,
        );
    } else {
        lemma_color_in_space(pixels, color, (n - 1) as nat);
    }
}

pub proof fn lemma_histogram_counts(pixels: Seq<u8>)
    requires
        pixels.len() <= usize::MAX,
    ensures
        counts_image(histogram(pixels), pixels),
        distinct_colors(histogram(pixels)),
{
    let colors = histogram(pixels);
    lemma_histogram_below(pixels, COLOR_SPACE as nat);
    assert forall|color: u32| #[trigger] tally(pixels, color) > 0 implies exists|i: int|
        0 <= i < colors.len() && (#[trigger] colors[i]).color == color by {
        lemma_color_in_space(pixels, color, pixel_total(pixels));
        let i = choose|i: int| 0 <= i < colors.len() && (#[trigger] colors[i]).color == color;
        assert(colors[i].color == color);
    }
}

/// Some prefix of a span is its weighted median.
pub proof fn lemma_weighted_median_exists(colors: Seq<ColorCount>, start: int, end: int, from: int)
    requires
        start < from <= end,
        forall|j: int|
            start < j < from ==> 2 * #[trigger] weight(colors, start, j) < weight(
                colors,
                start,
                end,
            ),
    ensures
        exists|i: int| is_weighted_median(colors, start, end, i),
    decreases end - from,
{
    if 2 * weight(colors, start, from) >= weight(colors, start, end) {
        assert(is_weighted_median(colors, start, end, from));
    } else {
        lemma_weighted_median_exists(colors, start, end, from + 1);
    }
}

/// Median cut keeps what the list counts, and its boxes partition the list.
proof fn lemma_median_cut(pixels: Seq<u8>, colors: Seq<ColorCount>, boxes: Seq<(usize, usize)>)
    requires
        counts_image(colors, pixels),
        distinct_colors(colors),
        partitions(boxes, colors.len() as int),
        boxes.len() <= MAX_PALETTE,
        colors.len() <= usize::MAX,
    ensures
        ({
            let (sorted, parts) = median_cut(colors, boxes);
            &&& counts_image(sorted, pixels)
            &&& distinct_colors(sorted)
            &&& partitions(parts, sorted.len() as int)
            &&& boxes.len() <= parts.len() <= MAX_PALETTE
        }),
    decreases MAX_PALETTE - boxes.len(),
{
    if boxes.len() < MAX_PALETTE && exists|k: int| is_widest(colors, boxes, k) {
        let k = choose|k: int| is_widest(colors, boxes, k);
        let (start, end) = boxes[k / 3];
        assert(start < end);
        if end - start < 2 {
            lemma_spread_of_one(colors, start as int, end as int, k % 3);
        }
        lemma_sort_span_counts(pixels, colors, start as int, end as int, k % 3);
        let sorted = sort_span(colors, start as int, end as int, k % 3);
        lemma_weighted_median_exists(sorted, start as int, end as int, start + 1);
        let middle = split_place(sorted, start as int, end as int) as usize;
        lemma_split_partitions(boxes, colors.len() as int, k / 3, middle);
        lemma_median_cut(
            pixels,
            sorted,
            boxes.update(k / 3, (start, middle)).push((middle, end)),
        );
    }
}

/// The groups of an image partition its colors, and there are at most [`MAX_PALETTE`].
pub proof fn lemma_grouped(pixels: Seq<u8>)
    requires
        pixels.len() <= usize::MAX,
    ensures
        counts_image(grouped(pixels).0, pixels),
        distinct_colors(grouped(pixels).0),
        partitions(grouped(pixels).1, grouped(pixels).0.len() as int),
        grouped(pixels).1.len() <= MAX_PALETTE,
{
    let colors = histogram(pixels);
    lemma_histogram_counts(pixels);
    if colors.len() <= MAX_PALETTE {
        let boxes = grouped(pixels).1;
        assert forall|p: int| 0 <= p < colors.len() implies #[trigger] covered(boxes, p) by {
            assert(boxes[p].0 <= p < boxes[p].1);
        }
    } else {
        lemma_color_list_fits(pixels, colors);
        let first = seq![(0usize, colors.len() as usize)];
        assert forall|p: int| 0 <= p < colors.len() implies #[trigger] covered(first, p) by {
            assert(first[0].0 <= p < first[0].1);
        }
        lemma_median_cut(pixels, colors, first);
        let (sorted, parts) = median_cut(colors, first);
        parts.lemma_sort_by_ensures(box_order());
        lemma_reorder_partitions(parts, parts.sort_by(box_order()), sorted.len() as int);
    }
}

/// There are no more distinct colors than pixels.
pub proof fn lemma_color_list_fits(pixels: Seq<u8>, colors: Seq<ColorCount>)
    requires
        counts_image(colors, pixels),
        distinct_colors(colors),
    ensures
        colors.len() <= pixel_total(pixels),
{
    lemma_weight_bound(pixels, colors, 0, colors.len() as int);
    lemma_weight_at_least(colors, colors.len());
}

proof fn lemma_weight_at_least(colors: Seq<ColorCount>, n: nat)
    requires
        n <= colors.len(),
        forall|i: int| #![trigger colors[i]] 0 <= i < colors.len() ==> colors[i].count > 0,
    ensures
        weight(colors, 0, n as int) >= n,
    decreases n,
{
    if n > 0 {
        lemma_weight_at_least(colors, (n - 1) as nat);
    }
}

/// Every opaque pixel has a palette index, and the index addresses a palette entry.
pub proof fn law_opaque_pixels_are_indexed(pixels: Seq<u8>, i: int)
    requires
        pixels.len() <= usize::MAX,
        0 <= i < pixel_total(pixels),
        opaque(pixels, i),
    ensures
        index_of(pixels).contains_key(color_at(pixels, i)),
        index_of(pixels)[color_at(pixels, i)] < palette_of(pixels).len(),
{
    let color = color_at(pixels, i);
    lemma_pixel_counted(pixels, i, pixel_total(pixels));
    assert(tally(pixels, color) > 0);
    lemma_color_grouped(pixels, color);
}

/// Every color of the image lies in one of its groups.
pub proof fn lemma_color_grouped(pixels: Seq<u8>, color: u32)
    requires
        pixels.len() <= usize::MAX,
        tally(pixels, color) > 0,
    ensures
        0 <= group_of(pixels, color) < grouped(pixels).1.len(),
        holds_color(grouped(pixels).0, grouped(pixels).1[group_of(pixels, color)], color),
{
    let (colors, boxes) = grouped(pixels);
    lemma_grouped(pixels);
    let p = choose|p: int| 0 <= p < colors.len() && (#[trigger] colors[p]).color == color;
    assert(covered(boxes, p));
    let b = choose|b: int| 0 <= b < boxes.len() && (#[trigger] boxes[b]).0 <= p < boxes[b].1;
    assert(holds_color(colors, boxes[b], color));
}

/// A palette never has more entries than a stream can address.
pub proof fn law_palette_is_bounded(pixels: Seq<u8>)
    requires
        pixels.len() <= usize::MAX,
    ensures
        palette_of(pixels).len() <= MAX_PALETTE,
{
    lemma_grouped(pixels);
}

/// An image whose colors fit the palette keeps every one of them exactly, and its palette is its
/// colors in ascending order.
pub proof fn law_few_colors_are_kept(pixels: Seq<u8>)
    requires
        pixels.len() <= usize::MAX,
        histogram(pixels).len() <= MAX_PALETTE,
    ensures
        palette_of(pixels) == histogram(pixels).map_values(|entry: ColorCount| entry.color),
        forall|i: int|
            #![trigger color_at(pixels, i)]
            0 <= i < pixel_total(pixels) && opaque(pixels, i) ==> palette_of(
                pixels,
            )[index_of(pixels)[color_at(pixels, i)] as int] == color_at(pixels, i),
{
    let colors = histogram(pixels);
    let palette = palette_of(pixels);
    lemma_histogram_counts(pixels);
    assert forall|p: int| 0 <= p < colors.len() implies #[trigger] palette[p] == colors[p].color by {
        let entry = colors[p];
        lemma_mean_of_one(colors, p);
        assert(grouped(pixels).1[p] == (p as usize, (p + 1) as usize));
    }
    assert(palette =~= colors.map_values(|entry: ColorCount| entry.color));
    assert forall|i: int|
        #![trigger color_at(pixels, i)]
        0 <= i < pixel_total(pixels) && opaque(pixels, i) implies palette[index_of(
        pixels,
    )[color_at(pixels, i)] as int] == color_at(pixels, i) by {
        let color = color_at(pixels, i);
        lemma_pixel_counted(pixels, i, pixel_total(pixels));
        assert(tally(pixels, color) > 0);
        lemma_color_grouped(pixels, color);
        let g = group_of(pixels, color);
        let p = choose|p: int|
            grouped(pixels).1[g].0 <= p < grouped(pixels).1[g].1 && (#[trigger] colors[p]).color
                == color;
        assert(p == g);
        assert(palette[g] == colors[g].color);
    }
}

/// The mean of one entry is its color.
pub proof fn lemma_mean_of_one(colors: Seq<ColorCount>, p: int)
    requires
        0 <= p < colors.len(),
        colors[p].color < COLOR_SPACE,
        colors[p].count > 0,
    ensures
        mean_color(colors, p, p + 1) == colors[p].color,
{
    let count = colors[p].count as int;
    reveal_with_fuel(weight, 2);
    reveal_with_fuel(channel_sum, 2);
    assert forall|index: int| 0 <= index < 3 implies #[trigger] channel_sum(
        colors,
        p,
        p + 1,
        index,
    ) / count == channel(colors[p].color, index) by {
        let value = channel(colors[p].color, index);
        assert((value * count) / count == value) by (nonlinear_arith)
            requires
                count > 0,
        ;
    }
    assert(channel_sum(colors, p, p + 1, 0) / count == channel(colors[p].color, 0));
    assert(channel_sum(colors, p, p + 1, 1) / count == channel(colors[p].color, 1));
    assert(channel_sum(colors, p, p + 1, 2) / count == channel(colors[p].color, 2));
    lemma_channels_pack(colors[p].color);
}

/// Each channel of a palette entry lies between the smallest and the largest value that the
/// channel has among the colors of the entry's group.
pub proof fn law_palette_entries_lie_within_their_group(pixels: Seq<u8>, b: int, index: int)
    requires
        pixels.len() <= usize::MAX,
        0 <= b < palette_of(pixels).len(),
        0 <= index < 3,
    ensures
        ({
            let (colors, boxes) = grouped(pixels);
            let (start, end) = (boxes[b].0 as int, boxes[b].1 as int);
            channel_bottom(colors, start, end, index) <= channel(palette_of(pixels)[b], index)
                <= channel_top(colors, start, end, index)
        }),
{
    let (colors, boxes) = grouped(pixels);
    let (start, end) = (boxes[b].0 as int, boxes[b].1 as int);
    lemma_grouped(pixels);
    let total = weight(colors, start, end) as int;
    assert(colors[end - 1].count > 0);
    lemma_channel_mean_within(colors, start, end, 0);
    lemma_channel_mean_within(colors, start, end, 1);
    lemma_channel_mean_within(colors, start, end, 2);
    lemma_packed_channels(
        channel_sum(colors, start, end, 0) / total,
        channel_sum(colors, start, end, 1) / total,
        channel_sum(colors, start, end, 2) / total,
    );
}

/// A weighted mean lies between the least and the greatest value.
pub proof fn lemma_channel_mean_within(colors: Seq<ColorCount>, start: int, end: int, index: int)
    requires
        start < end,
        weight(colors, start, end) > 0,
    ensures
        ({
            let mean = channel_sum(colors, start, end, index) / weight(colors, start, end) as int;
            &&& channel_bottom(colors, start, end, index) <= mean
            &&& mean <= channel_top(colors, start, end, index)
            &&& 0 <= mean <= 0xFF
        }),
{
    lemma_channel_sum_within(colors, start, end, index);
    let sum = channel_sum(colors, start, end, index);
    let total = weight(colors, start, end) as int;
    let low = channel_bottom(colors, start, end, index);
    let high = channel_top(colors, start, end, index);
    assert(low <= sum / total <= high) by (nonlinear_arith)
        requires
            low * total <= sum <= high * total,
            total > 0,
    ;
}

proof fn lemma_channel_sum_within(colors: Seq<ColorCount>, start: int, end: int, index: int)
    ensures
        channel_bottom(colors, start, end, index) * weight(colors, start, end) <= channel_sum(
            colors,
            start,
            end,
            index,
        ) <= channel_top(colors, start, end, index) * weight(colors, start, end),
        0 <= channel_bottom(colors, start, end, index),
        channel_top(colors, start, end, index) <= 0xFF,
    decreases end - start,
{
    if end > start {
        lemma_channel_sum_within(colors, start, end - 1, index);
        let rest = weight(colors, start, end - 1) as int;
        let sum = channel_sum(colors, start, end - 1, index);
        let count = colors[end - 1].count as int;
        let value = channel(colors[end - 1].color, index);
        let (low0, low) = (
            channel_bottom(colors, start, end - 1, index),
            channel_bottom(colors, start, end, index),
        );
        let (high0, high) = (
            channel_top(colors, start, end - 1, index),
            channel_top(colors, start, end, index),
        );
        assert(low * (rest + count) <= sum + value * count) by (nonlinear_arith)
            requires
                low <= low0,
                low <= value,
                low0 * rest <= sum,
                rest >= 0,
                count >= 0,
        ;
        assert(sum + value * count <= high * (rest + count)) by (nonlinear_arith)
            requires
                high0 <= high,
                value <= high,
                sum <= high0 * rest,
                rest >= 0,
                count >= 0,
        ;
    }
}

/// A channel's values lie between its smallest and its largest.
pub proof fn lemma_channel_within(colors: Seq<ColorCount>, start: int, end: int, index: int, p: int)
    requires
        start <= p < end,
    ensures
        channel_bottom(colors, start, end, index) <= channel(colors[p].color, index)
            <= channel_top(colors, start, end, index),
    decreases end - start,
{
    if p < end - 1 {
        lemma_channel_within(colors, start, end - 1, index, p);
    }
}

/// Two entries of a box differ in some channel, so that the channel has a spread there.
proof fn lemma_box_has_spread(colors: Seq<ColorCount>, start: int, end: int) -> (index: int)
    requires
        distinct_colors(colors),
        0 <= start,
        start + 1 < end <= colors.len(),
        colors[start].color < COLOR_SPACE,
        colors[start + 1].color < COLOR_SPACE,
    ensures
        0 <= index < 3,
        spread(colors, start, end, index) > 0,
{
    let (a, b) = (colors[start].color, colors[start + 1].color);
    lemma_channels_pack(a);
    lemma_channels_pack(b);
    assert(a != b);
    let index = if channel(a, 0) != channel(b, 0) {
        0int
    } else if channel(a, 1) != channel(b, 1) {
        1int
    } else {
        2int
    };
    lemma_channel_within(colors, start, end, index, start);
    lemma_channel_within(colors, start, end, index, start + 1);
    index
}

/// Fewer boxes than colors leave a box with two of them.
proof fn lemma_some_box_is_larger(boxes: Seq<(usize, usize)>, total: int) -> (b: int)
    requires
        partitions(boxes, total),
        boxes.len() < total,
    ensures
        0 <= b < boxes.len(),
        boxes[b].0 + 1 < boxes[b].1,
{
    if exists|b: int| 0 <= b < boxes.len() && (#[trigger] boxes[b]).0 + 1 < boxes[b].1 {
        choose|b: int| 0 <= b < boxes.len() && (#[trigger] boxes[b]).0 + 1 < boxes[b].1
    } else {
        let holders = Seq::new(
            total as nat,
            |p: int|
                choose|b: int| 0 <= b < boxes.len() && (#[trigger] boxes[b]).0 <= p < boxes[b].1,
        );
        assert forall|p: int| 0 <= p < total implies 0 <= #[trigger] holders[p] < boxes.len()
            && boxes[holders[p]].0 == p by {
            assert(covered(boxes, p));
            let b = holders[p];
            assert(boxes[b].0 <= p < boxes[b].1);
        }
        assert(holders.no_duplicates());
        holders.unique_seq_to_set();
        let range = vstd::set_lib::set_int_range(0, boxes.len() as int);
        vstd::set_lib::lemma_int_range(0, boxes.len() as int);
        assert(holders.to_set().subset_of(range)) by {
            assert forall|b: int| holders.to_set().contains(b) implies range.contains(b) by {
                let p = choose|p: int| 0 <= p < holders.len() && holders[p] == b;
                assert(holders[p] == b);
            }
        }
        vstd::set_lib::lemma_len_subset(holders.to_set(), range);
        0
    }
}

/// One of the first `n` candidates is the first with the widest spread among them.
proof fn lemma_widest_of_first(
    colors: Seq<ColorCount>,
    boxes: Seq<(usize, usize)>,
    n: int,
) -> (k: int)
    requires
        0 < n <= 3 * boxes.len(),
    ensures
        0 <= k < n,
        forall|j: int|
            0 <= j < k ==> #[trigger] candidate_spread(colors, boxes, j) < candidate_spread(
                colors,
                boxes,
                k,
            ),
        forall|j: int|
            k < j < n ==> #[trigger] candidate_spread(colors, boxes, j) <= candidate_spread(
                colors,
                boxes,
                k,
            ),
    decreases n,
{
    if n == 1 {
        0
    } else {
        let k = lemma_widest_of_first(colors, boxes, n - 1);
        if candidate_spread(colors, boxes, n - 1) > candidate_spread(colors, boxes, k) {
            n - 1
        } else {
            k
        }
    }
}

/// While there are fewer boxes than colors, some candidate is the widest.
pub proof fn lemma_widest_exists(
    pixels: Seq<u8>,
    colors: Seq<ColorCount>,
    boxes: Seq<(usize, usize)>,
)
    requires
        counts_image(colors, pixels),
        distinct_colors(colors),
        partitions(boxes, colors.len() as int),
        boxes.len() < colors.len(),
    ensures
        exists|k: int| is_widest(colors, boxes, k),
{
    let b = lemma_some_box_is_larger(boxes, colors.len() as int);
    let (start, end) = (boxes[b].0 as int, boxes[b].1 as int);
    let index = lemma_box_has_spread(colors, start, end);
    let wide = 3 * b + index;
    assert(wide / 3 == b && wide % 3 == index);
    assert(candidate_spread(colors, boxes, wide) > 0);
    let k = lemma_widest_of_first(colors, boxes, 3 * boxes.len() as int);
    assert(is_widest(colors, boxes, k));
}

/// Median cut goes on until the palette is full.
proof fn lemma_median_cut_fills(
    pixels: Seq<u8>,
    colors: Seq<ColorCount>,
    boxes: Seq<(usize, usize)>,
)
    requires
        counts_image(colors, pixels),
        distinct_colors(colors),
        partitions(boxes, colors.len() as int),
        boxes.len() <= MAX_PALETTE <= colors.len() <= usize::MAX,
    ensures
        median_cut(colors, boxes).1.len() == MAX_PALETTE,
    decreases MAX_PALETTE - boxes.len(),
{
    if boxes.len() < MAX_PALETTE {
        lemma_widest_exists(pixels, colors, boxes);
        let k = choose|k: int| is_widest(colors, boxes, k);
        let (start, end) = boxes[k / 3];
        assert(start < end);
        if end - start < 2 {
            lemma_spread_of_one(colors, start as int, end as int, k % 3);
        }
        lemma_sort_span_counts(pixels, colors, start as int, end as int, k % 3);
        let sorted = sort_span(colors, start as int, end as int, k % 3);
        lemma_weighted_median_exists(sorted, start as int, end as int, start + 1);
        let middle = split_place(sorted, start as int, end as int) as usize;
        lemma_split_partitions(boxes, colors.len() as int, k / 3, middle);
        lemma_median_cut_fills(
            pixels,
            sorted,
            boxes.update(k / 3, (start, middle)).push((middle, end)),
        );
    }
}

/// An image with more colors than the palette has room for fills the whole palette.
pub proof fn law_many_colors_fill_the_palette(pixels: Seq<u8>)
    requires
        pixels.len() <= usize::MAX,
        histogram(pixels).len() > MAX_PALETTE,
    ensures
        palette_of(pixels).len() == MAX_PALETTE,
{
    let colors = histogram(pixels);
    lemma_histogram_counts(pixels);
    lemma_color_list_fits(pixels, colors);
    let first = seq![(0usize, colors.len() as usize)];
    assert forall|p: int| 0 <= p < colors.len() implies #[trigger] covered(first, p) by {
        assert(first[0].0 <= p < first[0].1);
    }
    lemma_median_cut_fills(pixels, colors, first);
    median_cut(colors, first).1.lemma_sort_by_ensures(box_order());
    vstd::seq_lib::to_multiset_len(median_cut(colors, first).1);
    vstd::seq_lib::to_multiset_len(grouped(pixels).1);
}

/// Images with the same counts have the same histogram.
proof fn lemma_same_histogram(one: Seq<u8>, other: Seq<u8>, bound: nat)
    requires
        forall|color: u32| #[trigger] tally(one, color) == tally(other, color),
    ensures
        histogram_below(one, bound) == histogram_below(other, bound),
    decreases bound,
{
    if bound > 0 {
        lemma_same_histogram(one, other, (bound - 1) as nat);
        assert(tally(one, (bound - 1) as u32) == tally(other, (bound - 1) as u32));
    }
}

/// The palette and the indexes depend on nothing but how many opaque pixels have each color:
/// neither on where the pixels are, nor on what the transparent ones hold.
pub proof fn law_quantization_depends_on_counts_alone(one: Seq<u8>, other: Seq<u8>)
    requires
        forall|color: u32| #[trigger] tally(one, color) == tally(other, color),
    ensures
        palette_of(one) == palette_of(other),
        index_of(one) == index_of(other),
{
    lemma_same_histogram(one, other, COLOR_SPACE as nat);
    assert(grouped(one) == grouped(other));
    assert(palette_of(one) =~= palette_of(other));
    assert(forall|color: u32| #[trigger] group_of(one, color) == group_of(other, color));
    assert(index_of(one) =~= index_of(other));
}

} // verus!

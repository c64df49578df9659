//! What quantization does, told from the bytes of the image alone.

use vstd::prelude::*;

use crate::color::{
    channel, channel_order, lemma_channel_order_total, lemma_packed_channels, sort_span,
    ColorCount,
};
use crate::quantize::{
    box_order, candidate_spread, channel_bottom, channel_sum, channel_top, color_at, counts_image,
    covered, distinct_colors, group_of, grouped, histogram, holds_color, index_of,
    is_weighted_median, is_widest, law_many_colors_fill_the_palette, law_opaque_pixels_are_indexed,
    lemma_ascending_below, lemma_channel_mean_within, lemma_channel_within, lemma_color_grouped,
    lemma_color_in_space, lemma_color_list_fits, lemma_grouped, lemma_histogram_below,
    lemma_histogram_counts, lemma_mean_of_one, lemma_pixel_counted, lemma_sort_span_counts,
    lemma_split_partitions, lemma_spread_of_one, lemma_weight_splits,
    lemma_weighted_median_exists, lemma_widest_exists, mean_color, median_cut, occurrences,
    opaque, palette_of, partitions, pixel_total, split_place, spread, tally, weight, COLOR_SPACE,
    MAX_PALETTE,
};

verus! {

/// The red, green and blue bytes of pixel `i` as one number.
pub open spec fn rgb_number(pixels: Seq<u8>, i: int) -> int {
    65536 * pixels[4 * i] + 256 * pixels[4 * i + 1] + pixels[4 * i + 2]
}

/// Pixel `i` is seen: its alpha is at least 128.
pub open spec fn is_seen(pixels: Seq<u8>, i: int) -> bool {
    pixels[4 * i + 3] >= 128
}

/// One byte of a color number: red, green or blue.
pub open spec fn level(color: int, k: int) -> int {
    if k == 0 {
        color / 65536
    } else if k == 1 {
        color / 256 % 256
    } else {
        color % 256
    }
}

/// Those of the first `n` pixels that are seen and have this color.
pub open spec fn pixels_of(pixels: Seq<u8>, color: int, n: int) -> Set<int> {
    Set::new(|i: int| 0 <= i < n && is_seen(pixels, i) && rgb_number(pixels, i) == color)
}

/// The list has each color that is seen, ascending, with the number of its pixels.
pub open spec fn lists_colors(pixels: Seq<u8>, colors: Seq<ColorCount>) -> bool {
    &&& forall|p: int, q: int|
        #![trigger colors[p], colors[q]]
        0 <= p < q < colors.len() ==> colors[p].color < colors[q].color
    &&& forall|p: int|
        #![trigger colors[p]]
        0 <= p < colors.len() ==> colors[p].count > 0 && colors[p].count == pixels_of(
            pixels,
            colors[p].color as int,
            pixels.len() as int / 4,
        ).len()
    &&& forall|i: int|
        0 <= i < pixels.len() as int / 4 && #[trigger] is_seen(pixels, i) ==> exists|p: int|
            0 <= p < colors.len() && (#[trigger] colors[p]).color == rgb_number(pixels, i)
}

/// A color is made of the three bytes of its pixel.
pub proof fn lemma_color_number(pixels: Seq<u8>, i: int)
    ensures
        color_at(pixels, i) == rgb_number(pixels, i),
        0 <= rgb_number(pixels, i) < COLOR_SPACE,
        opaque(pixels, i) == is_seen(pixels, i),
        level(rgb_number(pixels, i), 0) == pixels[4 * i],
        level(rgb_number(pixels, i), 1) == pixels[4 * i + 1],
        level(rgb_number(pixels, i), 2) == pixels[4 * i + 2],
{
    lemma_packed_channels(
        pixels[4 * i] as int,
        pixels[4 * i + 1] as int,
        pixels[4 * i + 2] as int,
    );
}

pub proof fn lemma_level_is_channel(color: u32, k: int)
    requires
        color < COLOR_SPACE,
        0 <= k < 3,
    ensures
        level(color as int, k) == channel(color, k),
        0 <= channel(color, k) < 256,
{
}

proof fn lemma_pixels_of(pixels: Seq<u8>, color: u32, n: nat)
    ensures
        pixels_of(pixels, color as int, n as int).finite(),
        pixels_of(pixels, color as int, n as int).len() == occurrences(pixels, color, n),
    decreases n,
{
    let all = pixels_of(pixels, color as int, n as int);
    if n == 0 {
        assert(all =~= Set::empty());
    } else {
        lemma_pixels_of(pixels, color, (n - 1) as nat);
        lemma_color_number(pixels, n - 1);
        let rest = pixels_of(pixels, color as int, n - 1);
        if opaque(pixels, n - 1) && color_at(pixels, n - 1) == color {
            assert(all =~= rest.insert(n - 1));
        } else {
            assert(all =~= rest);
        }
    }
}

/// A color that was counted belongs to a pixel.
proof fn lemma_counted_pixel(pixels: Seq<u8>, color: u32, n: nat) -> (i: int)
    requires
        occurrences(pixels, color, n) > 0,
    ensures
        0 <= i < n,
        opaque(pixels, i),
        color_at(pixels, i) == color,
    decreases n,
{
    if opaque(pixels, n - 1) && color_at(pixels, n - 1) == color {
        n - 1
    } else {
        lemma_counted_pixel(pixels, color, (n - 1) as nat)
    }
}

/// There is one such list, and quantization starts from it.
proof fn lemma_list_is_histogram(pixels: Seq<u8>, colors: Seq<ColorCount>)
    requires
        pixels.len() <= usize::MAX,
        lists_colors(pixels, colors),
    ensures
        colors == histogram(pixels),
{
    let total = pixel_total(pixels);
    assert forall|p: int|
        #![trigger colors[p]]
        0 <= p < colors.len() implies colors[p].color < COLOR_SPACE && colors[p].count == tally(
        pixels,
        colors[p].color,
    ) && colors[p].count > 0 by {
        lemma_pixels_of(pixels, colors[p].color, total);
        lemma_color_in_space(pixels, colors[p].color, total);
    }
    assert forall|color: u32| #[trigger] tally(pixels, color) > 0 implies exists|p: int|
        0 <= p < colors.len() && (#[trigger] colors[p]).color == color by {
        let i = lemma_counted_pixel(pixels, color, total);
        lemma_color_number(pixels, i);
        assert(is_seen(pixels, i));
        let p = choose|p: int|
            0 <= p < colors.len() && (#[trigger] colors[p]).color == rgb_number(pixels, i);
        assert(colors[p].color == color);
    }
    assert(counts_image(colors, pixels));
    let k = lemma_ascending_below(pixels, colors, COLOR_SPACE as nat);
    if k < colors.len() {
        assert(colors[k].color < COLOR_SPACE);
    }
    assert(colors.take(k) =~= colors);
}

/// There is such a list of every image.
pub proof fn law_every_image_has_a_color_list(pixels: Seq<u8>)
    requires
        pixels.len() <= usize::MAX,
    ensures
        lists_colors(pixels, histogram(pixels)),
{
    let colors = histogram(pixels);
    let total = pixel_total(pixels);
    lemma_histogram_below(pixels, COLOR_SPACE as nat);
    assert forall|p: int|
        #![trigger colors[p]]
        0 <= p < colors.len() implies colors[p].count > 0 && colors[p].count == pixels_of(
        pixels,
        colors[p].color as int,
        pixels.len() as int / 4,
    ).len() by {
        lemma_pixels_of(pixels, colors[p].color, total);
    }
    assert forall|i: int|
        0 <= i < pixels.len() as int / 4 && #[trigger] is_seen(pixels, i) implies exists|p: int|
        0 <= p < colors.len() && (#[trigger] colors[p]).color == rgb_number(pixels, i) by {
        lemma_color_number(pixels, i);
        lemma_pixel_counted(pixels, i, total);
        let color = color_at(pixels, i);
        assert(tally(pixels, color) > 0);
        let p = choose|p: int| 0 <= p < colors.len() && (#[trigger] colors[p]).color == color;
        assert(colors[p].color == rgb_number(pixels, i));
    }
}

/// A color in box `c` has index `c`.
proof fn lemma_index_is_box(pixels: Seq<u8>, c: int, p: int)
    requires
        pixels.len() <= usize::MAX,
        0 <= c < grouped(pixels).1.len(),
        grouped(pixels).1[c].0 <= p < grouped(pixels).1[c].1,
    ensures
        index_of(pixels).contains_key(grouped(pixels).0[p].color),
        index_of(pixels)[grouped(pixels).0[p].color] == c,
{
    let (colors, boxes) = grouped(pixels);
    lemma_grouped(pixels);
    let color = colors[p].color;
    assert(colors[p].count > 0);
    assert(tally(pixels, color) > 0);
    lemma_color_grouped(pixels, color);
    let g = group_of(pixels, color);
    let q = choose|q: int| boxes[g].0 <= q < boxes[g].1 && (#[trigger] colors[q]).color == color;
    assert(boxes[g].1 <= colors.len() && boxes[c].1 <= colors.len());
    if q < p {
        assert(colors[q].color != colors[p].color);
    } else if p < q {
        assert(colors[p].color != colors[q].color);
    }
    if g != c {
        assert(boxes[c].1 <= boxes[g].0 || boxes[g].1 <= boxes[c].0);
    }
}

/// An image of at most 256 colors keeps every one of them: the palette is its colors in ascending
/// order, and the index of each is its place there; nothing else has an index.
pub proof fn law_up_to_256_colors_are_the_palette(pixels: Seq<u8>, colors: Seq<ColorCount>)
    requires
        pixels.len() <= usize::MAX,
        lists_colors(pixels, colors),
        colors.len() <= 256,
    ensures
        palette_of(pixels).len() == colors.len(),
        forall|p: int|
            #![trigger colors[p]]
            0 <= p < colors.len() ==> palette_of(pixels)[p] == colors[p].color && index_of(
                pixels,
            ).contains_key(colors[p].color) && index_of(pixels)[colors[p].color] == p,
        forall|color: u32| #[trigger]
            index_of(pixels).contains_key(color) ==> exists|p: int|
                0 <= p < colors.len() && (#[trigger] colors[p]).color == color,
{
    lemma_list_is_histogram(pixels, colors);
    lemma_histogram_counts(pixels);
    assert forall|p: int|
        #![trigger colors[p]]
        0 <= p < colors.len() implies palette_of(pixels)[p] == colors[p].color && index_of(
        pixels,
    ).contains_key(colors[p].color) && index_of(pixels)[colors[p].color] == p by {
        lemma_mean_of_one(colors, p);
        assert(grouped(pixels).1[p] == (p as usize, (p + 1) as usize));
        lemma_index_is_box(pixels, p, p);
    }
}

/// The number of pixels that the entries from `a` to `b` count.
pub open spec fn count_sum(colors: Seq<ColorCount>, a: int, b: int) -> int
    decreases b - a,
{
    if a >= b {
        0
    } else {
        colors[a].count + count_sum(colors, a + 1, b)
    }
}

proof fn lemma_count_sum_is_weight(colors: Seq<ColorCount>, a: int, b: int)
    ensures
        count_sum(colors, a, b) == weight(colors, a, b),
    decreases b - a,
{
    if a < b {
        lemma_count_sum_is_weight(colors, a + 1, b);
        lemma_weight_splits(colors, a, a + 1, b);
        reveal_with_fuel(weight, 2);
    }
}

/// No two entries of the box are further apart than `d` in this byte.
pub open spec fn stays_within(
    colors: Seq<ColorCount>,
    bounds: (usize, usize),
    k: int,
    d: int,
) -> bool {
    forall|p: int, q: int|
        #![trigger colors[p], colors[q]]
        bounds.0 <= p < bounds.1 && bounds.0 <= q < bounds.1 ==> level(colors[p].color as int, k)
            - level(colors[q].color as int, k) <= d
}

/// Some two entries of the box are `d` apart in this byte.
pub open spec fn reaches(
    colors: Seq<ColorCount>,
    bounds: (usize, usize),
    k: int,
    d: int,
) -> bool {
    exists|p: int, q: int|
        #![trigger colors[p], colors[q]]
        bounds.0 <= p < bounds.1 && bounds.0 <= q < bounds.1 && level(colors[p].color as int, k)
            - level(colors[q].color as int, k) == d
}

/// Byte `k` of box `b` has its colors the furthest apart of all boxes and bytes, and is the first
/// that has.
pub open spec fn is_first_widest(
    colors: Seq<ColorCount>,
    boxes: Seq<(usize, usize)>,
    b: int,
    k: int,
    d: int,
) -> bool {
    &&& 0 <= b < boxes.len()
    &&& 0 <= k < 3
    &&& d > 0
    &&& reaches(colors, boxes[b], k, d)
    &&& forall|c: int, j: int|
        0 <= c < boxes.len() && 0 <= j < 3 ==> #[trigger] is_no_wider(colors, boxes, b, k, d, c, j)
}

/// Byte `j` of box `c` stays within `d`, and below it if it comes before byte `k` of box `b`.
pub open spec fn is_no_wider(
    colors: Seq<ColorCount>,
    boxes: Seq<(usize, usize)>,
    b: int,
    k: int,
    d: int,
    c: int,
    j: int,
) -> bool {
    if c < b || c == b && j < k {
        stays_within(colors, boxes[c], j, d - 1)
    } else {
        stays_within(colors, boxes[c], j, d)
    }
}

/// The entries of a box in order of one byte, then of the whole color; all others as they were.
pub open spec fn is_sorted_box(
    before: Seq<ColorCount>,
    after: Seq<ColorCount>,
    bounds: (usize, usize),
    k: int,
) -> bool {
    let (start, end) = (bounds.0 as int, bounds.1 as int);
    &&& after.len() == before.len()
    &&& after.subrange(start, end).to_multiset() == before.subrange(start, end).to_multiset()
    &&& forall|p: int|
        #![trigger after[p]]
        0 <= p < after.len() && !(start <= p < end) ==> after[p] == before[p]
    &&& forall|p: int, q: int|
        #![trigger after[p], after[q]]
        start <= p < q < end ==> level(after[p].color as int, k) < level(after[q].color as int, k)
            || level(after[p].color as int, k) == level(after[q].color as int, k) && after[p].color
            < after[q].color
}

/// `middle` cuts a box where half of its pixels are reached: what stands before the cut without
/// its last entry has less than half of them, and what stands before the cut has at least half,
/// or leaves one entry only.
pub open spec fn halves(colors: Seq<ColorCount>, start: int, end: int, middle: int) -> bool {
    &&& start < middle < end
    &&& 2 * count_sum(colors, start, middle - 1) < count_sum(colors, start, end)
    &&& 2 * count_sum(colors, start, middle) >= count_sum(colors, start, end) || middle == end - 1
}

/// A box is cut at its weighted median.
pub proof fn law_boxes_are_cut_at_the_weighted_median(
    colors: Seq<ColorCount>,
    start: int,
    end: int,
)
    requires
        start + 1 < end,
        forall|p: int| #![trigger colors[p]] start <= p < end ==> colors[p].count > 0,
    ensures
        halves(colors, start, end, split_place(colors, start, end)),
{
    lemma_weighted_median_exists(colors, start, end, start + 1);
    let i = choose|i: int| is_weighted_median(colors, start, end, i);
    let middle = split_place(colors, start, end);
    lemma_count_sum_is_weight(colors, start, end);
    lemma_count_sum_is_weight(colors, start, middle);
    lemma_count_sum_is_weight(colors, start, middle - 1);
    assert(is_weighted_median(colors, start, end, i));
    lemma_weight_splits(colors, start, end - 1, end);
    reveal_with_fuel(weight, 2);
    assert(colors[end - 1].count > 0);
    assert(weight(colors, start, end) > 0);
    if middle - 1 > start {
        assert(2 * weight(colors, start, middle - 1) < weight(colors, start, end));
    }
}

/// The colors in their current order, and the boxes: ranges of them.
pub type Cutting = (Seq<ColorCount>, Seq<(usize, usize)>);

/// One cut: the box whose colors are the furthest apart in some byte is sorted by that byte and
/// cut where half of its pixels are reached; its first part takes its place and the second comes
/// last.
pub open spec fn is_cut(before: Cutting, after: Cutting, b: int, k: int, middle: usize) -> bool {
    let (start, end) = before.1[b];
    &&& exists|d: int| #[trigger] is_first_widest(before.0, before.1, b, k, d)
    &&& is_sorted_box(before.0, after.0, before.1[b], k)
    &&& halves(after.0, start as int, end as int, middle as int)
    &&& after.1 == before.1.update(b, (start, middle)).push((middle, end))
}

/// One follows from the other by one cut.
pub open spec fn cut_follows(before: Cutting, after: Cutting) -> bool {
    exists|b: int, k: int, middle: usize| is_cut(before, after, b, k, middle)
}

/// The spread of a byte is the distance of its furthest entries.
proof fn lemma_spread_is_distance(
    colors: Seq<ColorCount>,
    bounds: (usize, usize),
    k: int,
)
    requires
        bounds.0 < bounds.1 <= colors.len(),
        0 <= k < 3,
        forall|p: int| #![trigger colors[p]] 0 <= p < colors.len() ==> colors[p].color < COLOR_SPACE,
    ensures
        stays_within(colors, bounds, k, spread(colors, bounds.0 as int, bounds.1 as int, k)),
        reaches(colors, bounds, k, spread(colors, bounds.0 as int, bounds.1 as int, k)),
{
    let (start, end) = (bounds.0 as int, bounds.1 as int);
    let d = spread(colors, start, end, k);
    assert forall|p: int, q: int|
        #![trigger colors[p], colors[q]]
        bounds.0 <= p < bounds.1 && bounds.0 <= q < bounds.1 implies level(
        colors[p].color as int,
        k,
    ) - level(colors[q].color as int, k) <= d by {
        lemma_channel_within(colors, start, end, k, p);
        lemma_channel_within(colors, start, end, k, q);
        lemma_level_is_channel(colors[p].color, k);
        lemma_level_is_channel(colors[q].color, k);
    }
    let p = lemma_top_is_taken(colors, start, end, k);
    let q = lemma_bottom_is_taken(colors, start, end, k);
    lemma_level_is_channel(colors[p].color, k);
    lemma_level_is_channel(colors[q].color, k);
    assert(level(colors[p].color as int, k) - level(colors[q].color as int, k) == d);
}

proof fn lemma_top_is_taken(colors: Seq<ColorCount>, start: int, end: int, k: int) -> (p: int)
    requires
        start < end,
        0 <= k < 3,
    ensures
        start <= p < end,
        channel(colors[p].color, k) == channel_top(colors, start, end, k),
    decreases end - start,
{
    reveal_with_fuel(channel_top, 2);
    if end == start + 1 {
        start
    } else {
        let p = lemma_top_is_taken(colors, start, end - 1, k);
        if channel(colors[end - 1].color, k) > channel(colors[p].color, k) {
            end - 1
        } else {
            p
        }
    }
}

proof fn lemma_bottom_is_taken(colors: Seq<ColorCount>, start: int, end: int, k: int) -> (p: int)
    requires
        start < end,
        0 <= k < 3,
    ensures
        start <= p < end,
        channel(colors[p].color, k) == channel_bottom(colors, start, end, k),
    decreases end - start,
{
    reveal_with_fuel(channel_bottom, 2);
    if end == start + 1 {
        start
    } else {
        let p = lemma_bottom_is_taken(colors, start, end - 1, k);
        if channel(colors[end - 1].color, k) < channel(colors[p].color, k) {
            end - 1
        } else {
            p
        }
    }
}

/// The widest candidate is the first widest byte of a box.
proof fn lemma_widest_is_first(
    pixels: Seq<u8>,
    colors: Seq<ColorCount>,
    boxes: Seq<(usize, usize)>,
    n: int,
)
    requires
        counts_image(colors, pixels),
        partitions(boxes, colors.len() as int),
        is_widest(colors, boxes, n),
    ensures
        is_first_widest(colors, boxes, n / 3, n % 3, candidate_spread(colors, boxes, n)),
{
    let d = candidate_spread(colors, boxes, n);
    let (b, k) = (n / 3, n % 3);
    assert(boxes[b].0 < boxes[b].1 <= colors.len());
    lemma_spread_is_distance(colors, boxes[b], k);
    assert forall|c: int, j: int| 0 <= c < boxes.len() && 0 <= j < 3 implies #[trigger] is_no_wider(
        colors,
        boxes,
        b,
        k,
        d,
        c,
        j,
    ) by {
        let m = 3 * c + j;
        assert(m / 3 == c && m % 3 == j);
        assert(boxes[c].0 < boxes[c].1 <= colors.len());
        lemma_spread_is_distance(colors, boxes[c], j);
        let e = spread(colors, boxes[c].0 as int, boxes[c].1 as int, j);
        assert(candidate_spread(colors, boxes, m) == e);
        if m < n {
            assert(e <= d - 1);
        } else {
            assert(e <= d);
        }
        assert(m < n <==> c < b || c == b && j < k);
    }
}

/// Sorting a box as quantization does sorts it.
proof fn lemma_sort_span_sorts(
    pixels: Seq<u8>,
    colors: Seq<ColorCount>,
    bounds: (usize, usize),
    k: int,
)
    requires
        counts_image(colors, pixels),
        distinct_colors(colors),
        bounds.0 <= bounds.1 <= colors.len(),
        0 <= k < 3,
    ensures
        is_sorted_box(
            colors,
            sort_span(colors, bounds.0 as int, bounds.1 as int, k),
            bounds,
            k,
        ),
{
    let (start, end) = (bounds.0 as int, bounds.1 as int);
    let sorted = sort_span(colors, start, end, k);
    let leq = channel_order(k);
    lemma_sort_span_counts(pixels, colors, start, end, k);
    lemma_channel_order_total(k);
    let span = colors.subrange(start, end);
    span.lemma_sort_by_ensures(leq);
    vstd::seq_lib::to_multiset_len(span);
    vstd::seq_lib::to_multiset_len(span.sort_by(leq));
    let run = sorted.subrange(start, end);
    assert(run =~= span.sort_by(leq));
    assert forall|p: int, q: int|
        #![trigger sorted[p], sorted[q]]
        start <= p < q < end implies level(sorted[p].color as int, k) < level(
        sorted[q].color as int,
        k,
    ) || level(sorted[p].color as int, k) == level(sorted[q].color as int, k) && sorted[p].color
        < sorted[q].color by {
        assert(leq(run[p - start], run[q - start]));
        assert(sorted[p].color != sorted[q].color);
        assert(sorted[p].count > 0 && sorted[q].count > 0);
        lemma_level_is_channel(sorted[p].color, k);
        lemma_level_is_channel(sorted[q].color, k);
    }
}

/// Quantization goes from one state to the next by one cut, until there are 256 boxes.
proof fn lemma_cuts(
    pixels: Seq<u8>,
    colors: Seq<ColorCount>,
    boxes: Seq<(usize, usize)>,
) -> (states: Seq<Cutting>)
    requires
        counts_image(colors, pixels),
        distinct_colors(colors),
        partitions(boxes, colors.len() as int),
        boxes.len() <= MAX_PALETTE <= colors.len() <= usize::MAX,
    ensures
        states.len() == MAX_PALETTE - boxes.len() + 1,
        states[0] == (colors, boxes),
        states.last() == median_cut(colors, boxes),
        forall|i: int| 0 <= i < states.len() - 1 ==> #[trigger] cut_follows(states[i], states[i + 1]),
    decreases MAX_PALETTE - boxes.len(),
{
    if boxes.len() >= MAX_PALETTE {
        seq![(colors, boxes)]
    } else {
        lemma_widest_exists(pixels, colors, boxes);
        let n = choose|n: int| is_widest(colors, boxes, n);
        let (b, k) = (n / 3, n % 3);
        let (start, end) = boxes[b];
        assert(start < end <= colors.len());
        if end - start < 2 {
            lemma_spread_of_one(colors, start as int, end as int, k);
        }
        lemma_widest_is_first(pixels, colors, boxes, n);
        lemma_sort_span_sorts(pixels, colors, boxes[b], k);
        lemma_sort_span_counts(pixels, colors, start as int, end as int, k);
        let sorted = sort_span(colors, start as int, end as int, k);
        assert forall|p: int| #![trigger sorted[p]] start <= p < end implies sorted[p].count > 0 by {
        }
        law_boxes_are_cut_at_the_weighted_median(sorted, start as int, end as int);
        let middle = split_place(sorted, start as int, end as int) as usize;
        lemma_split_partitions(boxes, colors.len() as int, b, middle);
        let parts = boxes.update(b, (start, middle)).push((middle, end));
        assert(is_first_widest(colors, boxes, b, k, candidate_spread(colors, boxes, n)));
        assert(is_cut((colors, boxes), (sorted, parts), b, k, middle));
        let rest = lemma_cuts(pixels, sorted, parts);
        let states = seq![(colors, boxes)] + rest;
        assert forall|i: int| 0 <= i < states.len() - 1 implies #[trigger] cut_follows(
            states[i],
            states[i + 1],
        ) by {
            if i > 0 {
                assert(cut_follows(rest[i - 1], rest[i - 1 + 1]));
            }
        }
        states
    }
}

/// An image of more than 256 colors is quantized by 255 cuts, from one box with all of its colors
/// to 256 boxes. Put in order, the boxes are the palette's entries: each color's index is that of
/// its box.
pub proof fn law_more_colors_are_cut_into_256_boxes(
    pixels: Seq<u8>,
    colors: Seq<ColorCount>,
) -> (result: (Seq<Cutting>, Seq<(usize, usize)>))
    requires
        pixels.len() <= usize::MAX,
        lists_colors(pixels, colors),
        colors.len() > 256,
    ensures
        ({
            let (states, ordered) = result;
            let (last, boxes) = states[255];
            &&& states.len() == 256
            &&& states[0] == (colors, seq![(0usize, colors.len() as usize)])
            &&& forall|i: int| 0 <= i < 255 ==> #[trigger] cut_follows(states[i], states[i + 1])
            &&& ordered.to_multiset() == boxes.to_multiset()
            &&& ordered.len() == 256
            &&& palette_of(pixels).len() == 256
            &&& forall|c: int, e: int|
                #![trigger ordered[c], ordered[e]]
                0 <= c < e < 256 ==> ordered[c].1 <= ordered[e].0
            &&& forall|c: int, p: int|
                #![trigger ordered[c], last[p]]
                0 <= c < 256 && ordered[c].0 <= p < ordered[c].1 ==> index_of(pixels).contains_key(
                    last[p].color,
                ) && index_of(pixels)[last[p].color] == c
        }),
{
    lemma_list_is_histogram(pixels, colors);
    lemma_histogram_counts(pixels);
    lemma_color_list_fits(pixels, colors);
    let first = seq![(0usize, colors.len() as usize)];
    assert forall|p: int| 0 <= p < colors.len() implies #[trigger] covered(first, p) by {
        assert(first[0].0 <= p < first[0].1);
    }
    let states = lemma_cuts(pixels, colors, first);
    let (last, boxes) = states[255];
    let ordered = grouped(pixels).1;
    assert((last, boxes) == median_cut(colors, first));
    assert(ordered == boxes.sort_by(box_order()));
    lemma_grouped(pixels);
    boxes.lemma_sort_by_ensures(box_order());
    vstd::seq_lib::to_multiset_len(boxes);
    vstd::seq_lib::to_multiset_len(ordered);
    law_many_colors_fill_the_palette(pixels);
    assert forall|c: int, e: int|
        #![trigger ordered[c], ordered[e]]
        0 <= c < e < 256 implies ordered[c].1 <= ordered[e].0 by {
        let leq = box_order();
        assert(leq(ordered[c], ordered[e]));
        assert(ordered[c].1 <= ordered[e].0 || ordered[e].1 <= ordered[c].0);
        assert(ordered[c].0 < ordered[c].1 && ordered[e].0 < ordered[e].1);
    }
    assert forall|c: int, p: int|
        #![trigger ordered[c], last[p]]
        0 <= c < 256 && ordered[c].0 <= p < ordered[c].1 implies index_of(pixels).contains_key(
        last[p].color,
    ) && index_of(pixels)[last[p].color] == c by {
        lemma_index_is_box(pixels, c, p);
    }
    (states, ordered)
}

/// How many of the first `n` pixels are seen and have palette index `c`.
pub open spec fn index_count(pixels: Seq<u8>, index: Map<u32, u16>, c: int, n: nat) -> int
    decreases n,
{
    if n == 0 {
        0
    } else {
        index_count(pixels, index, c, (n - 1) as nat) + if is_seen(pixels, n - 1)
            && index[rgb_number(pixels, n - 1) as u32] == c {
            1int
        } else {
            0int
        }
    }
}

/// The sum of byte `k` over those pixels.
pub open spec fn index_total(
    pixels: Seq<u8>,
    index: Map<u32, u16>,
    c: int,
    k: int,
    n: nat,
) -> int
    decreases n,
{
    if n == 0 {
        0
    } else {
        index_total(pixels, index, c, k, (n - 1) as nat) + if is_seen(pixels, n - 1)
            && index[rgb_number(pixels, n - 1) as u32] == c {
            pixels[4 * (n - 1) + k] as int
        } else {
            0int
        }
    }
}

/// The occurrences of the colors of a box among the first `n` pixels.
spec fn box_count(pixels: Seq<u8>, colors: Seq<ColorCount>, start: int, end: int, n: nat) -> int
    decreases end - start,
{
    if end <= start {
        0
    } else {
        box_count(pixels, colors, start, end - 1, n) + occurrences(
            pixels,
            colors[end - 1].color,
            n,
        )
    }
}

spec fn box_total(
    pixels: Seq<u8>,
    colors: Seq<ColorCount>,
    start: int,
    end: int,
    k: int,
    n: nat,
) -> int
    decreases end - start,
{
    if end <= start {
        0
    } else {
        box_total(pixels, colors, start, end - 1, k, n) + channel(colors[end - 1].color, k)
            * occurrences(pixels, colors[end - 1].color, n)
    }
}

/// The box has this color.
spec fn box_has(colors: Seq<ColorCount>, start: int, end: int, color: u32) -> bool {
    exists|p: int| start <= p < end && (#[trigger] colors[p]).color == color
}

proof fn lemma_box_step(
    pixels: Seq<u8>,
    colors: Seq<ColorCount>,
    start: int,
    end: int,
    k: int,
    n: nat,
)
    requires
        distinct_colors(colors),
        0 <= start,
        end <= colors.len(),
        n > 0,
    ensures
        ({
            let color = color_at(pixels, n - 1);
            let hit = opaque(pixels, n - 1) && box_has(colors, start, end, color);
            &&& box_count(pixels, colors, start, end, n) == box_count(
                pixels,
                colors,
                start,
                end,
                (n - 1) as nat,
            ) + if hit {
                1int
            } else {
                0int
            }
            &&& box_total(pixels, colors, start, end, k, n) == box_total(
                pixels,
                colors,
                start,
                end,
                k,
                (n - 1) as nat,
            ) + if hit {
                channel(color, k)
            } else {
                0int
            }
        }),
    decreases end - start,
{
    if end > start {
        let color = color_at(pixels, n - 1);
        lemma_box_step(pixels, colors, start, end - 1, k, n);
        let last = colors[end - 1].color;
        let before = occurrences(pixels, last, (n - 1) as nat) as int;
        let value = channel(last, k);
        assert(value * (before + 1) == value * before + value) by (nonlinear_arith);
        if last == color {
            assert(box_has(colors, start, end, color));
            assert(!box_has(colors, start, end - 1, color)) by {
                if box_has(colors, start, end - 1, color) {
                    let p = choose|p: int|
                        start <= p < end - 1 && (#[trigger] colors[p]).color == color;
                    assert(colors[p].color != colors[end - 1].color);
                }
            }
        } else {
            if box_has(colors, start, end, color) {
                let p = choose|p: int| start <= p < end && (#[trigger] colors[p]).color == color;
                assert(box_has(colors, start, end - 1, color));
            }
            if box_has(colors, start, end - 1, color) {
                let p = choose|p: int|
                    start <= p < end - 1 && (#[trigger] colors[p]).color == color;
                assert(box_has(colors, start, end, color));
            }
        }
    }
}

proof fn lemma_box_counts(
    pixels: Seq<u8>,
    colors: Seq<ColorCount>,
    start: int,
    end: int,
    k: int,
)
    requires
        counts_image(colors, pixels),
        0 <= start,
        end <= colors.len(),
    ensures
        box_count(pixels, colors, start, end, pixel_total(pixels)) == weight(colors, start, end),
        box_total(pixels, colors, start, end, k, pixel_total(pixels)) == channel_sum(
            colors,
            start,
            end,
            k,
        ),
    decreases end - start,
{
    if end > start {
        lemma_box_counts(pixels, colors, start, end - 1, k);
        assert(colors[end - 1].count == tally(pixels, colors[end - 1].color));
    }
}

/// A seen pixel has index `c` exactly if box `c` has its color.
proof fn lemma_index_means_box(pixels: Seq<u8>, c: int, i: int)
    requires
        pixels.len() <= usize::MAX,
        0 <= c < grouped(pixels).1.len(),
        0 <= i < pixel_total(pixels),
        opaque(pixels, i),
    ensures
        ({
            let (colors, boxes) = grouped(pixels);
            index_of(pixels)[color_at(pixels, i)] == c <==> box_has(
                colors,
                boxes[c].0 as int,
                boxes[c].1 as int,
                color_at(pixels, i),
            )
        }),
{
    let (colors, boxes) = grouped(pixels);
    let color = color_at(pixels, i);
    lemma_grouped(pixels);
    lemma_pixel_counted(pixels, i, pixel_total(pixels));
    assert(tally(pixels, color) > 0);
    lemma_color_grouped(pixels, color);
    let g = group_of(pixels, color);
    assert(holds_color(colors, boxes[g], color));
    let q = choose|q: int| boxes[g].0 <= q < boxes[g].1 && (#[trigger] colors[q]).color == color;
    lemma_index_is_box(pixels, g, q);
    if box_has(colors, boxes[c].0 as int, boxes[c].1 as int, color) {
        let p = choose|p: int|
            boxes[c].0 <= p < boxes[c].1 && (#[trigger] colors[p]).color == color;
        lemma_index_is_box(pixels, c, p);
    }
}

proof fn lemma_index_sums(pixels: Seq<u8>, c: int, k: int, n: nat)
    requires
        pixels.len() <= usize::MAX,
        0 <= c < grouped(pixels).1.len(),
        0 <= k < 3,
        n <= pixel_total(pixels),
    ensures
        ({
            let (colors, boxes) = grouped(pixels);
            let (start, end) = (boxes[c].0 as int, boxes[c].1 as int);
            &&& index_count(pixels, index_of(pixels), c, n) == box_count(
                pixels,
                colors,
                start,
                end,
                n,
            )
            &&& index_total(pixels, index_of(pixels), c, k, n) == box_total(
                pixels,
                colors,
                start,
                end,
                k,
                n,
            )
        }),
    decreases n,
{
    let (colors, boxes) = grouped(pixels);
    let (start, end) = (boxes[c].0 as int, boxes[c].1 as int);
    lemma_grouped(pixels);
    assert(boxes[c].1 <= colors.len());
    if n == 0 {
        lemma_box_of_nothing(pixels, colors, start, end, k);
    } else {
        lemma_index_sums(pixels, c, k, (n - 1) as nat);
        lemma_box_step(pixels, colors, start, end, k, n);
        lemma_color_number(pixels, n - 1);
        lemma_level_is_channel(color_at(pixels, n - 1), k);
        if opaque(pixels, n - 1) {
            lemma_index_means_box(pixels, c, n - 1);
        }
    }
}

proof fn lemma_box_of_nothing(
    pixels: Seq<u8>,
    colors: Seq<ColorCount>,
    start: int,
    end: int,
    k: int,
)
    ensures
        box_count(pixels, colors, start, end, 0) == 0,
        box_total(pixels, colors, start, end, k, 0) == 0,
    decreases end - start,
{
    if end > start {
        lemma_box_of_nothing(pixels, colors, start, end - 1, k);
        assert(channel(colors[end - 1].color, k) * 0 == 0);
    }
}

/// Each palette entry is the mean, rounded down, of the seen pixels of the image that have its
/// index: in red, green and blue. Every entry has such pixels.
pub proof fn law_palette_entries_are_the_means_of_their_pixels(pixels: Seq<u8>, c: int, k: int)
    requires
        pixels.len() <= usize::MAX,
        0 <= c < palette_of(pixels).len(),
        0 <= k < 3,
    ensures
        ({
            let n = (pixels.len() / 4) as nat;
            let count = index_count(pixels, index_of(pixels), c, n);
            let total = index_total(pixels, index_of(pixels), c, k, n);
            let mean = level(palette_of(pixels)[c] as int, k);
            &&& palette_of(pixels)[c] < 0x1000000
            &&& count > 0
            &&& mean * count <= total < (mean + 1) * count
        }),
{
    let (colors, boxes) = grouped(pixels);
    let (start, end) = (boxes[c].0 as int, boxes[c].1 as int);
    lemma_grouped(pixels);
    lemma_index_sums(pixels, c, k, pixel_total(pixels));
    lemma_box_counts(pixels, colors, start, end, k);
    let count = weight(colors, start, end) as int;
    assert(colors[end - 1].count > 0);
    lemma_channel_mean_within(colors, start, end, 0);
    lemma_channel_mean_within(colors, start, end, 1);
    lemma_channel_mean_within(colors, start, end, 2);
    lemma_packed_channels(
        channel_sum(colors, start, end, 0) / count,
        channel_sum(colors, start, end, 1) / count,
        channel_sum(colors, start, end, 2) / count,
    );
    let entry = palette_of(pixels)[c];
    assert(entry == mean_color(colors, start, end));
    lemma_level_is_channel(entry, k);
    let total = channel_sum(colors, start, end, k);
    let mean = total / count;
    assert(mean * count <= total < (mean + 1) * count) by (nonlinear_arith)
        requires
            mean == total / count,
            count > 0,
    ;
}

/// Every seen pixel has an index, the index is that of an entry, and pixels of the same color
/// have the same index.
pub proof fn law_seen_pixels_have_an_entry(pixels: Seq<u8>, i: int)
    requires
        pixels.len() <= usize::MAX,
        0 <= i,
        4 * i + 4 <= pixels.len(),
        pixels[4 * i + 3] >= 128,
    ensures
        index_of(pixels).contains_key(rgb_number(pixels, i) as u32),
        index_of(pixels)[rgb_number(pixels, i) as u32] < palette_of(pixels).len() <= 256,
{
    lemma_color_number(pixels, i);
    law_opaque_pixels_are_indexed(pixels, i);
    lemma_grouped(pixels);
}

/// A color has an index exactly if some seen pixel has that color.
pub proof fn law_only_seen_colors_have_an_index(pixels: Seq<u8>, color: u32)
    requires
        pixels.len() <= usize::MAX,
    ensures
        index_of(pixels).contains_key(color) <==> exists|i: int|
            0 <= i < pixels.len() as int / 4 && #[trigger] is_seen(pixels, i) && rgb_number(
                pixels,
                i,
            ) == color,
{
    let total = pixel_total(pixels);
    if tally(pixels, color) > 0 {
        let i = lemma_counted_pixel(pixels, color, total);
        lemma_color_number(pixels, i);
        assert(is_seen(pixels, i));
    }
    assert forall|i: int|
        0 <= i < pixels.len() as int / 4 && #[trigger] is_seen(pixels, i) && rgb_number(pixels, i)
            == color implies tally(pixels, color) > 0 by {
        lemma_color_number(pixels, i);
        lemma_pixel_counted(pixels, i, total);
    }
}

} // verus!

//! What holds of every Sixel sequence that the encoder makes.

use vstd::prelude::*;

use crate::color::channel;
use crate::quantize::{
    histogram_below, index_of, occurrences, opaque, palette_of, pixel_total, COLOR_SPACE,
};
use crate::sixel_encode::{
    band_bytes, band_count, band_height, band_row, bands_bytes, encoded_image,
    lemma_bit_weight_bound, lemma_column_mask_bound, lemma_run_length, palette_bytes,
    palette_entry_bytes, prologue_bytes, row_bytes, row_used, run_bytes, run_length,
    scaled_component, sixel_stream, BAND_ROWS,
};
use crate::text::{ascii, decimal, digits_value, law_decimal_reads_back, lemma_decimal_digits};

verus! {

/// Every byte is an ASCII character.
pub open spec fn is_ascii_bytes(bytes: Seq<u8>) -> bool {
    forall|i: int| 0 <= i < bytes.len() ==> #[trigger] bytes[i] < 128
}

/// A sequence starts with the header that keeps unpainted pixels as they are, and ends with the
/// string terminator.
pub proof fn law_stream_is_framed(pixels: Seq<u8>, width: int, height: int)
    ensures
        ascii("\x1bP0;1;0q"@).is_prefix_of(sixel_stream(pixels, width, height)),
        ascii("\x1b\\"@).is_suffix_of(sixel_stream(pixels, width, height)),
{
    reveal_strlit("\x1bP0;1;0q");
    reveal_strlit("\x1bP0;1;0q\"1;1;");
    reveal_strlit("\x1b\\");
    let stream = sixel_stream(pixels, width, height);
    let header = ascii("\x1bP0;1;0q"@);
    assert(header =~= stream.take(header.len() as int));
    let end = ascii("\x1b\\"@);
    assert(end =~= stream.skip(stream.len() - end.len()));
}

proof fn lemma_decimal_is_ascii(n: nat)
    ensures
        is_ascii_bytes(decimal(n)),
{
    lemma_decimal_digits(n);
}

proof fn lemma_row_is_ascii(row: Seq<u8>, x: int)
    requires
        0 <= x,
        forall|i: int| 0 <= i < row.len() ==> #[trigger] row[i] < 64,
    ensures
        is_ascii_bytes(row_bytes(row, x)),
    decreases row.len() - x,
{
    if x < row.len() {
        lemma_run_length(row, x);
        lemma_row_is_ascii(row, x + run_length(row, x));
        lemma_decimal_is_ascii(run_length(row, x) as nat);
        assert(row[x] < 64);
        assert(is_ascii_bytes(run_bytes(row[x], run_length(row, x))));
    }
}

proof fn lemma_band_is_ascii(
    pixels: Seq<u8>,
    index: Map<u32, u16>,
    width: int,
    top: int,
    rows: nat,
    n: nat,
)
    requires
        rows <= BAND_ROWS,
    ensures
        is_ascii_bytes(band_bytes(pixels, index, width, top, rows, n)),
    decreases n,
{
    if n > 0 {
        let color = n - 1;
        lemma_band_is_ascii(pixels, index, width, top, rows, color as nat);
        lemma_decimal_is_ascii(color as nat);
        let row = band_row(pixels, index, width, top, rows, color);
        assert forall|x: int| 0 <= x < row.len() implies #[trigger] row[x] < 64 by {
            lemma_column_mask_bound(pixels, index, width, top, x, color, rows);
            lemma_bit_weight_bound(rows);
        }
        lemma_row_is_ascii(row, 0);
    }
}

proof fn lemma_bands_are_ascii(
    pixels: Seq<u8>,
    index: Map<u32, u16>,
    colors: nat,
    width: int,
    height: int,
    n: nat,
)
    requires
        0 < height,
        n <= band_count(height),
    ensures
        is_ascii_bytes(bands_bytes(pixels, index, colors, width, height, n)),
    decreases n,
{
    if n > 0 {
        let top = (n - 1) * BAND_ROWS;
        lemma_bands_are_ascii(pixels, index, colors, width, height, (n - 1) as nat);
        lemma_band_is_ascii(pixels, index, width, top, band_height(height, top), colors);
    }
}

proof fn lemma_palette_is_ascii(palette: Seq<u32>, n: nat)
    ensures
        is_ascii_bytes(palette_bytes(palette, n)),
    decreases n,
{
    if n > 0 {
        lemma_palette_is_ascii(palette, (n - 1) as nat);
        reveal_strlit(";2;");
        lemma_decimal_is_ascii((n - 1) as nat);
        lemma_decimal_is_ascii(scaled_component(channel(palette[n - 1], 0)) as nat);
        lemma_decimal_is_ascii(scaled_component(channel(palette[n - 1], 1)) as nat);
        lemma_decimal_is_ascii(scaled_component(channel(palette[n - 1], 2)) as nat);
        assert(is_ascii_bytes(ascii(";2;"@)));
        assert(is_ascii_bytes(palette_entry_bytes((n - 1) as nat, palette[n - 1])));
    }
}

/// A sequence is plain ASCII text, whatever the pixels are.
pub proof fn law_stream_is_ascii(pixels: Seq<u8>, width: int, height: int)
    requires
        0 < width,
        0 < height,
    ensures
        is_ascii_bytes(sixel_stream(pixels, width, height)),
{
    reveal_strlit("\x1bP0;1;0q\"1;1;");
    reveal_strlit("\x1b\\");
    let palette = palette_of(pixels);
    lemma_decimal_is_ascii(width as nat);
    lemma_decimal_is_ascii(height as nat);
    lemma_palette_is_ascii(palette, palette.len());
    lemma_bands_are_ascii(
        pixels,
        index_of(pixels),
        palette.len(),
        width,
        height,
        band_count(height),
    );
    assert(is_ascii_bytes(prologue_bytes(width, height)));
}

/// Encoding gives nothing exactly when a dimension is zero or the buffer is short.
pub proof fn law_only_degenerate_input_is_empty(
    rgba: Seq<u8>,
    width: int,
    height: int,
    target_w: int,
    target_h: int,
)
    requires
        0 <= target_w,
        0 <= target_h,
    ensures
        encoded_image(rgba, width, height, target_w, target_h).len() == 0 <==> width == 0 || height
            == 0 || target_w == 0 || target_h == 0 || rgba.len() < width * height * 4,
{
    reveal_strlit("\x1b\\");
}

proof fn lemma_nothing_opaque(pixels: Seq<u8>, color: u32, n: nat)
    requires
        forall|i: int| 0 <= i < n ==> !#[trigger] opaque(pixels, i),
    ensures
        occurrences(pixels, color, n) == 0,
    decreases n,
{
    if n > 0 {
        lemma_nothing_opaque(pixels, color, (n - 1) as nat);
        assert(!opaque(pixels, n - 1));
    }
}

proof fn lemma_empty_histogram(pixels: Seq<u8>, bound: nat)
    requires
        forall|i: int| 0 <= i < pixel_total(pixels) ==> !#[trigger] opaque(pixels, i),
    ensures
        histogram_below(pixels, bound).len() == 0,
    decreases bound,
{
    if bound > 0 {
        lemma_empty_histogram(pixels, (bound - 1) as nat);
        lemma_nothing_opaque(pixels, (bound - 1) as u32, pixel_total(pixels));
    }
}

proof fn lemma_empty_bands(pixels: Seq<u8>, index: Map<u32, u16>, width: int, height: int, n: nat)
    ensures
        bands_bytes(pixels, index, 0, width, height, n) == Seq::new(
            (if n > 0 {
                (n - 1) as nat
            } else {
                0
            }),
            |i: int| 45u8,
        ),
    decreases n,
{
    if n > 0 {
        lemma_empty_bands(pixels, index, width, height, (n - 1) as nat);
    }
}

/// A fully transparent image gives a sequence with no palette and no paint: the prologue, a line
/// feed between every two bands, and the terminator.
pub proof fn law_transparent_image_paints_nothing(pixels: Seq<u8>, width: int, height: int)
    requires
        0 < height,
        forall|i: int| 0 <= i < pixel_total(pixels) ==> !#[trigger] opaque(pixels, i),
    ensures
        palette_of(pixels).len() == 0,
        sixel_stream(pixels, width, height) == prologue_bytes(width, height) + Seq::new(
            (band_count(height) - 1) as nat,
            |i: int| 45u8,
        ) + ascii("\x1b\\"@),
{
    lemma_empty_histogram(pixels, COLOR_SPACE as nat);
    lemma_empty_bands(pixels, index_of(pixels), width, height, band_count(height));
    assert(band_count(height) > 0);
    assert(sixel_stream(pixels, width, height) =~= prologue_bytes(width, height) + Seq::new(
        (band_count(height) - 1) as nat,
        |i: int| 45u8,
    ) + ascii("\x1b\\"@));
}

/// Four equal sixels stand in a row from `i` on.
pub open spec fn repeats_four_times(bytes: Seq<u8>, i: int) -> bool {
    &&& 0 <= i
    &&& i + 4 <= bytes.len()
    &&& bytes[i] >= 63
    &&& bytes[i] == bytes[i + 1]
    &&& bytes[i] == bytes[i + 2]
    &&& bytes[i] == bytes[i + 3]
}

/// Only three sixels in a row are spelled out: where more columns are alike, they are counted.
pub proof fn law_long_runs_are_counted(row: Seq<u8>, x: int, i: int)
    requires
        0 <= x,
        forall|j: int| 0 <= j < row.len() ==> #[trigger] row[j] < 64,
    ensures
        !repeats_four_times(row_bytes(row, x), i),
        x < row.len() ==> row_bytes(row, x).len() > 0 && (row_bytes(row, x)[0] == 33 || row_bytes(
            row,
            x,
        )[0] == 63 + row[x]),
    decreases row.len() - x,
{
    if x < row.len() {
        let n = run_length(row, x);
        lemma_run_length(row, x);
        let run = run_bytes(row[x], n);
        let rest = row_bytes(row, x + n);
        let all = row_bytes(row, x);
        let sixel = (63 + row[x]) as u8;
        assert(row[x] < 64);
        assert(all == run + rest);
        lemma_decimal_digits(n as nat);
        law_long_runs_are_counted(row, x + n, i - run.len());
        if repeats_four_times(all, i) {
            let m = run.len() as int;
            if i >= m {
                assert(all[i] == rest[i - m] && all[i + 1] == rest[i + 1 - m] && all[i + 2]
                    == rest[i + 2 - m] && all[i + 3] == rest[i + 3 - m]);
                assert(repeats_four_times(rest, i - m));
            } else {
                assert(all[i] == run[i]);
                if n > 3 {
                    if i < m - 1 {
                        assert(i == 0 || run[i] == decimal(n as nat)[i - 1]);
                    }
                    assert(i == m - 1);
                }
                assert(all[i] == sixel);
                if m <= i + 3 {
                    assert(all[m] == rest[0]);
                    if x + n < row.len() {
                        assert(row[x + n] != row[x]);
                        assert(rest[0] == 33 || rest[0] == 63 + row[x + n]);
                    }
                }
            }
        }
    }
}

/// A decimal digit.
pub open spec fn is_digit(byte: u8) -> bool {
    48 <= byte <= 57
}

/// Where the digits that begin at `i` end.
pub open spec fn digits_end(bytes: Seq<u8>, i: int) -> int
    decreases bytes.len() - i,
{
    if 0 <= i < bytes.len() && is_digit(bytes[i]) {
        digits_end(bytes, i + 1)
    } else {
        i
    }
}

/// At `i` a palette index is selected: a `#`, a number, and no further number behind it.
pub open spec fn selects_at(bytes: Seq<u8>, i: int) -> bool {
    &&& 0 <= i < bytes.len()
    &&& bytes[i] == 35
    &&& digits_end(bytes, i + 1) < bytes.len()
    &&& bytes[digits_end(bytes, i + 1)] != 59
}

/// The palette index that is selected at `i`.
pub open spec fn selected_at(bytes: Seq<u8>, i: int) -> int {
    digits_value(bytes.subrange(i + 1, digits_end(bytes, i + 1)))
}

/// A `-` stands between `i` and `j`.
pub open spec fn next_band_between(bytes: Seq<u8>, i: int, j: int) -> bool {
    exists|k: int| i < k < j && #[trigger] bytes[k] == 45
}

/// Within a band, indexes are selected in ascending order, none of them twice.
pub open spec fn selects_in_order(bytes: Seq<u8>) -> bool {
    forall|i: int, j: int|
        #![trigger selects_at(bytes, i), selects_at(bytes, j)]
        i < j && selects_at(bytes, i) && selects_at(bytes, j) && !next_band_between(bytes, i, j)
            ==> selected_at(bytes, i) < selected_at(bytes, j)
}

/// Every number behind a `#` ends inside.
spec fn numbers_end_inside(bytes: Seq<u8>) -> bool {
    forall|i: int|
        0 <= i < bytes.len() && #[trigger] bytes[i] == 35 ==> digits_end(bytes, i + 1)
            < bytes.len()
}

proof fn lemma_digits_end_inside(bytes: Seq<u8>, i: int)
    requires
        0 <= i <= bytes.len(),
    ensures
        i <= digits_end(bytes, i) <= bytes.len(),
        forall|j: int| i <= j < digits_end(bytes, i) ==> is_digit(#[trigger] bytes[j]),
    decreases bytes.len() - i,
{
    if i < bytes.len() && is_digit(bytes[i]) {
        lemma_digits_end_inside(bytes, i + 1);
    }
}

/// Digits that end inside the first part end there in the whole.
proof fn lemma_digits_end_left(a: Seq<u8>, b: Seq<u8>, i: int)
    requires
        0 <= i <= a.len(),
        digits_end(a, i) < a.len(),
    ensures
        digits_end(a + b, i) == digits_end(a, i),
    decreases a.len() - i,
{
    let all = a + b;
    if i < a.len() {
        assert(all[i] == a[i]);
        if is_digit(a[i]) {
            lemma_digits_end_left(a, b, i + 1);
        }
    }
}

/// Digits in the second part end where they end there.
proof fn lemma_digits_end_right(a: Seq<u8>, b: Seq<u8>, i: int)
    requires
        0 <= i <= b.len(),
    ensures
        digits_end(a + b, a.len() + i) == a.len() + digits_end(b, i),
    decreases b.len() - i,
{
    let all = a + b;
    if i < b.len() {
        assert(all[a.len() + i] == b[i]);
        if is_digit(b[i]) {
            lemma_digits_end_right(a, b, i + 1);
        }
    }
}

/// What is selected in the first part is selected in the whole.
proof fn lemma_select_left(a: Seq<u8>, b: Seq<u8>, i: int)
    requires
        numbers_end_inside(a),
        0 <= i < a.len(),
    ensures
        selects_at(a + b, i) == selects_at(a, i),
        selects_at(a, i) ==> selected_at(a + b, i) == selected_at(a, i),
{
    assert((a + b)[i] == a[i]);
    if a[i] == 35 {
        let e = digits_end(a, i + 1);
        lemma_digits_end_inside(a, i + 1);
        lemma_digits_end_left(a, b, i + 1);
        assert((a + b)[e] == a[e]);
        assert((a + b).subrange(i + 1, e) =~= a.subrange(i + 1, e));
    }
}

/// What is selected in the second part is selected in the whole.
proof fn lemma_select_right(a: Seq<u8>, b: Seq<u8>, i: int)
    requires
        0 <= i < b.len(),
    ensures
        selects_at(a + b, a.len() + i) == selects_at(b, i),
        selects_at(b, i) ==> selected_at(a + b, a.len() + i) == selected_at(b, i),
{
    assert((a + b)[a.len() + i] == b[i]);
    if b[i] == 35 {
        let e = digits_end(b, i + 1);
        lemma_digits_end_inside(b, i + 1);
        lemma_digits_end_right(a, b, i + 1);
        if e < b.len() {
            assert((a + b)[a.len() + e] == b[e]);
        }
        assert((a + b).subrange(a.len() + i + 1, a.len() + e) =~= b.subrange(i + 1, e));
    }
}

proof fn lemma_numbers_end_concat(a: Seq<u8>, b: Seq<u8>)
    requires
        numbers_end_inside(a),
        numbers_end_inside(b),
    ensures
        numbers_end_inside(a + b),
{
    let all = a + b;
    assert forall|i: int| 0 <= i < all.len() && #[trigger] all[i] == 35 implies digits_end(
        all,
        i + 1,
    ) < all.len() by {
        if i < a.len() {
            assert(a[i] == 35);
            lemma_digits_end_inside(a, i + 1);
            lemma_digits_end_left(a, b, i + 1);
        } else {
            assert(b[i - a.len()] == 35);
            lemma_digits_end_right(a, b, i - a.len() + 1);
        }
    }
}

/// Parts in order are in order together if a `-` stands at the front of the second, or if all of
/// the first part's selections lie below those of the second.
proof fn lemma_order_concat(a: Seq<u8>, b: Seq<u8>)
    requires
        numbers_end_inside(a),
        selects_in_order(a),
        selects_in_order(b),
        (b.len() > 0 && b[0] == 45) || forall|i: int, j: int|
            #![trigger selects_at(a, i), selects_at(b, j)]
            selects_at(a, i) && selects_at(b, j) ==> selected_at(a, i) < selected_at(b, j),
    ensures
        selects_in_order(a + b),
{
    let all = a + b;
    let n = a.len() as int;
    assert forall|i: int, j: int|
        #![trigger selects_at(all, i), selects_at(all, j)]
        i < j && selects_at(all, i) && selects_at(all, j) && !next_band_between(
            all,
            i,
            j,
        ) implies selected_at(all, i) < selected_at(all, j) by {
        if j < n {
            lemma_select_left(a, b, i);
            lemma_select_left(a, b, j);
            assert(!next_band_between(a, i, j)) by {
                if next_band_between(a, i, j) {
                    let k = choose|k: int| i < k < j && #[trigger] a[k] == 45;
                    assert(all[k] == 45);
                }
            }
        } else if i >= n {
            lemma_select_right(a, b, i - n);
            lemma_select_right(a, b, j - n);
            assert(!next_band_between(b, i - n, j - n)) by {
                if next_band_between(b, i - n, j - n) {
                    let k = choose|k: int| i - n < k < j - n && #[trigger] b[k] == 45;
                    assert(all[k + n] == 45);
                }
            }
        } else {
            lemma_select_left(a, b, i);
            lemma_select_right(a, b, j - n);
            if b[0] == 45 {
                assert(all[n] == 45);
                assert(j > n);
                assert(next_band_between(all, i, j));
            }
        }
    }
}

/// Without a `#` nothing is selected.
proof fn lemma_no_selects(bytes: Seq<u8>)
    requires
        forall|i: int| 0 <= i < bytes.len() ==> #[trigger] bytes[i] != 35,
    ensures
        numbers_end_inside(bytes),
        selects_in_order(bytes),
        forall|i: int| !#[trigger] selects_at(bytes, i),
{
}

/// A row has no `#` and no `-`, and does not begin with a digit.
proof fn lemma_row_selects_nothing(row: Seq<u8>, x: int)
    requires
        0 <= x,
        forall|j: int| 0 <= j < row.len() ==> #[trigger] row[j] < 64,
    ensures
        forall|i: int| 0 <= i < row_bytes(row, x).len() ==> #[trigger] row_bytes(row, x)[i] != 35,
    decreases row.len() - x,
{
    if x < row.len() {
        let n = run_length(row, x);
        lemma_run_length(row, x);
        lemma_row_selects_nothing(row, x + n);
        lemma_decimal_digits(n as nat);
        assert(row[x] < 64);
        let run = run_bytes(row[x], n);
        let rest = row_bytes(row, x + n);
        assert forall|i: int| 0 <= i < row_bytes(row, x).len() implies #[trigger] row_bytes(
            row,
            x,
        )[i] != 35 by {
            if i < run.len() {
                assert(row_bytes(row, x)[i] == run[i]);
            } else {
                assert(row_bytes(row, x)[i] == rest[i - run.len()]);
            }
        }
    }
}

/// One selection and what it paints.
proof fn lemma_one_select(c: nat, tail: Seq<u8>)
    requires
        tail.len() > 0,
        !is_digit(tail[0]),
        tail[0] != 59,
        forall|i: int| 0 <= i < tail.len() ==> #[trigger] tail[i] != 35,
    ensures
        ({
            let all = seq![35u8] + decimal(c) + tail;
            &&& numbers_end_inside(all)
            &&& selects_in_order(all)
            &&& forall|i: int| #[trigger] selects_at(all, i) ==> i == 0 && selected_at(all, i) == c
        }),
{
    let d = decimal(c);
    let head = seq![35u8] + d;
    let all = head + tail;
    law_decimal_reads_back(c);
    lemma_digits_run(all, 1, 1 + d.len() as int);
    assert(all.subrange(1, 1 + d.len() as int) =~= d);
    assert(all[1 + d.len() as int] == tail[0]);
    assert forall|i: int| 0 < i < all.len() implies #[trigger] all[i] != 35 by {
        if i < head.len() {
            assert(all[i] == d[i - 1]);
        } else {
            assert(all[i] == tail[i - head.len()]);
        }
    }
}

/// Digits up to a byte that is none end there.
proof fn lemma_digits_run(bytes: Seq<u8>, i: int, e: int)
    requires
        0 <= i <= e < bytes.len(),
        forall|j: int| i <= j < e ==> is_digit(#[trigger] bytes[j]),
        !is_digit(bytes[e]),
    ensures
        digits_end(bytes, i) == e,
    decreases e - i,
{
    if i < e {
        assert(is_digit(bytes[i]));
        lemma_digits_run(bytes, i + 1, e);
    }
}

/// The selections of a band lie below the number of indexes that were looked at.
proof fn lemma_band_selects_in_order(
    pixels: Seq<u8>,
    index: Map<u32, u16>,
    width: int,
    top: int,
    rows: nat,
    n: nat,
)
    requires
        rows <= BAND_ROWS,
    ensures
        ({
            let bytes = band_bytes(pixels, index, width, top, rows, n);
            &&& numbers_end_inside(bytes)
            &&& selects_in_order(bytes)
            &&& forall|i: int| #[trigger] selects_at(bytes, i) ==> selected_at(bytes, i) < n
        }),
    decreases n,
{
    if n > 0 {
        let m = (n - 1) as nat;
        lemma_band_selects_in_order(pixels, index, width, top, rows, m);
        let rest = band_bytes(pixels, index, width, top, rows, m);
        let row = band_row(pixels, index, width, top, rows, m as int);
        if row_used(row) {
            assert forall|x: int| 0 <= x < row.len() implies #[trigger] row[x] < 64 by {
                lemma_column_mask_bound(pixels, index, width, top, x, m as int, rows);
                lemma_bit_weight_bound(rows);
            }
            let x = choose|x: int| 0 <= x < row.len() && #[trigger] row[x] != 0;
            assert(0 < row.len());
            law_long_runs_are_counted(row, 0, 0);
            lemma_row_selects_nothing(row, 0);
            let tail = row_bytes(row, 0);
            assert(row[0] < 64);
            lemma_one_select(m, tail);
            let one = seq![35u8] + decimal(m) + tail;
            let separator = if rest.len() > 0 {
                seq![36u8]
            } else {
                Seq::<u8>::empty()
            };
            lemma_no_selects(separator);
            lemma_numbers_end_concat(rest, separator);
            lemma_order_concat(rest, separator);
            let front = rest + separator;
            assert forall|i: int| #[trigger] selects_at(front, i) implies selected_at(front, i)
                < m by {
                if i < rest.len() {
                    lemma_select_left(rest, separator, i);
                } else {
                    lemma_select_right(rest, separator, i - rest.len());
                }
            }
            lemma_numbers_end_concat(front, one);
            lemma_order_concat(front, one);
            assert(band_bytes(pixels, index, width, top, rows, n) =~= front + one);
            let all = front + one;
            assert forall|i: int| #[trigger] selects_at(all, i) implies selected_at(all, i) < n by {
                if i < front.len() {
                    lemma_select_left(front, one, i);
                } else {
                    lemma_select_right(front, one, i - front.len());
                }
            }
        }
    }
}

proof fn lemma_bands_select_in_order(
    pixels: Seq<u8>,
    index: Map<u32, u16>,
    colors: nat,
    width: int,
    height: int,
    n: nat,
)
    requires
        0 < height,
        n <= band_count(height),
    ensures
        numbers_end_inside(bands_bytes(pixels, index, colors, width, height, n)),
        selects_in_order(bands_bytes(pixels, index, colors, width, height, n)),
    decreases n,
{
    if n > 0 {
        let top = (n - 1) * BAND_ROWS;
        let rows = band_height(height, top);
        let rest = bands_bytes(pixels, index, colors, width, height, (n - 1) as nat);
        let band = band_bytes(pixels, index, width, top, rows, colors);
        lemma_bands_select_in_order(pixels, index, colors, width, height, (n - 1) as nat);
        lemma_band_selects_in_order(pixels, index, width, top, rows, colors);
        let separator = if n > 1 {
            seq![45u8]
        } else {
            Seq::<u8>::empty()
        };
        lemma_no_selects(separator);
        lemma_numbers_end_concat(separator, band);
        lemma_order_concat(separator, band);
        lemma_numbers_end_concat(rest, separator + band);
        if n == 1 {
            assert(rest =~= Seq::empty());
            lemma_no_selects(rest);
        }
        lemma_order_concat(rest, separator + band);
        assert(bands_bytes(pixels, index, colors, width, height, n) =~= rest + (separator + band));
    }
}

/// A palette definition selects nothing: a further number follows its first.
proof fn lemma_definition_selects_nothing(c: nat, color: u32)
    ensures
        numbers_end_inside(palette_entry_bytes(c, color)),
        forall|i: int| !#[trigger] selects_at(palette_entry_bytes(c, color), i),
{
    let all = palette_entry_bytes(c, color);
    let d = decimal(c);
    reveal_strlit(";2;");
    lemma_decimal_digits(c);
    lemma_decimal_digits(scaled_component(channel(color, 0)) as nat);
    lemma_decimal_digits(scaled_component(channel(color, 1)) as nat);
    lemma_decimal_digits(scaled_component(channel(color, 2)) as nat);
    let tail = ascii(";2;"@) + decimal(scaled_component(channel(color, 0)) as nat) + seq![59u8]
        + decimal(scaled_component(channel(color, 1)) as nat) + seq![59u8] + decimal(
        scaled_component(channel(color, 2)) as nat,
    );
    let head = seq![35u8] + d;
    assert(all =~= head + tail);
    assert forall|i: int| 0 < i < all.len() implies #[trigger] all[i] != 35 by {
        if i < head.len() {
            assert(all[i] == d[i - 1]);
        } else {
            assert(all[i] == tail[i - head.len()]);
            assert(tail[i - head.len()] != 35);
        }
    }
    assert(all[1 + d.len() as int] == 59);
    lemma_digits_run(all, 1, 1 + d.len() as int);
}

proof fn lemma_palette_selects_nothing(palette: Seq<u32>, n: nat)
    ensures
        numbers_end_inside(palette_bytes(palette, n)),
        forall|i: int| !#[trigger] selects_at(palette_bytes(palette, n), i),
    decreases n,
{
    if n > 0 {
        let m = (n - 1) as nat;
        lemma_palette_selects_nothing(palette, m);
        lemma_definition_selects_nothing(m, palette[m as int]);
        let rest = palette_bytes(palette, m);
        let entry = palette_entry_bytes(m, palette[m as int]);
        lemma_numbers_end_concat(rest, entry);
        assert forall|i: int| !#[trigger] selects_at(palette_bytes(palette, n), i) by {
            if 0 <= i < rest.len() {
                lemma_select_left(rest, entry, i);
            } else if rest.len() <= i < rest.len() + entry.len() {
                lemma_select_right(rest, entry, i - rest.len());
            }
        }
    }
}

/// Within each band of a sequence, the palette indexes are selected in ascending order, none of
/// them twice.
pub proof fn law_bands_select_in_ascending_order(pixels: Seq<u8>, width: int, height: int)
    requires
        0 < width,
        0 < height,
    ensures
        selects_in_order(sixel_stream(pixels, width, height)),
{
    let palette = palette_of(pixels);
    let a = prologue_bytes(width, height);
    let b = palette_bytes(palette, palette.len());
    let c = bands_bytes(
        pixels,
        index_of(pixels),
        palette.len(),
        width,
        height,
        band_count(height),
    );
    let d = ascii("\x1b\\"@);
    reveal_strlit("\x1bP0;1;0q\"1;1;");
    reveal_strlit("\x1b\\");
    lemma_decimal_digits(width as nat);
    lemma_decimal_digits(height as nat);
    lemma_no_selects(a);
    lemma_no_selects(d);
    lemma_palette_selects_nothing(palette, palette.len());
    lemma_bands_select_in_order(
        pixels,
        index_of(pixels),
        palette.len(),
        width,
        height,
        band_count(height),
    );
    lemma_numbers_end_concat(a, b);
    lemma_order_concat(a, b);
    lemma_numbers_end_concat(a + b, c);
    assert forall|i: int| !#[trigger] selects_at(a + b, i) by {
        if 0 <= i < a.len() {
            lemma_select_left(a, b, i);
        } else if a.len() <= i < a.len() + b.len() {
            lemma_select_right(a, b, i - a.len());
        }
    }
    lemma_order_concat(a + b, c);
    lemma_order_concat(a + b + c, d);
}

} // verus!

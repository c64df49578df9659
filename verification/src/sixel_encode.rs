//! Sixel encoding of RGBA pixel buffers.
//!
//! A buffer becomes one complete Sixel DCS sequence: the header, the raster attributes, the
//! palette, and the image in bands of six rows. Pixels whose alpha lies below the opaque
//! threshold are left unpainted, and the header asks the terminal to keep what is there.

use std::collections::HashMap;
use vstd::prelude::*;

use crate::color::{channel, channel_of, pack_rgb};
use crate::quantize::{
    color_at, index_of, law_opaque_pixels_are_indexed, opaque, palette_of, quantize, OPAQUE_ALPHA,
};
use crate::raster::{lemma_place_inside, rgba_len, scale_rgba_nearest, scaled, smaller};
use crate::text::{ascii, decimal, push_decimal, push_text};

verus! {

broadcast use vstd::std_specs::hash::group_hash_axioms;

/// Rows of pixels in one band.
pub const BAND_ROWS: u32 = 6;

/// The largest target dimension; larger requests are clamped to it.
pub const MAX_TARGET_DIM: u32 = 4096;

/// A channel value on the Sixel scale from 0 to 100.
pub open spec fn scaled_component(value: int) -> int {
    (value * 100 + 127) / 255
}

/// Scales a channel value from 0..=255 to 0..=100, to the nearest.
pub fn sixel_component(value: u32) -> (scaled: u32)
    requires
        value * 100 + 127 <= u32::MAX,
    ensures
        scaled == scaled_component(value as int),
        value <= 0xFF ==> scaled <= 100,
{
    (value * 100 + 127) / 255
}

/// The palette index that pixel `i` is painted with.
pub open spec fn paint_at(pixels: Seq<u8>, index: Map<u32, u16>, i: int) -> Option<u16> {
    if opaque(pixels, i) {
        Some(index[color_at(pixels, i)])
    } else {
        None
    }
}

/// The value of bit `n`.
pub open spec fn bit_weight(n: nat) -> int
    decreases n,
{
    if n == 0 {
        1
    } else {
        2 * bit_weight((n - 1) as nat)
    }
}

/// Which of the first `n` pixels of a column, going down from row `top`, have palette index
/// `color`: bit 0 stands for the topmost.
pub open spec fn column_mask(
    pixels: Seq<u8>,
    index: Map<u32, u16>,
    width: int,
    top: int,
    x: int,
    color: int,
    n: nat,
) -> int
    decreases n,
{
    if n == 0 {
        0
    } else {
        let rest = column_mask(pixels, index, width, top, x, color, (n - 1) as nat);
        if is_painted(pixels, index, (top + n - 1) * width + x, color) {
            rest + bit_weight((n - 1) as nat)
        } else {
            rest
        }
    }
}

/// Pixel `i` is painted with palette index `color`.
pub open spec fn is_painted(pixels: Seq<u8>, index: Map<u32, u16>, i: int, color: int) -> bool {
    paint_at(pixels, index, i) matches Some(c) && c == color
}

/// The number of equal values that start at `x`.
pub open spec fn run_length(row: Seq<u8>, x: int) -> int
    decreases row.len() - x,
{
    if 0 <= x && x + 1 < row.len() && row[x + 1] == row[x] {
        1 + run_length(row, x + 1)
    } else {
        1
    }
}

/// One run of a sixel: spelled out when short, counted when longer.
pub open spec fn run_bytes(value: u8, n: int) -> Seq<u8> {
    let sixel = (63 + value) as u8;
    if n > 3 {
        seq![33u8] + decimal(n as nat) + seq![sixel]
    } else {
        Seq::new(n as nat, |i: int| sixel)
    }
}

/// A run is not empty, holds one value, and is as long as it can be.
pub proof fn lemma_run_length(row: Seq<u8>, x: int)
    requires
        0 <= x < row.len(),
    ensures
        1 <= run_length(row, x) <= row.len() - x,
        forall|i: int| x <= i < x + run_length(row, x) ==> #[trigger] row[i] == row[x],
        x + run_length(row, x) < row.len() ==> row[x + run_length(row, x)] != row[x],
    decreases row.len() - x,
{
    if x + 1 < row.len() && row[x + 1] == row[x] {
        lemma_run_length(row, x + 1);
    }
}

/// The sixels of a row from column `x` on, run-length encoded.
pub open spec fn row_bytes(row: Seq<u8>, x: int) -> Seq<u8>
    decreases row.len() - x,
{
    if 0 <= x < row.len() {
        proof {
            lemma_run_length(row, x);
        }
        run_bytes(row[x], run_length(row, x)) + row_bytes(row, x + run_length(row, x))
    } else {
        Seq::empty()
    }
}

/// Appends the sixels of one row of masks.
fn push_row(out: &mut Vec<u8>, row: &Vec<u8>)
    requires
        forall|i: int| 0 <= i < row.len() ==> #[trigger] row@[i] < 64,
    ensures
        final(out)@ == old(out)@ + row_bytes(row@, 0),
{
    let ghost start = out@;
    let mut x: usize = 0;
    assert(start + row_bytes(row@, 0) =~= out@ + row_bytes(row@, 0));
    while x < row.len()
        invariant
            x <= row.len(),
            forall|i: int| 0 <= i < row.len() ==> #[trigger] row@[i] < 64,
            start + row_bytes(row@, 0) == out@ + row_bytes(row@, x as int),
        decreases row.len() - x,
    {
        let value = row[x];
        let mut run: usize = 1;
        proof {
            lemma_run_length(row@, x as int);
        }
        while x + run < row.len() && row[x + run] == value
            invariant
                x < row.len(),
                x + run <= row.len(),
                1 <= run,
                value == row@[x as int],
                row@[x + run - 1] == value,
                run_length(row@, x as int) == run - 1 + run_length(row@, x + run - 1),
            decreases row.len() - run,
        {
            run += 1;
        }
        let sixel = 63 + value;
        let ghost before = out@;
        if run > 3 {
            out.push(33);
            push_decimal(out, run as u64);
            out.push(sixel);
            assert(out@ =~= before + run_bytes(value, run as int));
        } else {
            let mut i: usize = 0;
            while i < run
                invariant
                    i <= run,
                    out@ == before + Seq::new(i as nat, |k: int| sixel),
                decreases run - i,
            {
                out.push(sixel);
                i += 1;
                assert(out@ =~= before + Seq::new(i as nat, |k: int| sixel));
            }
            assert(out@ =~= before + run_bytes(value, run as int));
        }
        proof {
            assert(before + row_bytes(row@, x as int) =~= out@ + row_bytes(row@, x + run));
        }
        x += run;
    }
    assert(out@ + row_bytes(row@, x as int) =~= out@);
}

/// The number of rows in the band that starts at row `top`.
pub open spec fn band_height(height: int, top: int) -> nat {
    if height - top < BAND_ROWS {
        (height - top) as nat
    } else {
        BAND_ROWS as nat
    }
}

/// The sixels of one palette index in the band of `rows` rows that starts at row `top`, one mask
/// for each column.
pub open spec fn band_row(
    pixels: Seq<u8>,
    index: Map<u32, u16>,
    width: int,
    top: int,
    rows: nat,
    color: int,
) -> Seq<u8> {
    Seq::new(
        width as nat,
        |x: int| column_mask(pixels, index, width, top, x, color, rows) as u8,
    )
}

/// The band paints something with this palette index.
pub open spec fn row_used(row: Seq<u8>) -> bool {
    exists|x: int| 0 <= x < row.len() && #[trigger] row[x] != 0
}

/// The sixels of the palette indexes below `n` that a band uses: each index is selected with
/// `#`, and `$` goes back to the start of the band between two of them.
pub open spec fn band_bytes(
    pixels: Seq<u8>,
    index: Map<u32, u16>,
    width: int,
    top: int,
    rows: nat,
    n: nat,
) -> Seq<u8>
    decreases n,
{
    if n == 0 {
        Seq::empty()
    } else {
        let rest = band_bytes(pixels, index, width, top, rows, (n - 1) as nat);
        let row = band_row(pixels, index, width, top, rows, n - 1);
        if row_used(row) {
            rest + (if rest.len() > 0 {
                seq![36u8]
            } else {
                Seq::empty()
            }) + seq![35u8] + decimal((n - 1) as nat) + row_bytes(row, 0)
        } else {
            rest
        }
    }
}

/// The first `n` bands, with `-` between two of them.
pub open spec fn bands_bytes(
    pixels: Seq<u8>,
    index: Map<u32, u16>,
    colors: nat,
    width: int,
    height: int,
    n: nat,
) -> Seq<u8>
    decreases n,
{
    if n == 0 {
        Seq::empty()
    } else {
        let top = (n - 1) * BAND_ROWS;
        bands_bytes(pixels, index, colors, width, height, (n - 1) as nat) + (if n > 1 {
            seq![45u8]
        } else {
            Seq::empty()
        }) + band_bytes(pixels, index, width, top, band_height(height, top), colors)
    }
}

/// The number of bands in an image.
pub open spec fn band_count(height: int) -> nat {
    ((height + BAND_ROWS - 1) / BAND_ROWS as int) as nat
}

/// The definition of palette entry `n`, on the scale from 0 to 100.
pub open spec fn palette_entry_bytes(n: nat, color: u32) -> Seq<u8> {
    seq![35u8] + decimal(n) + ascii(";2;"@) + decimal(
        scaled_component(channel(color, 0)) as nat,
    ) + seq![59u8] + decimal(scaled_component(channel(color, 1)) as nat) + seq![59u8] + decimal(
        scaled_component(channel(color, 2)) as nat,
    )
}

/// The definitions of the first `n` palette entries.
pub open spec fn palette_bytes(palette: Seq<u32>, n: nat) -> Seq<u8>
    decreases n,
{
    if n == 0 {
        Seq::empty()
    } else {
        palette_bytes(palette, (n - 1) as nat) + palette_entry_bytes(
            (n - 1) as nat,
            palette[n - 1],
        )
    }
}

/// The header and the raster attributes: zero bits keep what is there, pixels are square, and
/// the image is `width` by `height`.
pub open spec fn prologue_bytes(width: int, height: int) -> Seq<u8> {
    ascii("\x1bP0;1;0q\"1;1;"@) + decimal(width as nat) + seq![59u8] + decimal(height as nat)
}

/// The complete sequence for the first `width` by `height` pixels of a buffer.
pub open spec fn sixel_stream(pixels: Seq<u8>, width: int, height: int) -> Seq<u8> {
    let palette = palette_of(pixels);
    prologue_bytes(width, height) + palette_bytes(palette, palette.len()) + bands_bytes(
        pixels,
        index_of(pixels),
        palette.len(),
        width,
        height,
        band_count(height),
    ) + ascii("\x1b\\"@)
}

/// The mask of `n` rows has `n` bits.
pub proof fn lemma_column_mask_bound(
    pixels: Seq<u8>,
    index: Map<u32, u16>,
    width: int,
    top: int,
    x: int,
    color: int,
    n: nat,
)
    ensures
        0 <= column_mask(pixels, index, width, top, x, color, n) < bit_weight(n),
    decreases n,
{
    if n > 0 {
        lemma_column_mask_bound(pixels, index, width, top, x, color, (n - 1) as nat);
    }
}

/// The mask at column `x` of one palette index: an index that is not used yet has no row.
spec fn mask_in(masks: Seq<Vec<u8>>, color: int, x: int) -> int {
    if masks[color]@.len() == 0 {
        0
    } else {
        masks[color]@[x] as int
    }
}

/// Each row is absent or as wide as the image, and a row that is there has a bit set.
spec fn masks_shaped(masks: Seq<Vec<u8>>, width: int) -> bool {
    forall|c: int|
        #![trigger masks[c]]
        0 <= c < masks.len() ==> masks[c]@.len() == 0 || (masks[c]@.len() == width && row_used(
            masks[c]@,
        ))
}

/// The masks of each palette index in one band; an index that the band does not use has none.
fn band_masks(
    pixels: &[u8],
    index: &HashMap<u32, u16>,
    colors: usize,
    width: u32,
    height: u32,
    top: u32,
) -> (masks: Vec<Vec<u8>>)
    requires
        index@ == index_of(pixels@),
        colors == palette_of(pixels@).len(),
        top < height,
        width * height * 4 <= pixels.len(),
    ensures
        masks.len() == colors,
        forall|c: int|
            #![trigger masks@[c]]
            0 <= c < colors ==> {
                let row = band_row(
                    pixels@,
                    index@,
                    width as int,
                    top as int,
                    band_height(height as int, top as int),
                    c,
                );
                if row_used(row) {
                    masks@[c]@ == row
                } else {
                    masks@[c]@.len() == 0
                }
            },
{
    let ghost pix = pixels@;
    let ghost map = index@;
    let ghost wide = width as int;
    let ghost first = top as int;
    let rows: u32 = if height - top < BAND_ROWS {
        height - top
    } else {
        BAND_ROWS
    };
    let w = width as usize;
    let mut masks: Vec<Vec<u8>> = Vec::new();
    let mut c: usize = 0;
    while c < colors
        invariant
            c <= colors,
            masks.len() == c,
            forall|k: int| #![trigger masks@[k]] 0 <= k < c ==> masks@[k]@.len() == 0,
        decreases colors - c,
    {
        masks.push(Vec::new());
        c += 1;
    }
    let mut bit: u8 = 1;
    let mut dy: u32 = 0;
    while dy < rows
        invariant
            dy <= rows <= BAND_ROWS,
            rows == band_height(height as int, top as int),
            top + rows <= height,
            w == width,
            wide == width,
            first == top,
            pix == pixels@,
            map == index@,
            index@ == index_of(pixels@),
            colors == palette_of(pixels@).len(),
            width * height * 4 <= pixels.len(),
            bit == bit_weight(dy as nat),
            bit <= 64,
            masks.len() == colors,
            masks_shaped(masks@, wide),
            forall|k: int, x: int|
                0 <= k < colors && 0 <= x < wide ==> #[trigger] mask_in(masks@, k, x)
                    == column_mask(pix, map, wide, first, x, k, dy as nat),
        decreases rows - dy,
    {
        let row = top + dy;
        let mut x: usize = 0;
        proof {
            reveal_with_fuel(bit_weight, 6);
            assert(dy == 0 || dy == 1 || dy == 2 || dy == 3 || dy == 4 || dy == 5);
        }
        while x < w
            invariant
                x <= w,
                dy < rows <= BAND_ROWS,
                row == top + dy,
                row < height,
                w == width,
                wide == width,
                first == top,
                pix == pixels@,
                map == index@,
                index@ == index_of(pixels@),
                colors == palette_of(pixels@).len(),
                width * height * 4 <= pixels.len(),
                bit == bit_weight(dy as nat),
                bit <= 32,
                masks.len() == colors,
                masks_shaped(masks@, wide),
                forall|k: int, z: int|
                    0 <= k < colors && 0 <= z < wide ==> #[trigger] mask_in(masks@, k, z)
                        == column_mask(
                        pix,
                        map,
                        wide,
                        first,
                        z,
                        k,
                        if z < x {
                            (dy + 1) as nat
                        } else {
                            dy as nat
                        },
                    ),
            decreases w - x,
        {
            proof {
                lemma_place_inside(width as int, height as int, x as int, row as int);
                assert((first + dy) * wide + x == row * width + x);
            }
            let ghost i = row * width + x;
            let place = row as usize * w + x;
            let px = vstd::slice::slice_subrange(pixels, place * 4, place * 4 + 4);
            if px[3] >= OPAQUE_ALPHA {
                let color = pack_rgb(px);
                proof {
                    assert(opaque(pix, i) && color == color_at(pix, i));
                    law_opaque_pixels_are_indexed(pix, i);
                }
                let painted: usize = match index.get(&color) {
                    Some(found) => *found as usize,
                    None => 0,
                };
                assert(forall|k: int| #[trigger] is_painted(pix, map, i, k) == (k == painted));
                let ghost before = masks@;
                proof {
                    assert(mask_in(before, painted as int, x as int) == column_mask(
                        pix,
                        map,
                        wide,
                        first,
                        x as int,
                        painted as int,
                        dy as nat,
                    ));
                    lemma_column_mask_bound(
                        pix,
                        map,
                        wide,
                        first,
                        x as int,
                        painted as int,
                        dy as nat,
                    );
                }
                if masks[painted].len() == 0 {
                    let mut fresh: Vec<u8> = vec![0u8; w];
                    fresh.set(x, bit);
                    assert(fresh@[x as int] != 0);
                    masks.set(painted, fresh);
                } else {
                    let value = masks[painted][x];
                    let mut changed: Vec<u8> = Vec::new();
                    std::mem::swap(&mut changed, &mut masks[painted]);
                    changed.set(x, value + bit);
                    assert(changed@[x as int] != 0);
                    masks.set(painted, changed);
                }
                assert forall|k: int, z: int|
                    0 <= k < colors && 0 <= z < wide implies #[trigger] mask_in(masks@, k, z)
                    == column_mask(
                    pix,
                    map,
                    wide,
                    first,
                    z,
                    k,
                    if z < x + 1 {
                        (dy + 1) as nat
                    } else {
                        dy as nat
                    },
                ) by {
                    assert(mask_in(before, k, z) == column_mask(
                        pix,
                        map,
                        wide,
                        first,
                        z,
                        k,
                        if z < x {
                            (dy + 1) as nat
                        } else {
                            dy as nat
                        },
                    ));
                }
            } else {
                assert(forall|k: int| !#[trigger] is_painted(pix, map, i, k));
            }
            x += 1;
        }
        assert(bit_weight((dy + 1) as nat) == 2 * bit);
        bit = bit * 2;
        dy += 1;
    }
    proof {
        let count = band_height(height as int, top as int);
        reveal_with_fuel(bit_weight, 7);
        assert forall|k: int| #![trigger masks@[k]] 0 <= k < colors implies ({
            let row = band_row(pix, map, wide, first, count, k);
            if row_used(row) {
                masks@[k]@ == row
            } else {
                masks@[k]@.len() == 0
            }
        }) by {
            let row = band_row(pix, map, wide, first, count, k);
            assert forall|x: int| 0 <= x < wide implies #[trigger] row[x] == mask_in(
                masks@,
                k,
                x,
            ) by {
                lemma_column_mask_bound(pix, map, wide, first, x, k, count);
            }
            if masks@[k]@.len() > 0 {
                assert(masks@[k]@ =~= row);
            }
        }
    }
    masks
}

/// Appends one band.
fn push_band(
    out: &mut Vec<u8>,
    pixels: &[u8],
    index: &HashMap<u32, u16>,
    colors: usize,
    width: u32,
    height: u32,
    top: u32,
)
    requires
        index@ == index_of(pixels@),
        colors == palette_of(pixels@).len(),
        top < height,
        width * height * 4 <= pixels.len(),
    ensures
        final(out)@ == old(out)@ + band_bytes(
            pixels@,
            index@,
            width as int,
            top as int,
            band_height(height as int, top as int),
            colors as nat,
        ),
{
    let ghost rows = band_height(height as int, top as int);
    let ghost start = out@;
    let masks = band_masks(pixels, index, colors, width, height, top);
    let mut c: usize = 0;
    let mut first = true;
    assert(out@ =~= start + band_bytes(pixels@, index@, width as int, top as int, rows, 0));
    while c < colors
        invariant
            c <= colors,
            masks.len() == colors,
            rows == band_height(height as int, top as int),
            rows <= BAND_ROWS,
            forall|k: int|
                #![trigger masks@[k]]
                0 <= k < colors ==> {
                    let row = band_row(pixels@, index@, width as int, top as int, rows, k);
                    if row_used(row) {
                        masks@[k]@ == row
                    } else {
                        masks@[k]@.len() == 0
                    }
                },
            out@ == start + band_bytes(
                pixels@,
                index@,
                width as int,
                top as int,
                rows,
                c as nat,
            ),
            first == (band_bytes(pixels@, index@, width as int, top as int, rows, c as nat).len()
                == 0),
        decreases colors - c,
    {
        let ghost rest = band_bytes(pixels@, index@, width as int, top as int, rows, c as nat);
        let ghost row = band_row(pixels@, index@, width as int, top as int, rows, c as int);
        if masks[c].len() > 0 {
            assert(row_used(row));
            assert forall|x: int| 0 <= x < row.len() implies #[trigger] row[x] < 64 by {
                lemma_column_mask_bound(
                    pixels@,
                    index@,
                    width as int,
                    top as int,
                    x,
                    c as int,
                    rows,
                );
                lemma_bit_weight_bound(rows);
            }
            if !first {
                out.push(36);
            }
            out.push(35);
            push_decimal(out, c as u64);
            push_row(out, &masks[c]);
            first = false;
            assert(out@ =~= start + band_bytes(
                pixels@,
                index@,
                width as int,
                top as int,
                rows,
                (c + 1) as nat,
            ));
        } else {
            assert(masks@[c as int]@.len() == 0);
            assert(!row_used(row));
        }
        c += 1;
    }
}

/// A band's mask is a six-bit number.
pub proof fn lemma_bit_weight_bound(n: nat)
    requires
        n <= BAND_ROWS,
    ensures
        bit_weight(n) <= 64,
{
    reveal_with_fuel(bit_weight, 7);
    assert(n == 0 || n == 1 || n == 2 || n == 3 || n == 4 || n == 5 || n == 6);
}

/// Appends the definition of one palette entry.
fn push_palette_entry(out: &mut Vec<u8>, n: usize, color: u32)
    ensures
        final(out)@ == old(out)@ + palette_entry_bytes(n as nat, color),
{
    proof {
        reveal_strlit(";2;");
    }
    out.push(35);
    push_decimal(out, n as u64);
    push_text(out, ";2;");
    push_decimal(out, sixel_component(channel_of(color, 0)) as u64);
    out.push(59);
    push_decimal(out, sixel_component(channel_of(color, 1)) as u64);
    out.push(59);
    push_decimal(out, sixel_component(channel_of(color, 2)) as u64);
    assert(out@ =~= old(out)@ + palette_entry_bytes(n as nat, color));
}

/// Appends the palette definitions.
fn push_palette(out: &mut Vec<u8>, palette: &Vec<u32>)
    ensures
        final(out)@ == old(out)@ + palette_bytes(palette@, palette@.len()),
{
    let ghost start = out@;
    let mut i: usize = 0;
    assert(out@ =~= start + palette_bytes(palette@, 0));
    while i < palette.len()
        invariant
            i <= palette.len(),
            out@ == start + palette_bytes(palette@, i as nat),
        decreases palette.len() - i,
    {
        push_palette_entry(out, i, palette[i]);
        i += 1;
        assert(out@ =~= start + palette_bytes(palette@, i as nat));
    }
}

/// Encodes an exact-size RGBA buffer, without scaling.
///
/// Pixels behind the first `width` by `height` are not painted, but their colors still take
/// part in the quantization.
pub fn encode_exact(pixels: &[u8], width: u32, height: u32) -> (out: Vec<u8>)
    requires
        width * height * 4 <= pixels.len(),
    ensures
        out@ == sixel_stream(pixels@, width as int, height as int),
{
    let (palette, index) = quantize(pixels);
    let mut out: Vec<u8> = Vec::new();
    proof {
        reveal_strlit("\x1bP0;1;0q\"1;1;");
        reveal_strlit("\x1b\\");
    }
    push_text(&mut out, "\x1bP0;1;0q\"1;1;");
    push_decimal(&mut out, width as u64);
    out.push(59);
    push_decimal(&mut out, height as u64);
    assert(out@ =~= prologue_bytes(width as int, height as int));
    push_palette(&mut out, &palette);
    let ghost start = out@;
    let ghost colors = palette@.len();
    let mut top: u32 = 0;
    let ghost mut n: nat = 0;
    assert(out@ =~= start + bands_bytes(
        pixels@,
        index@,
        colors,
        width as int,
        height as int,
        0,
    ));
    while top < height
        invariant
            width * height * 4 <= pixels.len(),
            index@ == index_of(pixels@),
            palette@ == palette_of(pixels@),
            colors == palette@.len(),
            top <= height,
            top < height ==> top == n * BAND_ROWS,
            top == height ==> n == band_count(height as int),
            out@ == start + bands_bytes(
                pixels@,
                index@,
                colors,
                width as int,
                height as int,
                n,
            ),
        decreases height - top,
    {
        if top > 0 {
            out.push(45);
        }
        push_band(&mut out, pixels, &index, palette.len(), width, height, top);
        proof {
            n = n + 1;
        }
        assert(out@ =~= start + bands_bytes(
            pixels@,
            index@,
            colors,
            width as int,
            height as int,
            n,
        ));
        top = if height - top <= BAND_ROWS {
            height
        } else {
            top + BAND_ROWS
        };
    }
    push_text(&mut out, "\x1b\\");
    assert(out@ =~= sixel_stream(pixels@, width as int, height as int));
    out
}

/// What a buffer is encoded as when it is to be shown at `target_w` by `target_h` pixels.
pub open spec fn encoded_image(
    rgba: Seq<u8>,
    width: int,
    height: int,
    target_w: int,
    target_h: int,
) -> Seq<u8> {
    let tw = smaller(target_w, MAX_TARGET_DIM as int);
    let th = smaller(target_h, MAX_TARGET_DIM as int);
    if width == 0 || height == 0 || tw == 0 || th == 0 || rgba.len() < width * height * 4 {
        Seq::empty()
    } else if width == tw && height == th {
        sixel_stream(rgba, tw, th)
    } else {
        sixel_stream(scaled(rgba, width, height, tw, th), tw, th)
    }
}

/// Encodes an RGBA buffer as a complete Sixel DCS sequence, after scaling it to `target_w` by
/// `target_h` by nearest neighbor.
///
/// The result is empty when the input is degenerate: a dimension is zero, or the buffer is
/// short. Fully transparent input gives a valid sequence that paints nothing.
pub fn encode_sixel_rgba(
    rgba: &[u8],
    width: u32,
    height: u32,
    target_w: u32,
    target_h: u32,
) -> (out: Vec<u8>)
    ensures
        out@ == encoded_image(
            rgba@,
            width as int,
            height as int,
            target_w as int,
            target_h as int,
        ),
{
    let target_w = if target_w < MAX_TARGET_DIM {
        target_w
    } else {
        MAX_TARGET_DIM
    };
    let target_h = if target_h < MAX_TARGET_DIM {
        target_h
    } else {
        MAX_TARGET_DIM
    };
    if width == 0 || height == 0 || target_w == 0 || target_h == 0 {
        return Vec::new();
    }
    let expected = match rgba_len(width, height) {
        Some(expected) => expected,
        None => {
            assert(rgba@.len() == rgba.len());
            return Vec::new();
        },
    };
    if rgba.len() < expected {
        return Vec::new();
    }
    if width == target_w && height == target_h {
        encode_exact(rgba, target_w, target_h)
    } else {
        assert(0 < target_w * target_h <= 4096 * 4096) by (nonlinear_arith)
            requires
                0 < target_w <= 4096,
                0 < target_h <= 4096,
        ;
        let pixels = scale_rgba_nearest(rgba, width, height, target_w, target_h);
        encode_exact(&pixels, target_w, target_h)
    }
}

/// A palette component is the channel value on the scale from 0 to 100, to the nearest: it is off
/// by less than half a step, and it grows with the value.
pub proof fn law_components_are_nearest_percentages(value: int, larger: int)
    requires
        0 <= value <= larger <= 255,
    ensures
        0 <= scaled_component(value) <= 100,
        -127 <= 255 * scaled_component(value) - 100 * value <= 127,
        scaled_component(value) <= scaled_component(larger),
{
}

} // verus!

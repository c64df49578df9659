//! What a terminal paints when it reads an encoded image.
//!
//! [`step`] is the part of a terminal that reads Sixel sequences, one byte at a time. The law
//! [`law_stream_paints_image`] says that reading an encoded image paints that image.

use vstd::arithmetic::div_mod::lemma_fundamental_div_mod_converse;
use vstd::prelude::*;

use crate::color::{channel, ColorCount};
use crate::quantize::{
    color_at, index_of, law_opaque_pixels_are_indexed, opaque, palette_of,
};
use crate::quantize_laws::{
    index_count, index_total, law_palette_entries_are_the_means_of_their_pixels,
    law_up_to_256_colors_are_the_palette, lemma_color_number, lemma_level_is_channel, level,
    lists_colors, rgb_number,
};
use crate::raster::{
    law_scaled_pixels_are_nearest, lemma_place_inside, nearest, scaled, smaller,
};
use crate::sixel_encode::{
    band_bytes, band_count, band_height, band_row, bands_bytes, bit_weight, column_mask,
    encoded_image, is_painted, law_components_are_nearest_percentages, paint_at, palette_bytes, palette_entry_bytes,
    prologue_bytes, row_bytes, row_used, run_bytes, run_length, scaled_component, sixel_stream,
    BAND_ROWS, MAX_TARGET_DIM,
};
use crate::text::{ascii, decimal};

verus! {

/// What has been painted, and where painting goes on.
#[verifier::ext_equal]
pub ghost struct Canvas {
    /// The column of the next sixel.
    pub x: int,
    /// The first row of the current band.
    pub top: int,
    /// The selected palette index.
    pub color: int,
    /// The palette index of each pixel, by column and row, that was painted.
    pub painted: Map<(int, int), int>,
    /// The red, green and blue of each palette index that was defined, from 0 to 100.
    pub palette: Map<int, (int, int, int)>,
    /// The width and height that the raster attributes gave.
    pub size: (int, int),
}

/// What the next byte means.
pub ghost enum Mode {
    /// No Sixel sequence has begun.
    Outside,
    /// An escape byte came outside a sequence.
    Escape,
    /// The parameters of a device control string.
    Introducer,
    /// Sixel data.
    Data,
    /// The numbers of a command: those that are complete, and the one being read.
    Numbers { command: u8, complete: Seq<int>, current: int },
    /// An escape byte came inside the data.
    Ending,
    /// The sequence is over.
    Finished,
}

pub ghost struct Painter {
    pub mode: Mode,
    pub canvas: Canvas,
}

/// Nothing is painted and nothing is read yet.
pub open spec fn blank() -> Painter {
    Painter {
        mode: Mode::Outside,
        canvas: Canvas {
            x: 0,
            top: 0,
            color: 0,
            painted: Map::empty(),
            palette: Map::empty(),
            size: (0, 0),
        },
    }
}

/// Bit `k` of a mask.
pub open spec fn bit_set(mask: int, k: int) -> bool {
    mask / bit_weight(k as nat) % 2 == 1
}

/// Pixel (`px`, `py`) is painted by `n` sixels of this mask.
pub open spec fn in_run(canvas: Canvas, mask: int, n: int, px: int, py: int) -> bool {
    &&& canvas.x <= px < canvas.x + n
    &&& canvas.top <= py < canvas.top + BAND_ROWS
    &&& bit_set(mask, py - canvas.top)
}

/// Paints `n` columns with the same sixel.
pub open spec fn paint(canvas: Canvas, mask: int, n: int) -> Canvas {
    Canvas {
        x: canvas.x + n,
        painted: canvas.painted.union_prefer_right(
            Map::new(
                |at: (int, int)| in_run(canvas, mask, n, at.0, at.1),
                |at: (int, int)| canvas.color,
            ),
        ),
        ..canvas
    }
}

/// Carries out a command once its numbers are complete: selects a palette index, defines one by
/// its red, green and blue (coordinate system 2), or takes the size of an image of square pixels.
pub open spec fn perform(canvas: Canvas, command: u8, numbers: Seq<int>) -> Canvas {
    if command == 35 && numbers.len() == 1 {
        Canvas { color: numbers[0], ..canvas }
    } else if command == 35 && numbers.len() == 5 && numbers[1] == 2 {
        Canvas {
            color: numbers[0],
            palette: canvas.palette.insert(numbers[0], (numbers[2], numbers[3], numbers[4])),
            ..canvas
        }
    } else if command == 34 && numbers.len() == 4 && numbers[0] == 1 && numbers[1] == 1 {
        Canvas { size: (numbers[2], numbers[3]), ..canvas }
    } else {
        canvas
    }
}

/// One byte of sixel data.
pub open spec fn data_step(canvas: Canvas, byte: u8) -> Painter {
    if byte == 33 || byte == 34 || byte == 35 {
        Painter {
            mode: Mode::Numbers { command: byte, complete: Seq::empty(), current: 0 },
            canvas,
        }
    } else if byte == 36 {
        Painter { mode: Mode::Data, canvas: Canvas { x: 0, ..canvas } }
    } else if byte == 45 {
        Painter {
            mode: Mode::Data,
            canvas: Canvas { x: 0, top: canvas.top + BAND_ROWS, ..canvas },
        }
    } else if 63 <= byte <= 126 {
        Painter { mode: Mode::Data, canvas: paint(canvas, byte - 63, 1) }
    } else if byte == 27 {
        Painter { mode: Mode::Ending, canvas }
    } else {
        Painter { mode: Mode::Data, canvas }
    }
}

/// One byte.
pub open spec fn step(painter: Painter, byte: u8) -> Painter {
    match painter.mode {
        Mode::Outside => if byte == 27 {
            Painter { mode: Mode::Escape, ..painter }
        } else {
            painter
        },
        Mode::Escape => if byte == 80 {
            Painter { mode: Mode::Introducer, ..painter }
        } else {
            Painter { mode: Mode::Outside, ..painter }
        },
        Mode::Introducer => if byte == 113 {
            Painter { mode: Mode::Data, ..painter }
        } else {
            painter
        },
        Mode::Data => data_step(painter.canvas, byte),
        Mode::Numbers { command, complete, current } => if 48 <= byte <= 57 {
            Painter {
                mode: Mode::Numbers { command, complete, current: current * 10 + (byte - 48) },
                ..painter
            }
        } else if byte == 59 {
            Painter {
                mode: Mode::Numbers { command, complete: complete.push(current), current: 0 },
                ..painter
            }
        } else if command == 33 && 63 <= byte <= 126 {
            Painter { mode: Mode::Data, canvas: paint(painter.canvas, byte - 63, current) }
        } else {
            data_step(perform(painter.canvas, command, complete.push(current)), byte)
        },
        Mode::Ending => if byte == 92 {
            Painter { mode: Mode::Finished, ..painter }
        } else {
            Painter { mode: Mode::Data, ..painter }
        },
        Mode::Finished => painter,
    }
}

/// Reads all of `bytes`.
pub open spec fn read_all(painter: Painter, bytes: Seq<u8>) -> Painter
    decreases bytes.len(),
{
    if bytes.len() == 0 {
        painter
    } else {
        step(read_all(painter, bytes.drop_last()), bytes.last())
    }
}

proof fn lemma_read_concat(painter: Painter, a: Seq<u8>, b: Seq<u8>)
    ensures
        read_all(painter, a + b) == read_all(read_all(painter, a), b),
    decreases b.len(),
{
    if b.len() == 0 {
        assert(a + b =~= a);
    } else {
        lemma_read_concat(painter, a, b.drop_last());
        assert((a + b).drop_last() =~= a + b.drop_last());
    }
}

proof fn lemma_read_one(painter: Painter, byte: u8)
    ensures
        read_all(painter, seq![byte]) == step(painter, byte),
{
    assert(seq![byte].drop_last() =~= Seq::empty());
    reveal_with_fuel(read_all, 2);
}

/// Reading the digits of a number reads the number.
proof fn lemma_read_decimal(canvas: Canvas, command: u8, complete: Seq<int>, n: nat)
    ensures
        read_all(
            Painter { mode: Mode::Numbers { command, complete, current: 0 }, canvas },
            decimal(n),
        ) == (Painter { mode: Mode::Numbers { command, complete, current: n as int }, canvas }),
    decreases n,
{
    let from = Painter { mode: Mode::Numbers { command, complete, current: 0 }, canvas };
    if n < 10 {
        lemma_read_one(from, (48 + n) as u8);
    } else {
        lemma_read_decimal(canvas, command, complete, n / 10);
        assert(decimal(n).drop_last() =~= decimal(n / 10));
    }
}

/// The painter once a pending command is carried out.
spec fn settled(painter: Painter) -> Painter {
    match painter.mode {
        Mode::Numbers { command, complete, current } => Painter {
            mode: Mode::Data,
            canvas: perform(painter.canvas, command, complete.push(current)),
        },
        _ => painter,
    }
}

/// The painter reads data, and any command that is pending ends with the next byte.
spec fn ready(painter: Painter) -> bool {
    match painter.mode {
        Mode::Numbers { command, .. } => command != 33,
        Mode::Data => true,
        _ => false,
    }
}

/// The bytes do not go on with a number.
spec fn starts_fresh(bytes: Seq<u8>) -> bool {
    bytes.len() > 0 ==> !(48 <= bytes[0] <= 57) && bytes[0] != 59
}

/// A pending command makes no difference to what comes after it.
proof fn lemma_read_settled(painter: Painter, bytes: Seq<u8>)
    requires
        ready(painter),
        starts_fresh(bytes),
    ensures
        bytes.len() > 0 ==> read_all(painter, bytes) == read_all(settled(painter), bytes),
        settled(read_all(painter, bytes)) == settled(read_all(settled(painter), bytes)),
    decreases bytes.len(),
{
    if bytes.len() == 0 {
    } else if bytes.len() == 1 {
        assert(bytes =~= seq![bytes[0]]);
        lemma_read_one(painter, bytes[0]);
        lemma_read_one(settled(painter), bytes[0]);
    } else {
        lemma_read_settled(painter, bytes.drop_last());
    }
}

/// Reading data from `before` leads to `after`.
spec fn leads_to(before: Canvas, bytes: Seq<u8>, after: Canvas) -> bool {
    let end = read_all(Painter { mode: Mode::Data, canvas: before }, bytes);
    ready(end) && settled(end) == (Painter { mode: Mode::Data, canvas: after })
}

proof fn lemma_leads_concat(a: Canvas, x: Seq<u8>, b: Canvas, y: Seq<u8>, c: Canvas)
    requires
        leads_to(a, x, b),
        leads_to(b, y, c),
        starts_fresh(y),
    ensures
        leads_to(a, x + y, c),
{
    let start = Painter { mode: Mode::Data, canvas: a };
    let middle = read_all(start, x);
    lemma_read_concat(start, x, y);
    lemma_read_settled(middle, y);
}

proof fn lemma_leads_nothing(canvas: Canvas)
    ensures
        leads_to(canvas, Seq::empty(), canvas),
{
}

/// One byte that is no part of a number and no repeat leads where it says.
proof fn lemma_leads_byte(canvas: Canvas, byte: u8)
    requires
        byte == 36 || byte == 45 || 63 <= byte <= 126,
    ensures
        leads_to(canvas, seq![byte], data_step(canvas, byte).canvas),
{
    lemma_read_one(Painter { mode: Mode::Data, canvas }, byte);
}

/// Painting two stretches with the same sixel is painting one.
proof fn lemma_paint_twice(canvas: Canvas, mask: int, m: int, n: int)
    requires
        0 <= m,
        0 <= n,
    ensures
        paint(paint(canvas, mask, m), mask, n) == paint(canvas, mask, m + n),
{
    assert(paint(paint(canvas, mask, m), mask, n).painted =~= paint(
        canvas,
        mask,
        m + n,
    ).painted);
}

/// The same sixel spelled out `n` times paints `n` columns.
proof fn lemma_leads_repeated(canvas: Canvas, mask: u8, n: nat)
    requires
        mask < 64,
    ensures
        leads_to(canvas, Seq::new(n, |i: int| (63 + mask) as u8), paint(canvas, mask as int, n as int)),
    decreases n,
{
    let sixel = (63 + mask) as u8;
    let bytes = Seq::new(n, |i: int| sixel);
    if n == 0 {
        assert(bytes =~= Seq::empty());
        assert(paint(canvas, mask as int, 0) =~= canvas) by {
            assert(paint(canvas, mask as int, 0).painted =~= canvas.painted);
        }
        lemma_leads_nothing(canvas);
    } else {
        let m = (n - 1) as nat;
        let head = Seq::new(m, |i: int| sixel);
        let middle = paint(canvas, mask as int, m as int);
        lemma_leads_repeated(canvas, mask, m);
        lemma_leads_byte(middle, sixel);
        lemma_leads_concat(
            canvas,
            head,
            middle,
            seq![sixel],
            paint(middle, mask as int, 1),
        );
        assert(bytes =~= head + seq![sixel]);
        lemma_paint_twice(canvas, mask as int, m as int, 1);
    }
}

/// One encoded run paints as many columns as it is long.
proof fn lemma_leads_run(canvas: Canvas, mask: u8, n: nat)
    requires
        mask < 64,
    ensures
        leads_to(canvas, run_bytes(mask, n as int), paint(canvas, mask as int, n as int)),
{
    let sixel = (63 + mask) as u8;
    if n > 3 {
        let start = Painter { mode: Mode::Data, canvas };
        let bytes = seq![33u8] + decimal(n);
        lemma_read_one(start, 33);
        lemma_read_concat(start, seq![33u8], decimal(n));
        lemma_read_decimal(canvas, 33, Seq::empty(), n);
        lemma_read_concat(start, bytes, seq![sixel]);
        lemma_read_one(read_all(start, bytes), sixel);
    } else {
        lemma_leads_repeated(canvas, mask, n);
        assert(run_bytes(mask, n as int) =~= Seq::new(n, |i: int| (63 + mask) as u8));
    }
}

/// The pixel is as it was before.
spec fn same_pixel(before: Canvas, after: Canvas, px: int, py: int) -> bool {
    &&& after.painted.contains_key((px, py)) == before.painted.contains_key((px, py))
    &&& after.painted.contains_key((px, py)) ==> after.painted[(px, py)] == before.painted[(
        px,
        py,
    )]
}

/// The pixel is painted with this palette index.
spec fn pixel_is(canvas: Canvas, px: int, py: int, color: int) -> bool {
    canvas.painted.contains_key((px, py)) && canvas.painted[(px, py)] == color
}

/// What a row of masks does to one pixel.
spec fn row_pixel(before: Canvas, row: Seq<u8>, after: Canvas, px: int, py: int) -> bool {
    if before.x <= px < row.len() && before.top <= py < before.top + BAND_ROWS && bit_set(
        row[px] as int,
        py - before.top,
    ) {
        pixel_is(after, px, py, before.color)
    } else {
        same_pixel(before, after, px, py)
    }
}

/// What a row of masks paints from the current column on.
spec fn row_painted(before: Canvas, row: Seq<u8>, after: Canvas) -> bool {
    &&& after.x == row.len()
    &&& after.top == before.top
    &&& after.color == before.color
    &&& after.palette == before.palette
    &&& after.size == before.size
    &&& forall|px: int, py: int| #[trigger] row_pixel(before, row, after, px, py)
}

/// The encoded row starts with a sixel or a repeat.
proof fn lemma_row_starts_fresh(row: Seq<u8>, x: int)
    requires
        forall|i: int| 0 <= i < row.len() ==> #[trigger] row[i] < 64,
    ensures
        starts_fresh(row_bytes(row, x)),
        0 <= x < row.len() ==> row_bytes(row, x).len() > 0,
{
    if 0 <= x < row.len() {
        crate::sixel_encode::lemma_run_length(row, x);
        assert(row[x] < 64);
        let n = run_length(row, x);
        let run = run_bytes(row[x], n);
        assert(run.len() > 0 && (run[0] == 33 || run[0] == 63 + row[x]));
        assert(row_bytes(row, x)[0] == run[0]);
    }
}

/// Reading an encoded row paints it.
proof fn lemma_leads_row(canvas: Canvas, row: Seq<u8>) -> (after: Canvas)
    requires
        0 <= canvas.x <= row.len(),
        forall|i: int| 0 <= i < row.len() ==> #[trigger] row[i] < 64,
    ensures
        leads_to(canvas, row_bytes(row, canvas.x), after),
        row_painted(canvas, row, after),
    decreases row.len() - canvas.x,
{
    let x = canvas.x;
    if x == row.len() {
        lemma_leads_nothing(canvas);
        canvas
    } else {
        crate::sixel_encode::lemma_run_length(row, x);
        let n = run_length(row, x);
        assert(row[x] < 64);
        let middle = paint(canvas, row[x] as int, n);
        lemma_leads_run(canvas, row[x], n as nat);
        let after = lemma_leads_row(middle, row);
        lemma_row_starts_fresh(row, x + n);
        lemma_leads_concat(canvas, run_bytes(row[x], n), middle, row_bytes(row, x + n), after);
        assert forall|px: int, py: int| #[trigger] row_pixel(canvas, row, after, px, py) by {
            assert(row_pixel(middle, row, after, px, py));
            if x <= px < x + n {
                assert(row[px] == row[x]);
            }
        }
        after
    }
}

/// Selecting a palette index.
proof fn lemma_leads_select(canvas: Canvas, n: nat)
    ensures
        leads_to(canvas, seq![35u8] + decimal(n), Canvas { color: n as int, ..canvas }),
{
    let start = Painter { mode: Mode::Data, canvas };
    lemma_read_one(start, 35);
    lemma_read_concat(start, seq![35u8], decimal(n));
    lemma_read_decimal(canvas, 35, Seq::empty(), n);
    let numbers = Seq::<int>::empty().push(n as int);
    assert(numbers.len() == 1 && numbers[0] == n);
}

/// One more number of a command.
proof fn lemma_read_number(
    canvas: Canvas,
    command: u8,
    complete: Seq<int>,
    current: int,
    n: nat,
)
    ensures
        read_all(
            Painter { mode: Mode::Numbers { command, complete, current }, canvas },
            seq![59u8] + decimal(n),
        ) == (Painter {
            mode: Mode::Numbers { command, complete: complete.push(current), current: n as int },
            canvas,
        }),
{
    let start = Painter { mode: Mode::Numbers { command, complete, current }, canvas };
    lemma_read_one(start, 59);
    lemma_read_concat(start, seq![59u8], decimal(n));
    lemma_read_decimal(canvas, command, complete.push(current), n);
}

/// Defining a palette entry.
proof fn lemma_leads_define(canvas: Canvas, n: nat, color: u32)
    ensures
        leads_to(
            canvas,
            palette_entry_bytes(n, color),
            Canvas {
                color: n as int,
                palette: canvas.palette.insert(n as int, scaled_color(color)),
                ..canvas
            },
        ),
{
    let start = Painter { mode: Mode::Data, canvas };
    let (r, g, b) = scaled_color(color);
    let none = Seq::<int>::empty();
    let n1 = none.push(n as int);
    let n2 = n1.push(2);
    let n3 = n2.push(r);
    let n4 = n3.push(g);
    let p1 = seq![35u8] + decimal(n);
    let p2 = seq![59u8] + decimal(2);
    let p3 = seq![59u8] + decimal(r as nat);
    let p4 = seq![59u8] + decimal(g as nat);
    let p5 = seq![59u8] + decimal(b as nat);
    reveal_strlit(";2;");
    assert(decimal(2) =~= seq![50u8]);
    assert(ascii(";2;"@) =~= seq![59u8, 50u8, 59u8]);
    assert(palette_entry_bytes(n, color) =~= p1 + p2 + p3 + p4 + p5);
    lemma_read_one(start, 35);
    lemma_read_concat(start, seq![35u8], decimal(n));
    lemma_read_decimal(canvas, 35, none, n);
    lemma_read_concat(start, p1, p2);
    lemma_read_number(canvas, 35, none, n as int, 2);
    lemma_read_concat(start, p1 + p2, p3);
    lemma_read_number(canvas, 35, n1, 2, r as nat);
    lemma_read_concat(start, p1 + p2 + p3, p4);
    lemma_read_number(canvas, 35, n2, r, g as nat);
    lemma_read_concat(start, p1 + p2 + p3 + p4, p5);
    lemma_read_number(canvas, 35, n3, g, b as nat);
    let numbers = n4.push(b);
    assert(numbers.len() == 5 && numbers[0] == n && numbers[2] == r && numbers[3] == g
        && numbers[4] == b);
}

/// The channels of a packed color from 0 to 100.
pub open spec fn scaled_color(color: u32) -> (int, int, int) {
    (
        scaled_component(channel(color, 0)),
        scaled_component(channel(color, 1)),
        scaled_component(channel(color, 2)),
    )
}

/// The first `n` entries of a palette, from 0 to 100.
pub open spec fn scaled_palette(palette: Seq<u32>, n: int) -> Map<int, (int, int, int)> {
    Map::new(|i: int| 0 <= i < n, |i: int| scaled_color(palette[i]))
}

/// Reading the palette definitions defines the palette and paints nothing.
proof fn lemma_leads_palette(canvas: Canvas, palette: Seq<u32>, n: nat) -> (after: Canvas)
    requires
        canvas.palette == Map::<int, (int, int, int)>::empty(),
        n <= palette.len(),
    ensures
        leads_to(canvas, palette_bytes(palette, n), after),
        starts_fresh(palette_bytes(palette, n)),
        after == (Canvas {
            color: after.color,
            palette: scaled_palette(palette, n as int),
            ..canvas
        }),
    decreases n,
{
    if n == 0 {
        lemma_leads_nothing(canvas);
        assert(canvas.palette =~= scaled_palette(palette, 0));
        canvas
    } else {
        let m = (n - 1) as nat;
        let middle = lemma_leads_palette(canvas, palette, m);
        lemma_leads_define(middle, m, palette[m as int]);
        let after = Canvas {
            color: m as int,
            palette: middle.palette.insert(m as int, scaled_color(palette[m as int])),
            ..middle
        };
        let entry = palette_entry_bytes(m, palette[m as int]);
        assert(entry[0] == 35);
        lemma_leads_concat(canvas, palette_bytes(palette, m), middle, entry, after);
        assert(after.palette =~= scaled_palette(palette, n as int));
        let bytes = palette_bytes(palette, n);
        if m > 0 {
            lemma_palette_not_empty(palette, m);
            assert(bytes[0] == palette_bytes(palette, m)[0]);
        } else {
            assert(palette_bytes(palette, m) =~= Seq::empty());
            assert(bytes[0] == entry[0]);
        }
        after
    }
}

proof fn lemma_palette_not_empty(palette: Seq<u32>, n: nat)
    requires
        n > 0,
    ensures
        palette_bytes(palette, n).len() > 0,
{
}

/// The bits of a column's mask say which of its pixels are painted.
proof fn lemma_mask_bits(
    pixels: Seq<u8>,
    index: Map<u32, u16>,
    width: int,
    top: int,
    x: int,
    color: int,
    n: nat,
    k: int,
)
    requires
        n <= BAND_ROWS,
        0 <= k < BAND_ROWS,
    ensures
        0 <= column_mask(pixels, index, width, top, x, color, n) < 64,
        bit_set(column_mask(pixels, index, width, top, x, color, n), k) == (k < n && is_painted(
            pixels,
            index,
            (top + k) * width + x,
            color,
        )),
{
    reveal_with_fuel(bit_weight, 7);
    reveal_with_fuel(column_mask, 7);
    let bit = |j: int|
        if is_painted(pixels, index, (top + j) * width + x, color) {
            1int
        } else {
            0int
        };
    let kept = |j: int|
        if j < n {
            bit(j)
        } else {
            0
        };
    assert(n == 0 || n == 1 || n == 2 || n == 3 || n == 4 || n == 5 || n == 6);
    let mask = column_mask(pixels, index, width, top, x, color, n);
    lemma_six_bits(kept(0), kept(1), kept(2), kept(3), kept(4), kept(5));
    assert(mask == kept(0) + 2 * kept(1) + 4 * kept(2) + 8 * kept(3) + 16 * kept(4) + 32 * kept(
        5,
    ));
    assert(bit_weight(0) == 1 && bit_weight(1) == 2 && bit_weight(2) == 4 && bit_weight(3) == 8
        && bit_weight(4) == 16 && bit_weight(5) == 32);
    assert(bit_set(mask, k) == (kept(k) == 1)) by {
        if k == 0 {
        } else if k == 1 {
        } else if k == 2 {
        } else if k == 3 {
        } else if k == 4 {
        } else {
            assert(k == 5);
        }
    }
}

/// Six binary digits come back out of the number that they make.
proof fn lemma_six_bits(b0: int, b1: int, b2: int, b3: int, b4: int, b5: int)
    requires
        0 <= b0 <= 1,
        0 <= b1 <= 1,
        0 <= b2 <= 1,
        0 <= b3 <= 1,
        0 <= b4 <= 1,
        0 <= b5 <= 1,
    ensures
        ({
            let mask = b0 + 2 * b1 + 4 * b2 + 8 * b3 + 16 * b4 + 32 * b5;
            &&& 0 <= mask < 64
            &&& mask / 1 % 2 == b0
            &&& mask / 2 % 2 == b1
            &&& mask / 4 % 2 == b2
            &&& mask / 8 % 2 == b3
            &&& mask / 16 % 2 == b4
            &&& mask / 32 % 2 == b5
        }),
{
}

/// Pixel (`px`, `py`) lies in the band, and its palette index is below `n`.
spec fn in_band(
    pixels: Seq<u8>,
    index: Map<u32, u16>,
    width: int,
    top: int,
    rows: nat,
    n: nat,
    px: int,
    py: int,
) -> bool {
    &&& 0 <= px < width
    &&& top <= py < top + rows
    &&& paint_at(pixels, index, py * width + px) matches Some(c)
    &&& c < n
}

/// What the palette indexes below `n` of one band do to one pixel.
spec fn band_pixel(
    before: Canvas,
    pixels: Seq<u8>,
    index: Map<u32, u16>,
    width: int,
    rows: nat,
    n: nat,
    after: Canvas,
    px: int,
    py: int,
) -> bool {
    if in_band(pixels, index, width, before.top, rows, n, px, py) {
        pixel_is(after, px, py, index[color_at(pixels, py * width + px)] as int)
    } else {
        same_pixel(before, after, px, py)
    }
}

/// The palette indexes below `n` of one band are painted, and nothing else has changed.
spec fn band_painted(
    before: Canvas,
    pixels: Seq<u8>,
    index: Map<u32, u16>,
    width: int,
    rows: nat,
    n: nat,
    after: Canvas,
) -> bool {
    &&& after.top == before.top
    &&& after.palette == before.palette
    &&& after.size == before.size
    &&& forall|px: int, py: int| #[trigger]
        band_pixel(before, pixels, index, width, rows, n, after, px, py)
}

/// Reading a band paints its pixels.
#[verifier::spinoff_prover]
proof fn lemma_leads_band(
    canvas: Canvas,
    pixels: Seq<u8>,
    index: Map<u32, u16>,
    width: int,
    rows: nat,
    n: nat,
) -> (after: Canvas)
    requires
        canvas.x == 0,
        0 < width,
        rows <= BAND_ROWS,
    ensures
        leads_to(canvas, band_bytes(pixels, index, width, canvas.top, rows, n), after),
        starts_fresh(band_bytes(pixels, index, width, canvas.top, rows, n)),
        band_bytes(pixels, index, width, canvas.top, rows, n).len() == 0 ==> after.x == 0,
        band_painted(canvas, pixels, index, width, rows, n, after),
    decreases n,
{
    let top = canvas.top;
    if n == 0 {
        lemma_leads_nothing(canvas);
        canvas
    } else {
        let m = (n - 1) as nat;
        let middle = lemma_leads_band(canvas, pixels, index, width, rows, m);
        let rest = band_bytes(pixels, index, width, top, rows, m);
        let row = band_row(pixels, index, width, top, rows, m as int);
        assert forall|px: int, py: int|
            0 <= px < width && top <= py < top + BAND_ROWS implies #[trigger] bit_set(
            row[px] as int,
            py - top,
        ) == (py < top + rows && is_painted(pixels, index, py * width + px, m as int)) by {
            lemma_mask_bits(pixels, index, width, top, px, m as int, rows, py - top);
            assert(top + (py - top) == py);
        }
        assert forall|i: int| 0 <= i < row.len() implies #[trigger] row[i] < 64 by {
            lemma_mask_bits(pixels, index, width, top, i, m as int, rows, 0);
        }
        if row_used(row) {
            let separator = if rest.len() > 0 {
                seq![36u8]
            } else {
                Seq::<u8>::empty()
            };
            let back = Canvas { x: 0, ..middle };
            if rest.len() > 0 {
                lemma_leads_byte(middle, 36);
            } else {
                lemma_leads_nothing(middle);
            }
            lemma_leads_concat(canvas, rest, middle, separator, back);
            let select = seq![35u8] + decimal(m);
            let chosen = Canvas { color: m as int, ..back };
            lemma_leads_select(back, m);
            assert(select[0] == 35);
            lemma_leads_concat(canvas, rest + separator, back, select, chosen);
            let after = lemma_leads_row(chosen, row);
            lemma_row_starts_fresh(row, 0);
            lemma_leads_concat(
                canvas,
                rest + separator + select,
                chosen,
                row_bytes(row, 0),
                after,
            );
            let bytes = band_bytes(pixels, index, width, top, rows, n);
            assert(bytes =~= rest + separator + select + row_bytes(row, 0));
            if rest.len() > 0 {
                assert(bytes[0] == rest[0]);
            } else {
                assert(bytes[0] == 35);
            }
            assert forall|px: int, py: int| #[trigger]
                band_pixel(canvas, pixels, index, width, rows, n, after, px, py) by {
                assert(band_pixel(canvas, pixels, index, width, rows, m, middle, px, py));
                assert(row_pixel(chosen, row, after, px, py));
                if 0 <= px < width && top <= py < top + BAND_ROWS {
                    assert(bit_set(row[px] as int, py - top) == (py < top + rows && is_painted(
                        pixels,
                        index,
                        py * width + px,
                        m as int,
                    )));
                }
            }
            after
        } else {
            assert forall|px: int, py: int| #[trigger]
                band_pixel(canvas, pixels, index, width, rows, n, middle, px, py) by {
                assert(band_pixel(canvas, pixels, index, width, rows, m, middle, px, py));
                if 0 <= px < width && top <= py < top + rows {
                    assert(row[px] == 0);
                    lemma_zero_has_no_bits(py - top);
                    assert(bit_set(row[px] as int, py - top) == (py < top + rows && is_painted(
                        pixels,
                        index,
                        py * width + px,
                        m as int,
                    )));
                }
            }
            middle
        }
    }
}

proof fn lemma_zero_has_no_bits(k: int)
    requires
        0 <= k,
    ensures
        !bit_set(0, k),
    decreases k,
{
    lemma_bit_weight_positive(k as nat);
    assert(0int / bit_weight(k as nat) == 0) by (nonlinear_arith)
        requires
            bit_weight(k as nat) > 0,
    ;
}

proof fn lemma_bit_weight_positive(n: nat)
    ensures
        bit_weight(n) > 0,
    decreases n,
{
    if n > 0 {
        lemma_bit_weight_positive((n - 1) as nat);
    }
}

/// The pixel is painted with its palette index if it lies in the first `rows` rows of the image
/// and is opaque, and is not painted otherwise.
pub open spec fn shows_pixel(
    canvas: Canvas,
    pixels: Seq<u8>,
    width: int,
    rows: int,
    px: int,
    py: int,
) -> bool {
    if 0 <= px < width && 0 <= py < rows && opaque(pixels, py * width + px) {
        &&& canvas.painted.contains_key((px, py))
        &&& canvas.painted[(px, py)] == index_of(pixels)[color_at(pixels, py * width + px)]
    } else {
        !canvas.painted.contains_key((px, py))
    }
}

/// The rows of the first `n` bands.
spec fn rows_in_bands(height: int, n: int) -> int {
    if n * BAND_ROWS < height {
        n * BAND_ROWS
    } else {
        height
    }
}

/// Reading the bands paints their pixels.
#[verifier::spinoff_prover]
proof fn lemma_leads_bands(
    canvas: Canvas,
    pixels: Seq<u8>,
    width: int,
    height: int,
    n: nat,
) -> (after: Canvas)
    requires
        canvas.x == 0,
        canvas.top == 0,
        canvas.painted == Map::<(int, int), int>::empty(),
        0 < width,
        0 < height,
        width * height * 4 <= pixels.len() <= usize::MAX,
        n <= band_count(height),
    ensures
        leads_to(
            canvas,
            bands_bytes(
                pixels,
                index_of(pixels),
                palette_of(pixels).len(),
                width,
                height,
                n,
            ),
            after,
        ),
        starts_fresh(
            bands_bytes(
                pixels,
                index_of(pixels),
                palette_of(pixels).len(),
                width,
                height,
                n,
            ),
        ),
        n > 0 ==> after.top == (n - 1) * BAND_ROWS,
        n == 0 ==> after == canvas,
        after.palette == canvas.palette,
        after.size == canvas.size,
        forall|px: int, py: int| #[trigger]
            shows_pixel(after, pixels, width, rows_in_bands(height, n as int), px, py),
    decreases n,
{
    let index = index_of(pixels);
    let colors = palette_of(pixels).len();
    if n == 0 {
        lemma_leads_nothing(canvas);
        canvas
    } else {
        let m = (n - 1) as nat;
        let top = m * BAND_ROWS;
        let rest = bands_bytes(pixels, index, colors, width, height, m);
        let middle = lemma_leads_bands(canvas, pixels, width, height, m);
        let separator = if n > 1 {
            seq![45u8]
        } else {
            Seq::<u8>::empty()
        };
        let begun = Canvas { x: 0, top: top as int, ..middle };
        if n > 1 {
            lemma_leads_byte(middle, 45);
        } else {
            lemma_leads_nothing(middle);
        }
        lemma_leads_concat(canvas, rest, middle, separator, begun);
        let rows = band_height(height, top as int);
        let band = band_bytes(pixels, index, width, top as int, rows, colors);
        let after = lemma_leads_band(begun, pixels, index, width, rows, colors);
        lemma_leads_concat(canvas, rest + separator, begun, band, after);
        let bytes = bands_bytes(pixels, index, colors, width, height, n);
        assert(bytes =~= rest + separator + band);
        if rest.len() > 0 {
            assert(bytes[0] == rest[0]);
        } else if n > 1 {
            assert(bytes[0] == 45);
        } else {
            assert(bytes =~= band);
        }
        assert forall|px: int, py: int| #[trigger]
            shows_pixel(after, pixels, width, rows_in_bands(height, n as int), px, py) by {
            assert(shows_pixel(
                middle,
                pixels,
                width,
                rows_in_bands(height, m as int),
                px,
                py,
            ));
            assert(band_pixel(begun, pixels, index, width, rows, colors, after, px, py));
            if 0 <= px < width && 0 <= py < height && opaque(pixels, py * width + px) {
                lemma_place_inside(width, height, px, py);
                law_opaque_pixels_are_indexed(pixels, py * width + px);
            }
        }
        after
    }
}

/// Reading the header and the raster attributes.
proof fn lemma_read_prologue(width: nat, height: nat)
    ensures
        ({
            let end = read_all(blank(), prologue_bytes(width as int, height as int));
            &&& ready(end)
            &&& settled(end) == (Painter {
                mode: Mode::Data,
                canvas: Canvas { size: (width as int, height as int), ..blank().canvas },
            })
        }),
{
    let text = ascii("\x1bP0;1;0q\"1;1;"@);
    reveal_strlit("\x1bP0;1;0q\"1;1;");
    let introducer = seq![27u8, 80u8, 48u8, 59u8, 49u8, 59u8, 48u8, 113u8];
    let none = Seq::<int>::empty();
    let canvas = blank().canvas;
    assert(text =~= introducer + seq![34u8, 49u8, 59u8, 49u8, 59u8]);
    let inside = Painter { mode: Mode::Introducer, canvas };
    let data = Painter { mode: Mode::Data, canvas };
    assert(read_all(blank(), introducer) == data) by {
        lemma_read_concat(blank(), seq![27u8, 80u8], introducer.skip(2));
        lemma_read_concat(blank(), seq![27u8], seq![80u8]);
        lemma_read_one(blank(), 27);
        lemma_read_one(read_all(blank(), seq![27u8]), 80);
        assert(seq![27u8, 80u8] =~= seq![27u8] + seq![80u8]);
        assert(introducer =~= seq![27u8, 80u8] + introducer.skip(2));
        let numbers = seq![48u8, 59u8, 49u8, 59u8, 48u8];
        assert(introducer.skip(2) =~= numbers + seq![113u8]);
        lemma_read_concat(inside, numbers, seq![113u8]);
        lemma_read_introducer(inside, numbers);
        lemma_read_one(inside, 113);
    }
    let n1 = none.push(1);
    let n2 = n1.push(1);
    let n3 = n2.push(width as int);
    let q1 = seq![34u8] + decimal(1);
    let q2 = seq![59u8] + decimal(1);
    let q3 = seq![59u8] + decimal(width);
    let q4 = seq![59u8] + decimal(height);
    assert(decimal(1) =~= seq![49u8]);
    assert(prologue_bytes(width as int, height as int) =~= introducer + (q1 + q2 + q3 + q4));
    lemma_read_concat(blank(), introducer, q1 + q2 + q3 + q4);
    lemma_read_one(data, 34);
    lemma_read_concat(data, seq![34u8], decimal(1));
    lemma_read_decimal(canvas, 34, none, 1);
    lemma_read_concat(data, q1, q2);
    lemma_read_number(canvas, 34, none, 1, 1);
    lemma_read_concat(data, q1 + q2, q3);
    lemma_read_number(canvas, 34, n1, 1, width);
    lemma_read_concat(data, q1 + q2 + q3, q4);
    lemma_read_number(canvas, 34, n2, width as int, height);
    let numbers = n3.push(height as int);
    assert(numbers.len() == 4 && numbers[2] == width && numbers[3] == height);
}

/// The parameters of the introducer change nothing.
proof fn lemma_read_introducer(painter: Painter, bytes: Seq<u8>)
    requires
        painter.mode is Introducer,
        forall|i: int| 0 <= i < bytes.len() ==> #[trigger] bytes[i] != 113,
    ensures
        read_all(painter, bytes) == painter,
    decreases bytes.len(),
{
    if bytes.len() > 0 {
        lemma_read_introducer(painter, bytes.drop_last());
    }
}

/// A terminal that reads an encoded image paints each opaque pixel with its palette index and
/// leaves every other pixel as it is; it has the palette and the size of the image, has not gone
/// below the image's last band, and the sequence is over.
pub proof fn law_stream_paints_image(pixels: Seq<u8>, width: int, height: int)
    requires
        0 < width,
        0 < height,
        width * height * 4 <= pixels.len() <= usize::MAX,
    ensures
        ({
            let end = read_all(blank(), sixel_stream(pixels, width, height));
            let palette = palette_of(pixels);
            &&& end.mode is Finished
            &&& end.canvas.size == (width, height)
            &&& end.canvas.top < height <= end.canvas.top + 6
            &&& end.canvas.palette == scaled_palette(palette, palette.len() as int)
            &&& forall|px: int, py: int| #[trigger]
                shows_pixel(end.canvas, pixels, width, height, px, py)
        }),
{
    let palette = palette_of(pixels);
    let index = index_of(pixels);
    let a = prologue_bytes(width, height);
    let b = palette_bytes(palette, palette.len());
    let n = band_count(height);
    let c = bands_bytes(pixels, index, palette.len(), width, height, n);
    let d = ascii("\x1b\\"@);
    lemma_read_prologue(width as nat, height as nat);
    let first = read_all(blank(), a);
    let sized = Canvas { size: (width, height), ..blank().canvas };
    let defined = lemma_leads_palette(sized, palette, palette.len());
    let shown = lemma_leads_bands(defined, pixels, width, height, n);
    lemma_leads_concat(sized, b, defined, c, shown);
    if b.len() > 0 {
        assert((b + c)[0] == b[0]);
    } else {
        assert(b + c =~= c);
    }
    lemma_read_concat(blank(), a, b + c);
    lemma_read_settled(first, b + c);
    let drawn = read_all(first, b + c);
    assert(settled(drawn) == (Painter { mode: Mode::Data, canvas: shown }));
    reveal_strlit("\x1b\\");
    assert(d =~= seq![27u8] + seq![92u8]);
    assert(sixel_stream(pixels, width, height) =~= (a + (b + c)) + d);
    lemma_read_concat(blank(), a + (b + c), d);
    lemma_read_concat(drawn, seq![27u8], seq![92u8]);
    lemma_read_one(drawn, 27);
    lemma_read_one(read_all(drawn, seq![27u8]), 92);
    assert(rows_in_bands(height, n as int) == height);
}

/// The source pixel that a target pixel shows.
pub open spec fn sampled_pixel(
    width: int,
    height: int,
    target_w: int,
    target_h: int,
    px: int,
    py: int,
) -> int {
    nearest(py, height, target_h) * width + nearest(px, width, target_w)
}

/// A target pixel has the bytes of the source pixel that it shows.
proof fn lemma_scaled_pixel(
    rgba: Seq<u8>,
    width: int,
    height: int,
    target_w: int,
    target_h: int,
    px: int,
    py: int,
)
    requires
        0 < width,
        0 < height,
        0 <= px < target_w,
        0 <= py < target_h,
    ensures
        ({
            let pixels = scaled(rgba, width, height, target_w, target_h);
            let source = sampled_pixel(width, height, target_w, target_h, px, py);
            &&& opaque(pixels, py * target_w + px) == opaque(rgba, source)
            &&& color_at(pixels, py * target_w + px) == color_at(rgba, source)
        }),
{
    let pixels = scaled(rgba, width, height, target_w, target_h);
    let source = sampled_pixel(width, height, target_w, target_h, px, py);
    let place = py * target_w + px;
    lemma_place_inside(target_w, target_h, px, py);
    lemma_fundamental_div_mod_converse(place, target_w, py, px);
    assert forall|k: int| 0 <= k < 4 implies #[trigger] pixels[4 * place + k] == rgba[4 * source + k] by {
        let i = 4 * place + k;
        assert(i / 4 == place && i % 4 == k);
        assert(0 <= i < target_w * target_h * 4);
    }
    assert(pixels[4 * place + 0] == rgba[4 * source + 0]);
    assert(pixels[4 * place + 1] == rgba[4 * source + 1]);
    assert(pixels[4 * place + 2] == rgba[4 * source + 2]);
    assert(pixels[4 * place + 3] == rgba[4 * source + 3]);
}

/// The pixels that are encoded for an image at a target size: its own at its own size, and the
/// nearest ones otherwise.
pub open spec fn target_pixels(
    rgba: Seq<u8>,
    width: int,
    height: int,
    target_w: int,
    target_h: int,
) -> Seq<u8> {
    if (width, height) == (target_w, target_h) {
        rgba
    } else {
        scaled(rgba, width, height, target_w, target_h)
    }
}

/// The target pixel is painted with the palette index of the color of its nearest source pixel
/// if that is opaque, and is not painted otherwise.
pub open spec fn shows_source(
    canvas: Canvas,
    rgba: Seq<u8>,
    width: int,
    height: int,
    target_w: int,
    target_h: int,
    px: int,
    py: int,
) -> bool {
    let source = sampled_pixel(width, height, target_w, target_h, px, py);
    let index = index_of(target_pixels(rgba, width, height, target_w, target_h));
    if 0 <= px < target_w && 0 <= py < target_h && opaque(rgba, source) {
        &&& canvas.painted.contains_key((px, py))
        &&& canvas.painted[(px, py)] == index[color_at(rgba, source)]
    } else {
        !canvas.painted.contains_key((px, py))
    }
}

/// A terminal that reads the encoding of an image at any target size, which is clamped first,
/// paints exactly the target pixels whose nearest source pixel is opaque, each with the palette
/// index of its color; it has the target's size and palette, and the sequence is over.
pub proof fn law_scaled_image_is_painted(
    rgba: Seq<u8>,
    width: int,
    height: int,
    target_w: int,
    target_h: int,
)
    requires
        0 < width,
        0 < height,
        width * height * 4 <= rgba.len() <= usize::MAX,
        0 < target_w,
        0 < target_h,
    ensures
        ({
            let end = read_all(blank(), encoded_image(rgba, width, height, target_w, target_h));
            let tw = smaller(target_w, MAX_TARGET_DIM as int);
            let th = smaller(target_h, MAX_TARGET_DIM as int);
            let palette = palette_of(target_pixels(rgba, width, height, tw, th));
            &&& end.mode is Finished
            &&& end.canvas.size == (tw, th)
            &&& end.canvas.top < th <= end.canvas.top + 6
            &&& end.canvas.palette == scaled_palette(palette, palette.len() as int)
            &&& forall|px: int, py: int| #[trigger]
                shows_source(end.canvas, rgba, width, height, tw, th, px, py)
        }),
{
    let tw = smaller(target_w, MAX_TARGET_DIM as int);
    let th = smaller(target_h, MAX_TARGET_DIM as int);
    let pixels = target_pixels(rgba, width, height, tw, th);
    assert(0 < tw * th <= 4096 * 4096) by (nonlinear_arith)
        requires
            0 < tw <= 4096,
            0 < th <= 4096,
    ;
    law_stream_paints_image(pixels, tw, th);
    let end = read_all(blank(), encoded_image(rgba, width, height, target_w, target_h));
    assert forall|px: int, py: int| #[trigger]
        shows_source(end.canvas, rgba, width, height, tw, th, px, py) by {
        assert(shows_pixel(end.canvas, pixels, tw, th, px, py));
        if 0 <= px < tw && 0 <= py < th {
            if (width, height) == (tw, th) {
                assert(px * width / tw == px && py * height / th == py) by (nonlinear_arith)
                    requires
                        width == tw,
                        height == th,
                        0 < tw,
                        0 < th,
                ;
            } else {
                lemma_scaled_pixel(rgba, width, height, tw, th, px, py);
            }
        }
    }
}

/// The pixel is painted after a sixel exactly if it was before, or if it lies in the sixel's
/// columns, in one of the six rows of the band, in the row whose bit is set: the topmost row has
/// the lowest of the six bits. Pixels painted by the sixel get the selected palette index.
pub open spec fn sixel_paints(
    before: Canvas,
    after: Canvas,
    mask: int,
    columns: int,
    px: int,
    py: int,
) -> bool {
    let row = py - before.top;
    let bit = if row == 0 {
        mask % 2
    } else if row == 1 {
        mask / 2 % 2
    } else if row == 2 {
        mask / 4 % 2
    } else if row == 3 {
        mask / 8 % 2
    } else if row == 4 {
        mask / 16 % 2
    } else if row == 5 {
        mask / 32 % 2
    } else {
        0
    };
    if before.x <= px < before.x + columns && bit == 1 {
        after.painted.contains_key((px, py)) && after.painted[(px, py)] == before.color
    } else {
        &&& after.painted.contains_key((px, py)) == before.painted.contains_key((px, py))
        &&& before.painted.contains_key((px, py)) ==> after.painted[(px, py)] == before.painted[(
            px,
            py,
        )]
    }
}

/// A byte from `?` to `~` paints one column and goes on to the next; behind `!` and a number it
/// paints that many. `$` goes back to the first column, `-` also down by six rows, and neither
/// paints.
pub proof fn law_terminal_paints_sixels(canvas: Canvas, byte: u8, columns: int, px: int, py: int)
    requires
        63 <= byte <= 126,
        0 <= columns,
    ensures
        ({
            let one = step(Painter { mode: Mode::Data, canvas }, byte);
            let many = step(
                Painter {
                    mode: Mode::Numbers {
                        command: 33,
                        complete: Seq::empty(),
                        current: columns,
                    },
                    canvas,
                },
                byte,
            );
            &&& one.mode is Data
            &&& one.canvas.x == canvas.x + 1
            &&& one.canvas.top == canvas.top
            &&& one.canvas.color == canvas.color
            &&& sixel_paints(canvas, one.canvas, byte - 63, 1, px, py)
            &&& many.mode is Data
            &&& many.canvas.x == canvas.x + columns
            &&& many.canvas.top == canvas.top
            &&& many.canvas.color == canvas.color
            &&& sixel_paints(canvas, many.canvas, byte - 63, columns, px, py)
        }),
        step(Painter { mode: Mode::Data, canvas }, 36) == (Painter {
            mode: Mode::Data,
            canvas: Canvas { x: 0, ..canvas },
        }),
        step(Painter { mode: Mode::Data, canvas }, 45) == (Painter {
            mode: Mode::Data,
            canvas: Canvas { x: 0, top: canvas.top + 6, ..canvas },
        }),
{
    reveal_with_fuel(bit_weight, 7);
    assert(bit_weight(0) == 1);
    assert(bit_weight(1) == 2);
    assert(bit_weight(2) == 4);
    assert(bit_weight(3) == 8);
    assert(bit_weight(4) == 16);
    assert(bit_weight(5) == 32);
    let row = py - canvas.top;
    if 0 <= row < 6 {
        assert(row == 0 || row == 1 || row == 2 || row == 3 || row == 4 || row == 5);
    }
}

/// `#` and one number selects a palette index; `#` and five numbers, the second of them 2, defines
/// the index by its red, green and blue and selects it; `"` and four numbers, the first two of
/// them 1, gives the size by the last two. No other color system and no other aspect ratio is
/// taken.
pub proof fn law_terminal_carries_out_commands(canvas: Canvas, numbers: Seq<int>)
    ensures
        numbers.len() == 1 ==> perform(canvas, 35, numbers) == (Canvas {
            color: numbers[0],
            ..canvas
        }),
        numbers.len() == 5 && numbers[1] == 2 ==> perform(canvas, 35, numbers) == (Canvas {
            color: numbers[0],
            palette: canvas.palette.insert(numbers[0], (numbers[2], numbers[3], numbers[4])),
            ..canvas
        }),
        numbers.len() == 5 && numbers[1] != 2 ==> perform(canvas, 35, numbers) == canvas,
        numbers.len() == 4 && numbers[0] == 1 && numbers[1] == 1 ==> perform(canvas, 34, numbers)
            == (Canvas { size: (numbers[2], numbers[3]), ..canvas }),
        numbers.len() == 4 && !(numbers[0] == 1 && numbers[1] == 1) ==> perform(
            canvas,
            34,
            numbers,
        ) == canvas,
{
}

/// Before anything is read, nothing is painted or defined, and painting begins at the top left.
/// `ESC P` up to `q` begins the data and `ESC \` ends it; neither paints. The digits of a number
/// are read from the left, and `;` ends a number.
pub proof fn law_terminal_reads_framing_and_numbers(
    canvas: Canvas,
    command: u8,
    complete: Seq<int>,
    current: int,
    digit: u8,
)
    requires
        48 <= digit <= 57,
    ensures
        blank().mode is Outside,
        blank().canvas.x == 0,
        blank().canvas.top == 0,
        forall|at: (int, int)| !(#[trigger] blank().canvas.painted.contains_key(at)),
        forall|c: int| !(#[trigger] blank().canvas.palette.contains_key(c)),
        step(Painter { mode: Mode::Outside, canvas }, 27) == (Painter {
            mode: Mode::Escape,
            canvas,
        }),
        step(Painter { mode: Mode::Escape, canvas }, 80) == (Painter {
            mode: Mode::Introducer,
            canvas,
        }),
        step(Painter { mode: Mode::Introducer, canvas }, digit) == (Painter {
            mode: Mode::Introducer,
            canvas,
        }),
        step(Painter { mode: Mode::Introducer, canvas }, 113) == (Painter {
            mode: Mode::Data,
            canvas,
        }),
        step(Painter { mode: Mode::Data, canvas }, 27) == (Painter { mode: Mode::Ending, canvas }),
        step(Painter { mode: Mode::Ending, canvas }, 92) == (Painter {
            mode: Mode::Finished,
            canvas,
        }),
        step(
            Painter { mode: Mode::Numbers { command, complete, current }, canvas },
            digit,
        ) == (Painter {
            mode: Mode::Numbers { command, complete, current: current * 10 + (digit - 48) },
            canvas,
        }),
        step(Painter { mode: Mode::Numbers { command, complete, current }, canvas }, 59) == (
        Painter {
            mode: Mode::Numbers { command, complete: complete.push(current), current: 0 },
            canvas,
        }),
{
}

/// `shown` is, on the scale from 0 to 100 and to the nearest, the mean of byte `k` over the seen
/// pixels of palette index `c`.
pub open spec fn shows_mean(pixels: Seq<u8>, c: int, k: int, shown: int) -> bool {
    let n = (pixels.len() / 4) as nat;
    let count = index_count(pixels, index_of(pixels), c, n);
    let total = index_total(pixels, index_of(pixels), c, k, n);
    exists|mean: int|
        {
            &&& #[trigger] (mean * count) <= total < (mean + 1) * count
            &&& -127 <= 255 * shown - 100 * mean <= 127
        }
}

proof fn lemma_entry_shows_mean(pixels: Seq<u8>, c: int, k: int)
    requires
        pixels.len() <= usize::MAX,
        0 <= c < palette_of(pixels).len(),
        0 <= k < 3,
    ensures
        shows_mean(pixels, c, k, scaled_component(channel(palette_of(pixels)[c], k))),
{
    law_palette_entries_are_the_means_of_their_pixels(pixels, c, k);
    let entry = palette_of(pixels)[c];
    lemma_level_is_channel(entry, k);
    law_components_are_nearest_percentages(channel(entry, k), 255);
    let n = (pixels.len() / 4) as nat;
    let count = index_count(pixels, index_of(pixels), c, n);
    let mean = level(entry as int, k);
    let product = mean * count;
    assert(product <= index_total(pixels, index_of(pixels), c, k, n));
}

/// A terminal that reads an encoded image paints exactly the pixels whose alpha is at least 128,
/// in columns and rows as they stand in the buffer, each with the index of its color; and shows
/// each index in the mean color of the image's pixels with that index.
pub proof fn law_image_is_shown_in_its_mean_colors(
    pixels: Seq<u8>,
    width: int,
    height: int,
    px: int,
    py: int,
)
    requires
        0 < width,
        0 < height,
        width * height * 4 <= pixels.len() <= usize::MAX,
    ensures
        ({
            let end = read_all(blank(), sixel_stream(pixels, width, height));
            let i = py * width + px;
            let inside = 0 <= px < width && 0 <= py < height;
            let c = end.canvas.painted[(px, py)];
            let shown = end.canvas.palette[c];
            &&& end.mode is Finished
            &&& end.canvas.size == (width, height)
            &&& end.canvas.top < height <= end.canvas.top + 6
            &&& end.canvas.painted.contains_key((px, py)) <==> inside && pixels[4 * i + 3] >= 128
            &&& end.canvas.painted.contains_key((px, py)) ==> {
                &&& c == index_of(pixels)[rgb_number(pixels, i) as u32]
                &&& end.canvas.palette.contains_key(c)
                &&& shows_mean(pixels, c, 0, shown.0)
                &&& shows_mean(pixels, c, 1, shown.1)
                &&& shows_mean(pixels, c, 2, shown.2)
            }
        }),
{
    law_stream_paints_image(pixels, width, height);
    let end = read_all(blank(), sixel_stream(pixels, width, height));
    assert(shows_pixel(end.canvas, pixels, width, height, px, py));
    if 0 <= px < width && 0 <= py < height {
        let i = py * width + px;
        lemma_place_inside(width, height, px, py);
        lemma_color_number(pixels, i);
        if opaque(pixels, i) {
            law_opaque_pixels_are_indexed(pixels, i);
            let c = index_of(pixels)[color_at(pixels, i)] as int;
            lemma_entry_shows_mean(pixels, c, 0);
            lemma_entry_shows_mean(pixels, c, 1);
            lemma_entry_shows_mean(pixels, c, 2);
        }
    }
}

/// An image of at most 256 colors is shown in its own colors: each seen pixel in its red, green
/// and blue, on the scale from 0 to 100 and to the nearest.
pub proof fn law_few_colors_are_shown_as_they_are(
    pixels: Seq<u8>,
    colors: Seq<ColorCount>,
    width: int,
    height: int,
    px: int,
    py: int,
)
    requires
        0 <= px < width,
        0 <= py < height,
        width * height * 4 <= pixels.len() <= usize::MAX,
        lists_colors(pixels, colors),
        colors.len() <= 256,
        pixels[4 * (py * width + px) + 3] >= 128,
    ensures
        ({
            let end = read_all(blank(), sixel_stream(pixels, width, height));
            let i = py * width + px;
            let shown = end.canvas.palette[end.canvas.painted[(px, py)]];
            &&& end.canvas.painted.contains_key((px, py))
            &&& end.canvas.palette.contains_key(end.canvas.painted[(px, py)])
            &&& -127 <= 255 * shown.0 - 100 * pixels[4 * i] <= 127
            &&& -127 <= 255 * shown.1 - 100 * pixels[4 * i + 1] <= 127
            &&& -127 <= 255 * shown.2 - 100 * pixels[4 * i + 2] <= 127
        }),
{
    let i = py * width + px;
    law_stream_paints_image(pixels, width, height);
    let end = read_all(blank(), sixel_stream(pixels, width, height));
    assert(shows_pixel(end.canvas, pixels, width, height, px, py));
    lemma_place_inside(width, height, px, py);
    lemma_color_number(pixels, i);
    law_opaque_pixels_are_indexed(pixels, i);
    law_up_to_256_colors_are_the_palette(pixels, colors);
    let color = color_at(pixels, i);
    assert(index_of(pixels).contains_key(color));
    let p = choose|p: int| 0 <= p < colors.len() && (#[trigger] colors[p]).color == color;
    assert(palette_of(pixels)[p] == color);
    lemma_level_is_channel(color, 0);
    lemma_level_is_channel(color, 1);
    lemma_level_is_channel(color, 2);
    law_components_are_nearest_percentages(channel(color, 0), 255);
    law_components_are_nearest_percentages(channel(color, 1), 255);
    law_components_are_nearest_percentages(channel(color, 2), 255);
}

/// What is encoded for a target size: the image at that size, no side above 4096, every byte of
/// every pixel taken from the source pixel on which the target pixel's corner falls.
pub proof fn law_encoding_is_of_the_nearest_pixels(
    rgba: Seq<u8>,
    width: int,
    height: int,
    target_w: int,
    target_h: int,
    x: int,
    y: int,
    k: int,
) -> (found: (int, int, Seq<u8>, int, int))
    requires
        0 < width,
        0 < height,
        width * height * 4 <= rgba.len(),
        0 <= x < target_w,
        0 <= y < target_h,
        x < 4096,
        y < 4096,
        0 <= k < 4,
    ensures
        ({
            let (tw, th, pixels, sx, sy) = found;
            &&& encoded_image(rgba, width, height, target_w, target_h) == sixel_stream(
                pixels,
                tw,
                th,
            )
            &&& tw == if target_w <= 4096 {
                target_w
            } else {
                4096
            }
            &&& th == if target_h <= 4096 {
                target_h
            } else {
                4096
            }
            &&& pixels.len() == tw * th * 4 || tw == width && th == height && pixels == rgba
            &&& 0 <= sx < width
            &&& 0 <= sy < height
            &&& sx * tw <= x * width < (sx + 1) * tw
            &&& sy * th <= y * height < (sy + 1) * th
            &&& pixels[(y * tw + x) * 4 + k] == rgba[(sy * width + sx) * 4 + k]
        }),
{
    let tw = smaller(target_w, MAX_TARGET_DIM as int);
    let th = smaller(target_h, MAX_TARGET_DIM as int);
    let pixels = target_pixels(rgba, width, height, tw, th);
    if (width, height) == (tw, th) {
        assert(x * tw <= x * width < (x + 1) * tw && y * th <= y * height < (y + 1) * th)
            by (nonlinear_arith)
            requires
                width == tw,
                height == th,
                0 < tw,
                0 < th,
        ;
        (tw, th, pixels, x, y)
    } else {
        let (sx, sy) = law_scaled_pixels_are_nearest(rgba, width, height, tw, th, x, y, k);
        (tw, th, pixels, sx, sy)
    }
}

} // verus!

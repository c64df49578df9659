//! iTerm2 Inline Image Protocol (OSC 1337) sequences.
//!
//! A PNG file passes through untouched, as base64. RGBA pixels become a PNG file first, scaled
//! down beforehand when there are more of them than the client accepts.
//!
//! The client gives up on a sequence whose `size` is missing, zero or too large. So `size` is
//! always the number of bytes before base64, and a payload beyond [`IIP_SIZE_LIMIT`] is refused
//! here.

use vstd::prelude::*;

use crate::base64_text::{
    decoded, encode_base64, encoded, law_decoding_undoes_encoding, law_encoded_is_ascii,
};
use crate::raster::{
    law_scaled_pixels_are_nearest, lemma_place_inside, rgba_len, scale_rgba_nearest, scaled,
};
use crate::text::{
    ascii, decimal, digits_value, law_ascii_keeps_codes, law_decimal_reads_back,
    lemma_decimal_digits, push_decimal, push_text,
};

verus! {

/// The most bytes, before base64, that the client takes in one sequence.
pub const IIP_SIZE_LIMIT: usize = 20_000_000;

/// The most pixels of an RGBA source; larger ones are scaled down. The client drops images of
/// 16,777,216 pixels and more, and this stays a little below.
pub const IIP_PIXEL_LIMIT: u64 = 16_000_000;

/// The image of one sequence.
pub enum IipSource<'a> {
    /// The bytes of a PNG file, passed on as they are.
    Png(&'a [u8]),
    /// RGBA pixels, which become a PNG file.
    Rgba { data: &'a [u8], width: u32, height: u32 },
}

/// `t` is the side `side` of an image, scaled down so that the image keeps its aspect ratio and
/// has at most [`IIP_PIXEL_LIMIT`] pixels, rounded down.
pub open spec fn is_scaled_side(side: int, other: int, t: int) -> bool {
    &&& 0 <= t
    &&& t * t * other <= side * IIP_PIXEL_LIMIT
    &&& (t + 1) * (t + 1) * other > side * IIP_PIXEL_LIMIT
}

/// One side of an image scaled down to the limit.
pub open spec fn scaled_side(side: int, other: int) -> int {
    choose|t: int| is_scaled_side(side, other, t)
}

/// The larger of a number and one.
pub open spec fn at_least_one(n: int) -> int {
    if n < 1 {
        1
    } else {
        n
    }
}

/// The size that an image is encoded at: its own while it fits the limit, and otherwise both
/// sides scaled down alike. A side that would vanish stays at one, and the other then takes all
/// that the limit allows.
pub open spec fn fitted(width: int, height: int) -> (int, int) {
    if width * height <= IIP_PIXEL_LIMIT {
        (width, height)
    } else {
        let w = at_least_one(scaled_side(width, height));
        let h = at_least_one(scaled_side(height, width));
        if w * h <= IIP_PIXEL_LIMIT {
            (w, h)
        } else if w == 1 {
            (w, IIP_PIXEL_LIMIT as int)
        } else {
            (IIP_PIXEL_LIMIT as int, h)
        }
    }
}

/// There is only one scaled side.
proof fn lemma_scaled_side_unique(side: int, other: int, t: int)
    requires
        0 < other,
        is_scaled_side(side, other, t),
    ensures
        scaled_side(side, other) == t,
{
    let s = scaled_side(side, other);
    assert(is_scaled_side(side, other, s));
    if s < t {
        assert((s + 1) * (s + 1) * other <= t * t * other) by (nonlinear_arith)
            requires
                0 <= s < t,
                0 < other,
        ;
    } else if t < s {
        assert((t + 1) * (t + 1) * other <= s * s * other) by (nonlinear_arith)
            requires
                0 <= t < s,
                0 < other,
        ;
    }
}

/// Scales one side of an image down to the limit.
fn scale_side(side: u32, other: u32) -> (t: u32)
    requires
        0 < other,
    ensures
        is_scaled_side(side as int, other as int, t as int),
        t == scaled_side(side as int, other as int),
{
    let area: u64 = side as u64 * IIP_PIXEL_LIMIT;
    let quotient: u64 = area / other as u64;
    let mut low: u64 = 0;
    let mut high: u64 = 0x1000_0000;
    while low + 1 < high
        invariant
            low < high <= 0x1000_0000,
            low * low <= quotient < high * high,
        decreases high - low,
    {
        let middle = low + (high - low) / 2;
        assert(middle * middle <= 0x1000_0000 * 0x1000_0000) by (nonlinear_arith)
            requires
                middle <= 0x1000_0000,
        ;
        if middle * middle <= quotient {
            low = middle;
        } else {
            high = middle;
        }
    }
    proof {
        let (a, o, q, t) = (area as int, other as int, quotient as int, low as int);
        assert(t * t * o <= a && (t + 1) * (t + 1) * o > a) by (nonlinear_arith)
            requires
                0 < o,
                0 <= t,
                q == a / o,
                t * t <= q < (t + 1) * (t + 1),
        ;
        lemma_scaled_side_unique(side as int, o, t);
    }
    low as u32
}

/// The size closest to the image's aspect ratio that has at most [`IIP_PIXEL_LIMIT`] pixels; an
/// image within the limit keeps its size.
pub fn fit_to_pixel_limit(width: u32, height: u32) -> (size: (u32, u32))
    ensures
        (size.0 as int, size.1 as int) == fitted(width as int, height as int),
{
    assert(width * height <= 0xFFFF_FFFF * 0xFFFF_FFFF) by (nonlinear_arith)
        requires
            0 <= width <= 0xFFFF_FFFF,
            0 <= height <= 0xFFFF_FFFF,
    ;
    let pixels: u64 = width as u64 * height as u64;
    if pixels <= IIP_PIXEL_LIMIT {
        return (width, height);
    }
    assert(0 < width && 0 < height) by (nonlinear_arith)
        requires
            width * height > 0,
            0 <= width,
            0 <= height,
    ;
    let mut target_w = scale_side(width, height);
    if target_w < 1 {
        target_w = 1;
    }
    let mut target_h = scale_side(height, width);
    if target_h < 1 {
        target_h = 1;
    }
    assert(target_w * target_h <= 0xFFFF_FFFF * 0xFFFF_FFFF) by (nonlinear_arith)
        requires
            0 <= target_w <= 0xFFFF_FFFF,
            0 <= target_h <= 0xFFFF_FFFF,
    ;
    if target_w as u64 * target_h as u64 <= IIP_PIXEL_LIMIT {
        (target_w, target_h)
    } else if target_w == 1 {
        (target_w, IIP_PIXEL_LIMIT as u32)
    } else {
        (IIP_PIXEL_LIMIT as u32, target_h)
    }
}

/// The sequence that shows a PNG file of these bytes over `cols` by `rows` cells.
pub open spec fn sequence_bytes(payload: Seq<u8>, cols: nat, rows: nat) -> Seq<u8> {
    ascii("\x1b]1337;File=inline=1;size="@) + decimal(payload.len()) + ascii(";width="@) + decimal(
        cols,
    ) + ascii(";height="@) + decimal(rows) + ascii(";preserveAspectRatio=0:"@) + ascii(
        encoded(payload),
    ) + ascii("\x1b\\"@)
}

/// The sequence, unless it would cover no cells or carry more than [`IIP_SIZE_LIMIT`] bytes.
pub open spec fn framed(payload: Seq<u8>, cols: nat, rows: nat) -> Option<Seq<u8>> {
    if cols == 0 || rows == 0 || payload.len() > IIP_SIZE_LIMIT {
        None
    } else {
        Some(sequence_bytes(payload, cols, rows))
    }
}

/// Frames the bytes of a PNG file as a complete sequence.
pub fn frame_payload(payload: &[u8], cols: u32, rows: u32) -> (out: Option<Vec<u8>>)
    ensures
        match out {
            Some(bytes) => framed(payload@, cols as nat, rows as nat) == Some(bytes@),
            None => framed(payload@, cols as nat, rows as nat) is None,
        },
{
    if cols == 0 || rows == 0 || payload.len() > IIP_SIZE_LIMIT {
        return None;
    }
    let text = encode_base64(payload);
    proof {
        law_encoded_is_ascii(payload@);
        reveal_strlit("\x1b]1337;File=inline=1;size=");
        reveal_strlit(";width=");
        reveal_strlit(";height=");
        reveal_strlit(";preserveAspectRatio=0:");
        reveal_strlit("\x1b\\");
    }
    let mut out: Vec<u8> = Vec::new();
    push_text(&mut out, "\x1b]1337;File=inline=1;size=");
    push_decimal(&mut out, payload.len() as u64);
    push_text(&mut out, ";width=");
    push_decimal(&mut out, cols as u64);
    push_text(&mut out, ";height=");
    push_decimal(&mut out, rows as u64);
    push_text(&mut out, ";preserveAspectRatio=0:");
    push_text(&mut out, text.as_str());
    push_text(&mut out, "\x1b\\");
    assert(out@ =~= sequence_bytes(payload@, cols as nat, rows as nat));
    Some(out)
}

/// The PNG file that the `png` crate's encoder writes for 8-bit RGBA pixels with its default
/// settings.
pub uninterp spec fn png_file(pixels: Seq<u8>, width: u32, height: u32) -> Seq<u8>;

/// Calls `png::Encoder::new`, sets 8-bit RGBA, and calls `write_header` and `write_image_data`.
/// With both sides positive and a buffer of the right length, writing into a vector is claimed
/// to succeed, and the file to depend on the pixels and the size alone. What the file looks like
/// is named, not described.
#[verifier::external_body]
fn write_png(pixels: &[u8], width: u32, height: u32) -> (file: Option<Vec<u8>>)
    requires
        0 < width,
        0 < height,
        pixels@.len() == width * height * 4,
    ensures
        file is Some,
        file->0@ == png_file(pixels@, width, height),
{
    let mut out = Vec::new();
    let mut encoder = png::Encoder::new(&mut out, width, height);
    encoder.set_color(png::ColorType::Rgba);
    encoder.set_depth(png::BitDepth::Eight);
    let mut writer = encoder.write_header().ok()?;
    writer.write_image_data(pixels).ok()?;
    drop(writer);
    Some(out)
}

/// The pixels that are encoded for an image: its own while it fits the limit, and otherwise the
/// nearest ones at the fitted size.
pub open spec fn fitted_pixels(rgba: Seq<u8>, width: int, height: int) -> Seq<u8> {
    if fitted(width, height) == (width, height) {
        rgba.take(width * height * 4)
    } else {
        scaled(rgba, width, height, fitted(width, height).0, fitted(width, height).1)
    }
}

/// The PNG file of an image: none when a side is zero or the buffer is short.
pub open spec fn rgba_png(rgba: Seq<u8>, width: int, height: int) -> Option<Seq<u8>> {
    if width == 0 || height == 0 || rgba.len() < width * height * 4 {
        None
    } else {
        Some(
            png_file(
                fitted_pixels(rgba, width, height),
                fitted(width, height).0 as u32,
                fitted(width, height).1 as u32,
            ),
        )
    }
}

/// Makes a PNG file of an RGBA buffer, scaled down to fit [`IIP_PIXEL_LIMIT`] first.
pub fn encode_rgba_png(rgba: &[u8], width: u32, height: u32) -> (file: Option<Vec<u8>>)
    ensures
        match file {
            Some(bytes) => rgba_png(rgba@, width as int, height as int) == Some(bytes@),
            None => rgba_png(rgba@, width as int, height as int) is None,
        },
{
    if width == 0 || height == 0 {
        return None;
    }
    let expected = match rgba_len(width, height) {
        Some(expected) => expected,
        None => {
            assert(rgba@.len() == rgba.len());
            return None;
        },
    };
    if rgba.len() < expected {
        return None;
    }
    let (target_w, target_h) = fit_to_pixel_limit(width, height);
    proof {
        law_fitted_size_is_within_limit(width as int, height as int);
    }
    if width == target_w && height == target_h {
        let pixels = vstd::slice::slice_subrange(rgba, 0, expected);
        assert(pixels@ =~= fitted_pixels(rgba@, width as int, height as int));
        write_png(pixels, target_w, target_h)
    } else {
        let pixels = scale_rgba_nearest(rgba, width, height, target_w, target_h);
        write_png(&pixels, target_w, target_h)
    }
}

/// The sequence for an image.
pub open spec fn iip_sequence(source: IipSource<'_>, cols: nat, rows: nat) -> Option<Seq<u8>> {
    match source {
        IipSource::Png(bytes) => if bytes@.len() == 0 {
            None
        } else {
            framed(bytes@, cols, rows)
        },
        IipSource::Rgba { data, width, height } => match rgba_png(
            data@,
            width as int,
            height as int,
        ) {
            Some(file) => framed(file, cols, rows),
            None => None,
        },
    }
}

/// Encodes an image as a complete sequence:
/// `ESC ] 1337 ; File=inline=1;size=<bytes>;width=<cols>;height=<rows>;preserveAspectRatio=0 : <base64> ESC \`
///
/// `cols` and `rows` count cells. There is no sequence for degenerate input (a zero dimension,
/// no cells, no data, a short buffer), nor for a payload beyond [`IIP_SIZE_LIMIT`].
pub fn encode_iip(source: IipSource<'_>, cols: u32, rows: u32) -> (out: Option<Vec<u8>>)
    ensures
        match out {
            Some(bytes) => iip_sequence(source, cols as nat, rows as nat) == Some(bytes@),
            None => iip_sequence(source, cols as nat, rows as nat) is None,
        },
{
    if cols == 0 || rows == 0 {
        return None;
    }
    match source {
        IipSource::Png(bytes) => {
            if bytes.len() == 0 {
                return None;
            }
            frame_payload(bytes, cols, rows)
        },
        IipSource::Rgba { data, width, height } => {
            match encode_rgba_png(data, width, height) {
                Some(file) => frame_payload(&file, cols, rows),
                None => None,
            }
        },
    }
}

/// Some number is the scaled side.
proof fn lemma_scaled_side_exists(side: int, other: int, from: int)
    requires
        0 < side,
        0 < other,
        0 <= from,
        from * from * other <= side * IIP_PIXEL_LIMIT,
    ensures
        is_scaled_side(side, other, scaled_side(side, other)),
    decreases side * IIP_PIXEL_LIMIT + 1 - from,
{
    let area = side * IIP_PIXEL_LIMIT;
    assert(from <= from * from * other) by (nonlinear_arith)
        requires
            0 <= from,
            0 < other,
    ;
    if (from + 1) * (from + 1) * other > area {
        assert(is_scaled_side(side, other, from));
    } else {
        lemma_scaled_side_exists(side, other, from + 1);
    }
}

/// A scaled side is shorter than the image's, and vanishes only when the other one is longer
/// than the limit.
proof fn lemma_scaled_side_bound(side: int, other: int)
    requires
        0 < side,
        0 < other,
        side * other > IIP_PIXEL_LIMIT,
    ensures
        is_scaled_side(side, other, scaled_side(side, other)),
        scaled_side(side, other) < side,
        scaled_side(side, other) == 0 ==> other > IIP_PIXEL_LIMIT,
{
    let limit = IIP_PIXEL_LIMIT as int;
    lemma_scaled_side_exists(side, other, 0);
    let t = scaled_side(side, other);
    if t >= side {
        assert(t * t * other >= side * side * other) by (nonlinear_arith)
            requires
                t >= side > 0,
                0 < other,
        ;
        assert(side * side * other > side * limit) by (nonlinear_arith)
            requires
                side * other > limit,
                side > 0,
        ;
    }
    if t == 0 {
        assert(side * limit >= limit) by (nonlinear_arith)
            requires
                side > 0,
                limit >= 0,
        ;
        assert((t + 1) * (t + 1) * other == other) by (nonlinear_arith)
            requires
                t == 0,
        ;
    }
}

/// The two scaled sides span at most the limit.
proof fn lemma_scaled_sides_fit(width: int, height: int, w: int, h: int)
    requires
        0 < width,
        0 < height,
        is_scaled_side(width, height, w),
        is_scaled_side(height, width, h),
    ensures
        w * h <= IIP_PIXEL_LIMIT,
{
    let limit = IIP_PIXEL_LIMIT as int;
    if w * h > limit {
        let area = width * height;
        assert(area > 0) by (nonlinear_arith)
            requires
                0 < width,
                0 < height,
                area == width * height,
        ;
        assert((w * w * height) * (h * h * width) <= (width * limit) * (height * limit))
            by (nonlinear_arith)
            requires
                0 <= w * w * height <= width * limit,
                0 <= h * h * width <= height * limit,
        {
            let (a, b, c, d) = (w * w * height, h * h * width, width * limit, height * limit);
            assert(a * b <= c * b) by (nonlinear_arith)
                requires
                    0 <= a <= c,
                    0 <= b,
            ;
            assert(c * b <= c * d) by (nonlinear_arith)
                requires
                    0 <= b <= d,
                    0 <= c,
            ;
        }
        assert((w * w * height) * (h * h * width) == (w * h) * (w * h) * area) by (nonlinear_arith)
            requires
                area == width * height,
        ;
        assert((width * limit) * (height * limit) == limit * limit * area) by (nonlinear_arith)
            requires
                area == width * height,
        ;
        let p = w * h;
        assert(p * p * area > limit * limit * area) by (nonlinear_arith)
            requires
                p > limit,
                limit >= 0,
                area > 0,
        ;
    }
}

/// A fitted size has at least one pixel, at most [`IIP_PIXEL_LIMIT`] of them, and no side longer
/// than the image's own.
pub proof fn law_fitted_size_is_within_limit(width: int, height: int)
    requires
        0 < width,
        0 < height,
    ensures
        1 <= fitted(width, height).0 <= width,
        1 <= fitted(width, height).1 <= height,
        fitted(width, height).0 * fitted(width, height).1 <= IIP_PIXEL_LIMIT,
{
    if width * height > IIP_PIXEL_LIMIT {
        assert(width * height == height * width) by (nonlinear_arith);
        lemma_scaled_side_bound(width, height);
        lemma_scaled_side_bound(height, width);
        lemma_scaled_sides_fit(
            width,
            height,
            scaled_side(width, height),
            scaled_side(height, width),
        );
    }
}

/// A size that was scaled down has the image's aspect ratio to within one pixel on either side,
/// unless a side would have vanished.
pub proof fn law_fitted_size_keeps_aspect_ratio(width: int, height: int)
    requires
        0 < width,
        0 < height,
        width * height <= IIP_PIXEL_LIMIT || scaled_side(width, height) > 0 && scaled_side(
            height,
            width,
        ) > 0,
    ensures
        ({
            let (w, h) = fitted(width, height);
            &&& w * height < (h + 1) * width
            &&& h * width < (w + 1) * height
        }),
{
    let (w, h) = fitted(width, height);
    if width * height <= IIP_PIXEL_LIMIT {
        assert(w * height < (h + 1) * width && h * width < (w + 1) * height) by (nonlinear_arith)
            requires
                w == width,
                h == height,
                0 < width,
                0 < height,
        ;
    } else {
        assert(width * height == height * width) by (nonlinear_arith);
        lemma_scaled_side_bound(width, height);
        lemma_scaled_side_bound(height, width);
        lemma_scaled_sides_fit(
            width,
            height,
            scaled_side(width, height),
            scaled_side(height, width),
        );
        lemma_sides_agree(width, height, w, h);
        lemma_sides_agree(height, width, h, w);
    }
}

/// A size that was scaled down is the largest: an image of the same aspect ratio with either side
/// one pixel longer has more than [`IIP_PIXEL_LIMIT`] pixels.
pub proof fn law_fitted_size_is_largest(width: int, height: int)
    requires
        0 < width,
        0 < height,
        width * height > IIP_PIXEL_LIMIT,
    ensures
        ({
            let (w, h) = fitted(width, height);
            &&& (w + 1) * (w + 1) * height > width * IIP_PIXEL_LIMIT || w == IIP_PIXEL_LIMIT
            &&& (h + 1) * (h + 1) * width > height * IIP_PIXEL_LIMIT || h == IIP_PIXEL_LIMIT
        }),
{
    assert(width * height == height * width) by (nonlinear_arith);
    lemma_scaled_side_bound(width, height);
    lemma_scaled_side_bound(height, width);
    lemma_one_pixel_is_too_many(width, height, scaled_side(width, height));
    lemma_one_pixel_is_too_many(height, width, scaled_side(height, width));
}

/// A side that vanishes is too long at one pixel already.
proof fn lemma_one_pixel_is_too_many(side: int, other: int, t: int)
    requires
        0 < other,
        is_scaled_side(side, other, t),
    ensures
        (at_least_one(t) + 1) * (at_least_one(t) + 1) * other > side * IIP_PIXEL_LIMIT,
{
    if t == 0 {
        assert((t + 1) * (t + 1) * other <= 2 * 2 * other) by (nonlinear_arith)
            requires
                t == 0,
                0 < other,
        ;
    }
}

proof fn lemma_sides_agree(width: int, height: int, w: int, h: int)
    requires
        0 < width,
        0 < height,
        is_scaled_side(width, height, w),
        is_scaled_side(height, width, h),
    ensures
        w * height < (h + 1) * width,
{
    let limit = IIP_PIXEL_LIMIT as int;
    let (a, b) = (w * height, (h + 1) * width);
    assert(a * a <= width * limit * height) by (nonlinear_arith)
        requires
            a == w * height,
            w * w * height <= width * limit,
            0 < height,
    ;
    assert(b * b > height * limit * width) by (nonlinear_arith)
        requires
            b == (h + 1) * width,
            (h + 1) * (h + 1) * width > height * limit,
            0 < width,
    ;
    assert(width * limit * height == height * limit * width) by (nonlinear_arith);
    assert(a < b) by (nonlinear_arith)
        requires
            a * a < b * b,
            0 <= b,
            0 <= a,
    ;
}

/// Bytes that a terminal takes as text, without control characters.
pub open spec fn is_printable(bytes: Seq<u8>) -> bool {
    forall|i: int| 0 <= i < bytes.len() ==> 32 <= #[trigger] bytes[i] < 127
}

/// Position `k` is the first with this byte.
pub open spec fn is_first(bytes: Seq<u8>, byte: u8, k: int) -> bool {
    &&& 0 <= k < bytes.len()
    &&& bytes[k] == byte
    &&& forall|i: int| 0 <= i < k ==> #[trigger] bytes[i] != byte
}

/// What a client takes as the payload: all that stands between the first `:` and the two bytes
/// of the terminator.
pub open spec fn payload_text(sequence: Seq<u8>) -> Seq<u8> {
    let colon = choose|k: int| is_first(sequence, 58, k);
    sequence.subrange(colon + 1, sequence.len() - 2)
}

/// The arguments of a sequence, up to the `:`.
spec fn arguments(payload: Seq<u8>, cols: nat, rows: nat) -> Seq<u8> {
    ascii("\x1b]1337;File=inline=1;size="@) + decimal(payload.len()) + ascii(";width="@) + decimal(
        cols,
    ) + ascii(";height="@) + decimal(rows) + ascii(";preserveAspectRatio=0:"@)
}

proof fn lemma_arguments(payload: Seq<u8>, cols: nat, rows: nat)
    ensures
        ({
            let head = arguments(payload, cols, rows);
            &&& head.len() > 1
            &&& head[0] == 27
            &&& is_printable(head.skip(1))
            &&& is_first(head, 58, head.len() - 1)
        }),
{
    reveal_strlit("\x1b]1337;File=inline=1;size=");
    reveal_strlit(";width=");
    reveal_strlit(";height=");
    reveal_strlit(";preserveAspectRatio=0:");
    lemma_decimal_digits(payload.len());
    lemma_decimal_digits(cols);
    lemma_decimal_digits(rows);
    let a = ascii("\x1b]1337;File=inline=1;size="@);
    let b = ascii(";width="@);
    let c = ascii(";height="@);
    let d = ascii(";preserveAspectRatio=0:"@);
    assert(plain(a.skip(1)) && plain(b) && plain(c) && plain(d.drop_last()));
    let head = arguments(payload, cols, rows);
    assert(head.skip(1).drop_last() =~= a.skip(1) + decimal(payload.len()) + b + decimal(cols) + c
        + decimal(rows) + d.drop_last());
    assert(plain(head.skip(1).drop_last()));
    assert(head.last() == 58);
    assert forall|i: int| 0 < i < head.len() - 1 implies 32 <= #[trigger] head[i] < 127 && head[i]
        != 58 by {
        assert(head[i] == head.skip(1).drop_last()[i - 1]);
    }
}

/// Printable bytes without a `:`.
spec fn plain(bytes: Seq<u8>) -> bool {
    forall|i: int| 0 <= i < bytes.len() ==> 32 <= #[trigger] bytes[i] < 127 && bytes[i] != 58
}

proof fn lemma_encoded_is_printable(bytes: Seq<u8>)
    ensures
        is_printable(ascii(encoded(bytes))),
    decreases bytes.len(),
{
    if bytes.len() > 2 {
        lemma_encoded_is_printable(bytes.skip(3));
        let text = encoded(bytes);
        assert forall|i: int| 0 <= i < text.len() implies 32 <= #[trigger] ascii(text)[i] < 127 by {
            if i >= 4 {
                assert(text[i] == encoded(bytes.skip(3))[i - 4]);
                assert(ascii(encoded(bytes.skip(3)))[i - 4] == ascii(text)[i]);
            }
        }
    }
}

/// A sequence is one control string: it starts with the escape character, holds nothing but
/// printable characters, and ends with the string terminator.
pub proof fn law_sequence_is_one_control_string(payload: Seq<u8>, cols: nat, rows: nat)
    ensures
        ({
            let sequence = sequence_bytes(payload, cols, rows);
            &&& sequence.len() > 3
            &&& sequence[0] == 27
            &&& is_printable(sequence.subrange(1, sequence.len() - 2))
            &&& sequence.skip(sequence.len() - 2) == seq![27u8, 92u8]
        }),
{
    lemma_arguments(payload, cols, rows);
    lemma_encoded_is_printable(payload);
    reveal_strlit("\x1b\\");
    let head = arguments(payload, cols, rows);
    let text = ascii(encoded(payload));
    let sequence = sequence_bytes(payload, cols, rows);
    assert(sequence =~= head + text + seq![27u8, 92u8]);
    assert(sequence.subrange(1, sequence.len() - 2) =~= head.skip(1) + text);
    assert(sequence.skip(sequence.len() - 2) =~= seq![27u8, 92u8]);
}

/// The payload of a sequence is base64 text that decodes to the bytes that were framed.
pub proof fn law_payload_is_recovered(payload: Seq<u8>, cols: nat, rows: nat)
    ensures
        payload_text(sequence_bytes(payload, cols, rows)) == ascii(encoded(payload)),
        decoded(encoded(payload)) == Some(payload),
{
    lemma_arguments(payload, cols, rows);
    reveal_strlit("\x1b\\");
    let head = arguments(payload, cols, rows);
    let text = ascii(encoded(payload));
    let sequence = sequence_bytes(payload, cols, rows);
    assert(sequence =~= head + text + seq![27u8, 92u8]);
    let k = head.len() - 1;
    assert(is_first(sequence, 58, k)) by {
        assert forall|i: int| 0 <= i < k implies #[trigger] sequence[i] != 58 by {
            assert(sequence[i] == head[i]);
        }
    }
    let colon = choose|k: int| is_first(sequence, 58, k);
    assert(colon == k) by {
        if colon < k {
            assert(sequence[colon] != 58);
        } else if k < colon {
            assert(sequence[k] != 58);
        }
    }
    assert(sequence.subrange(colon + 1, sequence.len() - 2) =~= text);
    law_decoding_undoes_encoding(payload);
}

/// A text cut at every separator.
pub open spec fn split_at(text: Seq<u8>, separator: u8) -> Seq<Seq<u8>>
    decreases text.len(),
{
    if exists|k: int| is_first(text, separator, k) {
        let k = choose|k: int| is_first(text, separator, k);
        seq![text.take(k)] + split_at(text.skip(k + 1), separator)
    } else {
        seq![text]
    }
}

/// The field is `key=number`, with the number in decimal digits.
pub open spec fn is_number_field(field: Seq<u8>, key: Seq<u8>, number: int) -> bool {
    let n = key.len() as int;
    &&& field.len() > n + 1
    &&& field.take(n) == key
    &&& field[n] == 61
    &&& forall|i: int| n < i < field.len() ==> 48 <= #[trigger] field[i] <= 57
    &&& digits_value(field.skip(n + 1)) == number
}

/// The text does not have this byte.
spec fn lacks(text: Seq<u8>, byte: u8) -> bool {
    forall|i: int| 0 <= i < text.len() ==> #[trigger] text[i] != byte
}

proof fn lemma_split_first(head: Seq<u8>, rest: Seq<u8>, separator: u8)
    requires
        lacks(head, separator),
    ensures
        split_at(head + seq![separator] + rest, separator) == seq![head] + split_at(
            rest,
            separator,
        ),
{
    let text = head + seq![separator] + rest;
    let n = head.len() as int;
    assert(is_first(text, separator, n)) by {
        assert forall|i: int| 0 <= i < n implies #[trigger] text[i] != separator by {
            assert(text[i] == head[i]);
        }
    }
    let k = choose|k: int| is_first(text, separator, k);
    if k < n {
        assert(text[k] != separator);
    } else if n < k {
        assert(text[n] != separator);
    }
    assert(text.take(k) =~= head);
    assert(text.skip(k + 1) =~= rest);
}

proof fn lemma_split_none(text: Seq<u8>, separator: u8)
    requires
        lacks(text, separator),
    ensures
        split_at(text, separator) == seq![text],
{
    assert forall|k: int| !is_first(text, separator, k) by {
        if is_first(text, separator, k) {
            assert(text[k] != separator);
        }
    }
}

proof fn lemma_number_field(key: Seq<u8>, number: nat)
    requires
        lacks(key, 59),
        lacks(key, 58),
    ensures
        is_number_field(number_field(key, number), key, number as int),
        lacks(number_field(key, number), 59),
        lacks(number_field(key, number), 58),
{
    law_decimal_reads_back(number);
    let field = number_field(key, number);
    let n = key.len() as int;
    assert(field.take(n) =~= key);
    assert(field.skip(n + 1) =~= decimal(number));
    assert forall|i: int| n < i < field.len() implies 48 <= #[trigger] field[i] <= 57 by {
        assert(field[i] == decimal(number)[i - n - 1]);
    }
    assert forall|i: int| 0 <= i < field.len() implies #[trigger] field[i] != 59 && field[i]
        != 58 by {
        if i < n {
            assert(field[i] == key[i]);
        }
    }
}

spec fn file_start() -> Seq<u8> {
    seq![27u8, 93u8, 49u8, 51u8, 51u8, 55u8, 59u8, 70u8, 105u8, 108u8, 101u8, 61u8]
}

spec fn inline_field() -> Seq<u8> {
    seq![105u8, 110u8, 108u8, 105u8, 110u8, 101u8, 61u8, 49u8]
}

spec fn size_key() -> Seq<u8> {
    seq![115u8, 105u8, 122u8, 101u8]
}

spec fn width_key() -> Seq<u8> {
    seq![119u8, 105u8, 100u8, 116u8, 104u8]
}

spec fn height_key() -> Seq<u8> {
    seq![104u8, 101u8, 105u8, 103u8, 104u8, 116u8]
}

spec fn aspect_field() -> Seq<u8> {
    seq![
        112u8, 114u8, 101u8, 115u8, 101u8, 114u8, 118u8, 101u8, 65u8, 115u8, 112u8, 101u8, 99u8,
        116u8, 82u8, 97u8, 116u8, 105u8, 111u8, 61u8, 48u8,
    ]
}

/// The fields of a header, with `;` between them.
spec fn joined(a: Seq<u8>, b: Seq<u8>, c: Seq<u8>, d: Seq<u8>, e: Seq<u8>) -> Seq<u8> {
    a + seq![59u8] + (b + seq![59u8] + (c + seq![59u8] + (d + seq![59u8] + e)))
}

/// The field `key=number`.
spec fn number_field(key: Seq<u8>, number: nat) -> Seq<u8> {
    key + seq![61u8] + decimal(number)
}

/// The header of a sequence.
spec fn header_text(payload: Seq<u8>, cols: nat, rows: nat) -> Seq<u8> {
    joined(
        inline_field(),
        number_field(size_key(), payload.len()),
        number_field(width_key(), cols),
        number_field(height_key(), rows),
        aspect_field(),
    )
}

#[verifier::spinoff_prover]
proof fn lemma_literals()
    ensures
        ascii("\x1b]1337;File=inline=1;size="@) == file_start() + inline_field() + seq![59u8]
            + size_key() + seq![61u8],
        ascii(";width="@) == seq![59u8] + width_key() + seq![61u8],
        ascii(";height="@) == seq![59u8] + height_key() + seq![61u8],
        ascii(";preserveAspectRatio=0:"@) == seq![59u8] + aspect_field() + seq![58u8],
        ascii("\x1b\\"@) == seq![27u8, 92u8],
{
    reveal_strlit("\x1b]1337;File=inline=1;size=");
    reveal_strlit(";width=");
    reveal_strlit(";height=");
    reveal_strlit(";preserveAspectRatio=0:");
    reveal_strlit("\x1b\\");
    assert(ascii("\x1b]1337;File=inline=1;size="@) =~= file_start() + inline_field() + seq![59u8]
        + size_key() + seq![61u8]);
    assert(ascii(";width="@) =~= seq![59u8] + width_key() + seq![61u8]);
    assert(ascii(";height="@) =~= seq![59u8] + height_key() + seq![61u8]);
    assert(ascii(";preserveAspectRatio=0:"@) =~= seq![59u8] + aspect_field() + seq![58u8]);
    assert(ascii("\x1b\\"@) =~= seq![27u8, 92u8]);
}

/// A sequence is made of its start, its header, a `:`, its payload and the terminator.
#[verifier::spinoff_prover]
proof fn lemma_sequence_parts(payload: Seq<u8>, cols: nat, rows: nat)
    ensures
        sequence_bytes(payload, cols, rows) == file_start() + header_text(payload, cols, rows)
            + seq![58u8] + ascii(encoded(payload)) + seq![27u8, 92u8],
{
    lemma_literals();
    assert(sequence_bytes(payload, cols, rows) =~= file_start() + header_text(payload, cols, rows)
        + seq![58u8] + ascii(encoded(payload)) + seq![27u8, 92u8]);
}

/// Cutting joined fields gives the fields.
proof fn lemma_split_joined(a: Seq<u8>, b: Seq<u8>, c: Seq<u8>, d: Seq<u8>, e: Seq<u8>)
    requires
        lacks(a, 59),
        lacks(b, 59),
        lacks(c, 59),
        lacks(d, 59),
        lacks(e, 59),
    ensures
        split_at(joined(a, b, c, d, e), 59) == seq![a, b, c, d, e],
{
    let s = seq![59u8];
    lemma_split_none(e, 59);
    lemma_split_first(d, e, 59);
    lemma_split_first(c, d + s + e, 59);
    lemma_split_first(b, c + s + (d + s + e), 59);
    lemma_split_first(a, b + s + (c + s + (d + s + e)), 59);
    assert(split_at(joined(a, b, c, d, e), 59) =~= seq![a, b, c, d, e]);
}

/// The header has no `:`, and its fields no `;`.
#[verifier::spinoff_prover]
proof fn lemma_header_text(payload: Seq<u8>, cols: nat, rows: nat)
    ensures
        lacks(header_text(payload, cols, rows), 58),
        split_at(header_text(payload, cols, rows), 59) == seq![
            inline_field(),
            number_field(size_key(), payload.len()),
            number_field(width_key(), cols),
            number_field(height_key(), rows),
            aspect_field(),
        ],
        is_number_field(
            number_field(size_key(), payload.len()),
            size_key(),
            payload.len() as int,
        ),
        is_number_field(number_field(width_key(), cols), width_key(), cols as int),
        is_number_field(number_field(height_key(), rows), height_key(), rows as int),
{
    lemma_number_field(size_key(), payload.len());
    lemma_number_field(width_key(), cols);
    lemma_number_field(height_key(), rows);
    lemma_split_joined(
        inline_field(),
        number_field(size_key(), payload.len()),
        number_field(width_key(), cols),
        number_field(height_key(), rows),
        aspect_field(),
    );
}

/// Base64 text is read from its bytes.
proof fn lemma_text_from_bytes(payload: Seq<u8>, text: Seq<char>)
    requires
        text.len() == encoded(payload).len(),
        forall|i: int|
            0 <= i < text.len() ==> #[trigger] text[i] == ascii(encoded(payload))[i] as char,
    ensures
        decoded(text) == Some(payload),
{
    law_encoded_is_ascii(payload);
    assert forall|i: int| 0 <= i < text.len() implies text[i] == encoded(payload)[i] by {
        law_ascii_keeps_codes(encoded(payload), i);
    }
    assert(text =~= encoded(payload));
    law_decoding_undoes_encoding(payload);
}

proof fn lemma_start()
    ensures
        file_start().len() == 12,
        lacks(file_start(), 58),
{
}

/// The parts of a sequence are found by its first `:`.
proof fn lemma_parts_are_found(
    start: Seq<u8>,
    header: Seq<u8>,
    body: Seq<u8>,
    sequence: Seq<u8>,
)
    requires
        sequence == start + header + seq![58u8] + body + seq![27u8, 92u8],
        start.len() == 12,
        lacks(start, 58),
        lacks(header, 58),
    ensures
        ({
            let colon = 12 + header.len() as int;
            &&& sequence.len() == 15 + header.len() + body.len()
            &&& sequence.take(12) == start
            &&& sequence.subrange(12, colon) == header
            &&& is_first(sequence, 58, colon)
            &&& forall|i: int| 0 <= i < body.len() ==> #[trigger] sequence[colon + 1 + i] == body[i]
            &&& sequence[sequence.len() - 2] == 27
            &&& sequence[sequence.len() - 1] == 92
        }),
{
    let colon = 12 + header.len() as int;
    assert(sequence.take(12) =~= start);
    assert(sequence.subrange(12, colon) =~= header);
    assert forall|i: int| 0 <= i < colon implies #[trigger] sequence[i] != 58 by {
        if i < 12 {
            assert(sequence[i] == start[i]);
        } else {
            assert(sequence[i] == header[i - 12]);
        }
    }
}

/// A client that reads a sequence with its first `:` at `colon` finds the truth in it. Behind
/// `ESC ] 1337 ; File =` and up to the `:` stand five fields with `;` between them: `inline=1`,
/// `size` with the number of bytes that the payload decodes to, `width` with the number of
/// columns, `height` with the number of rows, and `preserveAspectRatio=0`. The text behind the
/// `:`, up to the terminator `ESC \`, decodes to the payload.
pub open spec fn is_honest(
    sequence: Seq<u8>,
    payload: Seq<u8>,
    cols: nat,
    rows: nat,
    colon: int,
) -> bool {
    let fields = split_at(sequence.subrange(12, colon), 59);
    let text = Seq::new(
        (sequence.len() - 3 - colon) as nat,
        |i: int| sequence[colon + 1 + i] as char,
    );
    &&& sequence.take(12)
        == seq![27u8, 93u8, 49u8, 51u8, 51u8, 55u8, 59u8, 70u8, 105u8, 108u8, 101u8, 61u8]
    &&& 12 <= colon
    &&& is_first(sequence, 58, colon)
    &&& fields.len() == 5
    &&& fields[0] == seq![105u8, 110u8, 108u8, 105u8, 110u8, 101u8, 61u8, 49u8]
    &&& is_number_field(fields[1], seq![115u8, 105u8, 122u8, 101u8], payload.len() as int)
    &&& is_number_field(fields[2], seq![119u8, 105u8, 100u8, 116u8, 104u8], cols as int)
    &&& is_number_field(fields[3], seq![104u8, 101u8, 105u8, 103u8, 104u8, 116u8], rows as int)
    &&& fields[4] == seq![
        112u8, 114u8, 101u8, 115u8, 101u8, 114u8, 118u8, 101u8, 65u8, 115u8, 112u8, 101u8, 99u8,
        116u8, 82u8, 97u8, 116u8, 105u8, 111u8, 61u8, 48u8,
    ]
    &&& colon + 3 <= sequence.len()
    &&& decoded(text) == Some(payload)
    &&& sequence[sequence.len() - 2] == 27
    &&& sequence[sequence.len() - 1] == 92
}

#[verifier::spinoff_prover]
proof fn lemma_honest(
    sequence: Seq<u8>,
    payload: Seq<u8>,
    cols: nat,
    rows: nat,
    header: Seq<u8>,
    size: Seq<u8>,
    width: Seq<u8>,
    height: Seq<u8>,
)
    requires
        sequence == file_start() + header + seq![58u8] + ascii(encoded(payload))
            + seq![27u8, 92u8],
        lacks(header, 58),
        split_at(header, 59) == seq![inline_field(), size, width, height, aspect_field()],
        is_number_field(size, size_key(), payload.len() as int),
        is_number_field(width, width_key(), cols as int),
        is_number_field(height, height_key(), rows as int),
    ensures
        is_honest(sequence, payload, cols, rows, 12 + header.len() as int),
{
    let body = ascii(encoded(payload));
    let colon = 12 + header.len() as int;
    lemma_start();
    lemma_parts_are_found(file_start(), header, body, sequence);
    let text = Seq::new(
        (sequence.len() - 3 - colon) as nat,
        |i: int| sequence[colon + 1 + i] as char,
    );
    lemma_text_from_bytes(payload, text);
}

/// Every sequence is honest.
#[verifier::spinoff_prover]
pub proof fn law_header_is_honest(payload: Seq<u8>, cols: nat, rows: nat) -> (colon: int)
    ensures
        is_honest(sequence_bytes(payload, cols, rows), payload, cols, rows, colon),
{
    let header = header_text(payload, cols, rows);
    lemma_sequence_parts(payload, cols, rows);
    lemma_header_text(payload, cols, rows);
    lemma_honest(
        sequence_bytes(payload, cols, rows),
        payload,
        cols,
        rows,
        header,
        number_field(size_key(), payload.len()),
        number_field(width_key(), cols),
        number_field(height_key(), rows),
    );
    12 + header.len() as int
}

/// The size that an image is encoded at, by its own size alone. An image of at most 16,000,000
/// pixels keeps it. A larger one has both sides scaled by the same factor, down to that many
/// pixels, and rounded down: the square of a side is to that of the image's side as the limit is
/// to the image's pixels. Where a side would be shorter than one pixel it is one, and the other
/// is 16,000,000.
pub proof fn law_fitted_size_by_proportion(width: int, height: int)
    requires
        0 < width,
        0 < height,
    ensures
        ({
            let (w, h) = fitted(width, height);
            if width * height <= 16_000_000 {
                w == width && h == height
            } else if height > width * 16_000_000 {
                w == 1 && h == 16_000_000
            } else if width > height * 16_000_000 {
                w == 16_000_000 && h == 1
            } else {
                &&& w * w * height <= width * 16_000_000 < (w + 1) * (w + 1) * height
                &&& h * h * width <= height * 16_000_000 < (h + 1) * (h + 1) * width
                &&& 1 <= w
                &&& 1 <= h
            }
        }),
{
    if width * height > 16_000_000 {
        assert(width * height == height * width) by (nonlinear_arith);
        lemma_scaled_side_bound(width, height);
        lemma_scaled_side_bound(height, width);
        let w = scaled_side(width, height);
        let h = scaled_side(height, width);
        lemma_scaled_sides_fit(width, height, w, h);
        lemma_vanishing_side(width, height, w);
        lemma_vanishing_side(height, width, h);
        if w == 0 {
            lemma_other_side_is_long(height, width, h);
        } else if h == 0 {
            lemma_other_side_is_long(width, height, w);
        }
    }
}

/// A side vanishes exactly if the other is more than the limit times as long.
proof fn lemma_vanishing_side(side: int, other: int, t: int)
    requires
        0 < side,
        0 < other,
        is_scaled_side(side, other, t),
    ensures
        t == 0 <==> other > side * 16_000_000,
{
    if t == 0 {
        assert((t + 1) * (t + 1) * other == other) by (nonlinear_arith)
            requires
                t == 0,
        ;
    } else {
        assert(t * t * other >= other) by (nonlinear_arith)
            requires
                t >= 1,
                other > 0,
        ;
    }
}

/// Where a side vanishes, the other reaches the limit.
proof fn lemma_other_side_is_long(side: int, other: int, t: int)
    requires
        0 < side,
        0 < other,
        side > other * 16_000_000,
        is_scaled_side(side, other, t),
    ensures
        t >= 16_000_000,
{
    if t < 16_000_000 {
        let n = t + 1;
        assert(n * n * other <= 256_000_000_000_000 * other) by (nonlinear_arith)
            requires
                0 <= n <= 16_000_000,
                0 < other,
        ;
        assert(side * IIP_PIXEL_LIMIT > 256_000_000_000_000 * other);
    }
}

/// A PNG file passes through untouched: there is a sequence exactly if there are cells to cover
/// and the file has from 1 to 20,000,000 bytes, and its payload is the file.
pub proof fn law_png_files_pass_through(bytes: &[u8], cols: nat, rows: nat)
    ensures
        iip_sequence(IipSource::Png(bytes), cols, rows) is Some <==> cols > 0 && rows > 0
            && 1 <= bytes@.len() <= 20_000_000,
        iip_sequence(IipSource::Png(bytes), cols, rows) matches Some(sequence) ==> sequence
            == sequence_bytes(bytes@, cols, rows),
{
}

/// RGBA pixels become the PNG file of the image at its fitted size, every byte of every pixel
/// taken from the source pixel on which the target pixel's corner falls. There is a sequence
/// exactly if there are cells to cover, no side is zero, the buffer is not short, and the file
/// has at most 20,000,000 bytes; its payload is the file.
pub proof fn law_rgba_pixels_become_a_png_file(
    source: IipSource<'_>,
    cols: nat,
    rows: nat,
    x: int,
    y: int,
    k: int,
) -> (found: (Seq<u8>, int, int))
    requires
        source is Rgba,
    ensures
        ({
            let (data, width, height) = (
                source->data@,
                source->width as int,
                source->height as int,
            );
            let (w, h) = fitted(width, height);
            let (pixels, sx, sy) = found;
            let file = png_file(pixels, w as u32, h as u32);
            let whole = width > 0 && height > 0 && data.len() >= width * height * 4;
            &&& iip_sequence(source, cols, rows) is Some <==> whole && cols > 0 && rows > 0
                && file.len() <= 20_000_000
            &&& iip_sequence(source, cols, rows) matches Some(sequence) ==> sequence
                == sequence_bytes(file, cols, rows)
            &&& whole ==> pixels.len() == w * h * 4
            &&& whole && 0 <= x < w && 0 <= y < h && 0 <= k < 4 ==> {
                &&& 0 <= sx < width
                &&& 0 <= sy < height
                &&& sx * w <= x * width < (sx + 1) * w
                &&& sy * h <= y * height < (sy + 1) * h
                &&& pixels[(y * w + x) * 4 + k] == data[(sy * width + sx) * 4 + k]
            }
        }),
{
    let (data, width, height) = (source->data@, source->width as int, source->height as int);
    let (w, h) = fitted(width, height);
    let pixels = fitted_pixels(data, width, height);
    if width > 0 && height > 0 && data.len() >= width * height * 4 {
        law_fitted_size_is_within_limit(width, height);
        assert(0 <= w * h) by (nonlinear_arith)
            requires
                0 <= w,
                0 <= h,
        ;
        if 0 <= x < w && 0 <= y < h && 0 <= k < 4 {
            if (w, h) == (width, height) {
                lemma_place_inside(w, h, x, y);
                assert(x * w <= x * width < (x + 1) * w && y * h <= y * height < (y + 1) * h)
                    by (nonlinear_arith)
                    requires
                        width == w,
                        height == h,
                        0 < w,
                        0 < h,
                ;
                (pixels, x, y)
            } else {
                let (sx, sy) = law_scaled_pixels_are_nearest(data, width, height, w, h, x, y, k);
                (pixels, sx, sy)
            }
        } else {
            (pixels, 0, 0)
        }
    } else {
        (pixels, 0, 0)
    }
}

} // verus!

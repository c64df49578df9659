//! Rectangles of packed pixels: cropping, scaling, and expanding to RGBA.

use vstd::arithmetic::div_mod::lemma_fundamental_div_mod_converse;
use vstd::prelude::*;

use crate::text::push_bytes;

verus! {

/// The `target_w` by `target_h` RGBA rectangle whose pixel in column `tx` and row `ty` is the
/// pixel in column `column(tx)` and row `row(ty)` of a source `width` pixels wide.
pub open spec fn picked(
    rgba: Seq<u8>,
    width: int,
    target_w: int,
    target_h: int,
    column: spec_fn(int) -> int,
    row: spec_fn(int) -> int,
) -> Seq<u8> {
    Seq::new(
        (target_w * target_h * 4) as nat,
        |i: int| rgba[(row(i / 4 / target_w) * width + column(i / 4 % target_w)) * 4 + i % 4],
    )
}

/// The nearest source position of target position `t`, when `source` positions become `target`.
pub open spec fn nearest(t: int, source: int, target: int) -> int {
    t * source / target
}

/// A `width` by `height` rectangle scaled to `target_w` by `target_h`, by nearest neighbor.
pub open spec fn scaled(
    rgba: Seq<u8>,
    width: int,
    height: int,
    target_w: int,
    target_h: int,
) -> Seq<u8> {
    picked(
        rgba,
        width,
        target_w,
        target_h,
        |tx: int| nearest(tx, width, target_w),
        |ty: int| nearest(ty, height, target_h),
    )
}

/// The `w` by `h` rectangle at (`x`, `y`) of a source `width` pixels wide.
pub open spec fn cropped(rgba: Seq<u8>, width: int, x: int, y: int, w: int, h: int) -> Seq<u8> {
    picked(rgba, width, w, h, |tx: int| x + tx, |ty: int| y + ty)
}

/// A packed RGB buffer as RGBA with opaque alpha; a trailing partial pixel is dropped.
pub open spec fn with_alpha(rgb: Seq<u8>) -> Seq<u8> {
    Seq::new(
        rgb.len() / 3 * 4,
        |i: int|
            if i % 4 == 3 {
                255
            } else {
                rgb[i / 4 * 3 + i % 4]
            },
    )
}

pub open spec fn smaller(a: int, b: int) -> int {
    if a < b {
        a
    } else {
        b
    }
}

/// A nearest source position lies inside the source.
pub proof fn lemma_nearest_inside(t: int, source: int, target: int)
    requires
        0 <= t < target,
        0 < source,
    ensures
        0 <= nearest(t, source, target) < source,
{
    assert(0 <= t * source / target < source) by (nonlinear_arith)
        requires
            0 <= t < target,
            0 < source,
    ;
}

/// A pixel inside a rectangle has its four bytes inside the buffer.
pub proof fn lemma_place_inside(width: int, height: int, x: int, y: int)
    requires
        0 <= x < width,
        0 <= y < height,
    ensures
        0 <= y * width,
        0 <= y * width + x < width * height,
{
    assert(0 <= y * width && y * width + x < width * height) by (nonlinear_arith)
        requires
            0 <= x < width,
            0 <= y < height,
    ;
}

/// Appends the pixel at `place` of `rgba` as pixel (`tx`, `ty`) of the rectangle being built.
fn push_pixel(
    out: &mut Vec<u8>,
    rgba: &[u8],
    place: usize,
    Ghost(goal): Ghost<Seq<u8>>,
    Ghost(target_w): Ghost<int>,
    Ghost(tx): Ghost<int>,
    Ghost(ty): Ghost<int>,
)
    requires
        place * 4 + 4 <= rgba.len(),
        0 <= tx < target_w,
        0 <= ty,
        old(out)@.len() == (ty * target_w + tx) * 4,
        old(out)@.len() + 4 <= goal.len(),
        old(out)@ == goal.take(old(out)@.len() as int),
        forall|i: int|
            0 <= i < goal.len() && i / 4 / target_w == ty && i / 4 % target_w == tx
                ==> #[trigger] goal[i] == rgba@[place * 4 + i % 4],
    ensures
        final(out)@.len() == old(out)@.len() + 4,
        final(out)@ == goal.take(final(out)@.len() as int),
{
    push_bytes(out, vstd::slice::slice_subrange(rgba, place * 4, place * 4 + 4));
    proof {
        let at = old(out)@.len() as int;
        lemma_fundamental_div_mod_converse(ty * target_w + tx, target_w, ty, tx);
        assert forall|i: int| at <= i < at + 4 implies #[trigger] out@[i] == goal[i] by {
            assert(i / 4 == ty * target_w + tx);
        }
        assert(out@ =~= goal.take(at + 4));
    }
}

/// Scales a `width` by `height` rectangle to `target_w` by `target_h` by nearest neighbor.
pub fn scale_rgba_nearest(
    rgba: &[u8],
    width: u32,
    height: u32,
    target_w: u32,
    target_h: u32,
) -> (out: Vec<u8>)
    requires
        0 < width,
        0 < height,
        0 < target_w,
        0 < target_h,
        width * height * 4 <= rgba.len(),
        target_w * target_h * 4 <= usize::MAX,
    ensures
        out@ == scaled(
            rgba@,
            width as int,
            height as int,
            target_w as int,
            target_h as int,
        ),
{
    let ghost goal = scaled(
        rgba@,
        width as int,
        height as int,
        target_w as int,
        target_h as int,
    );
    let mut out: Vec<u8> = Vec::new();
    let mut ty: u32 = 0;
    assert(out@ =~= goal.take(0));
    while ty < target_h
        invariant
            0 < width,
            0 < height,
            0 < target_w,
            ty <= target_h,
            width * height * 4 <= rgba.len(),
            goal == scaled(
                rgba@,
                width as int,
                height as int,
                target_w as int,
                target_h as int,
            ),
            out@.len() == ty * target_w * 4,
            out@ == goal.take(out@.len() as int),
        decreases target_h - ty,
    {
        proof {
            lemma_nearest_inside(ty as int, height as int, target_h as int);
            lemma_u32_product(ty, height);
        }
        let sy = (ty as u64 * height as u64) / target_h as u64;
        let mut tx: u32 = 0;
        while tx < target_w
            invariant
                0 < width,
                0 < height,
                0 < target_w,
                ty < target_h,
                tx <= target_w,
                sy == nearest(ty as int, height as int, target_h as int),
                0 <= sy < height,
                width * height * 4 <= rgba.len(),
                goal == scaled(
                    rgba@,
                    width as int,
                    height as int,
                    target_w as int,
                    target_h as int,
                ),
                out@.len() == (ty * target_w + tx) * 4,
                out@ == goal.take(out@.len() as int),
            decreases target_w - tx,
        {
            proof {
                lemma_nearest_inside(tx as int, width as int, target_w as int);
                lemma_u32_product(tx, width);
            }
            let sx = (tx as u64 * width as u64) / target_w as u64;
            proof {
                lemma_place_inside(width as int, height as int, sx as int, sy as int);
                lemma_place_inside(target_w as int, target_h as int, tx as int, ty as int);
            }
            let place = sy as usize * width as usize + sx as usize;
            push_pixel(
                &mut out,
                rgba,
                place,
                Ghost(goal),
                Ghost(target_w as int),
                Ghost(tx as int),
                Ghost(ty as int),
            );
            tx += 1;
        }
        assert((ty * target_w + target_w) == (ty + 1) * target_w) by (nonlinear_arith);
        ty += 1;
    }
    assert(goal.take(out@.len() as int) =~= goal) by {
        assert(target_h * target_w == target_w * target_h) by (nonlinear_arith);
    }
    out
}

proof fn lemma_u32_product(a: u32, b: u32)
    ensures
        0 <= a * b <= u64::MAX,
{
    assert(0 <= a * b <= u64::MAX) by (nonlinear_arith)
        requires
            a <= u32::MAX,
            b <= u32::MAX,
    ;
}

/// The length in bytes of a `width` by `height` RGBA rectangle, where it can be a length.
pub fn rgba_len(width: u32, height: u32) -> (len: Option<usize>)
    ensures
        match len {
            Some(len) => len == width * height * 4,
            None => width * height * 4 > usize::MAX,
        },
{
    match (width as usize).checked_mul(height as usize) {
        Some(pixels) => pixels.checked_mul(4),
        None => None,
    }
}

/// Extracts the `w` by `h` RGBA rectangle that starts at (`x`, `y`).
///
/// The rectangle is clamped to the source bounds. There is none when it starts outside the
/// source, when nothing of it is left, and when the buffer is shorter than the source.
pub fn crop_rgba(
    rgba: &[u8],
    width: u32,
    height: u32,
    x: u32,
    y: u32,
    w: u32,
    h: u32,
) -> (result: Option<(Vec<u8>, u32, u32)>)
    ensures
        result is None <==> x >= width || y >= height || w == 0 || h == 0 || rgba.len() < width
            * height * 4,
        result matches Some((out, cw, ch)) ==> {
            &&& cw == smaller(w as int, width - x)
            &&& ch == smaller(h as int, height - y)
            &&& out@ == cropped(rgba@, width as int, x as int, y as int, cw as int, ch as int)
        },
{
    if x >= width || y >= height {
        return None;
    }
    let w = if w < width - x {
        w
    } else {
        width - x
    };
    let h = if h < height - y {
        h
    } else {
        height - y
    };
    if w == 0 || h == 0 {
        return None;
    }
    let expected = match rgba_len(width, height) {
        Some(expected) => expected,
        None => {
            assert(rgba@.len() == rgba.len());
            return None;
        },
    };
    if rgba.len() < expected {
        return None;
    }
    let ghost goal = cropped(rgba@, width as int, x as int, y as int, w as int, h as int);
    let mut out: Vec<u8> = Vec::new();
    let mut ty: u32 = 0;
    assert(out@ =~= goal.take(0));
    while ty < h
        invariant
            0 < w <= width - x,
            0 < h <= height - y,
            ty <= h,
            width * height * 4 <= rgba.len(),
            goal == cropped(rgba@, width as int, x as int, y as int, w as int, h as int),
            out@.len() == ty * w * 4,
            out@ == goal.take(out@.len() as int),
        decreases h - ty,
    {
        let mut tx: u32 = 0;
        while tx < w
            invariant
                0 < w <= width - x,
                0 < h <= height - y,
                ty < h,
                tx <= w,
                width * height * 4 <= rgba.len(),
                goal == cropped(rgba@, width as int, x as int, y as int, w as int, h as int),
                out@.len() == (ty * w + tx) * 4,
                out@ == goal.take(out@.len() as int),
            decreases w - tx,
        {
            proof {
                lemma_place_inside(width as int, height as int, x + tx, y + ty);
                lemma_place_inside(w as int, h as int, tx as int, ty as int);
            }
            let place = (y + ty) as usize * width as usize + (x + tx) as usize;
            push_pixel(
                &mut out,
                rgba,
                place,
                Ghost(goal),
                Ghost(w as int),
                Ghost(tx as int),
                Ghost(ty as int),
            );
            tx += 1;
        }
        assert((ty * w + w) == (ty + 1) * w) by (nonlinear_arith);
        ty += 1;
    }
    assert(goal.take(out@.len() as int) =~= goal) by {
        assert(h * w == w * h) by (nonlinear_arith);
    }
    Some((out, w, h))
}

/// Expands a packed RGB buffer to RGBA with opaque alpha.
pub fn rgb_to_rgba(rgb: &[u8]) -> (out: Vec<u8>)
    ensures
        out@ == with_alpha(rgb@),
{
    let mut out: Vec<u8> = Vec::new();
    let total = rgb.len() / 3;
    let mut i: usize = 0;
    while i < total
        invariant
            i <= total,
            total == rgb@.len() / 3,
            3 * total <= rgb.len(),
            out@.len() == 4 * i,
            forall|k: int| 0 <= k < 4 * i ==> #[trigger] out@[k] == with_alpha(rgb@)[k],
        decreases total - i,
    {
        out.push(rgb[i * 3]);
        out.push(rgb[i * 3 + 1]);
        out.push(rgb[i * 3 + 2]);
        out.push(255);
        i += 1;
    }
    assert(out@ =~= with_alpha(rgb@));
    out
}

/// Scaling to the same size changes nothing.
pub proof fn law_scale_to_same_size(rgba: Seq<u8>, width: int, height: int)
    requires
        0 < width,
        0 < height,
        rgba.len() == width * height * 4,
    ensures
        scaled(rgba, width, height, width, height) == rgba,
{
    lemma_whole_picked(
        rgba,
        width,
        height,
        |tx: int| nearest(tx, width, width),
        |ty: int| nearest(ty, height, height),
    );
}

/// Cropping to the whole rectangle changes nothing.
pub proof fn law_crop_whole(rgba: Seq<u8>, width: int, height: int)
    requires
        0 < width,
        0 < height,
        rgba.len() == width * height * 4,
    ensures
        cropped(rgba, width, 0, 0, width, height) == rgba,
{
    lemma_whole_picked(rgba, width, height, |tx: int| 0 + tx, |ty: int| 0 + ty);
}

proof fn lemma_whole_picked(
    rgba: Seq<u8>,
    width: int,
    height: int,
    column: spec_fn(int) -> int,
    row: spec_fn(int) -> int,
)
    requires
        0 < width,
        0 < height,
        rgba.len() == width * height * 4,
        forall|t: int| 0 <= t < width ==> #[trigger] column(t) == t || column(t) == nearest(t, width, width),
        forall|t: int| 0 <= t < height ==> #[trigger] row(t) == t || row(t) == nearest(t, height, height),
    ensures
        picked(rgba, width, width, height, column, row) == rgba,
{
    let whole = picked(rgba, width, width, height, column, row);
    assert forall|i: int| 0 <= i < rgba.len() implies #[trigger] whole[i] == rgba[i] by {
        let p = i / 4;
        let x = p % width;
        let y = p / width;
        vstd::arithmetic::div_mod::lemma_fundamental_div_mod(p, width);
        assert(0 <= x < width && 0 <= y < height) by (nonlinear_arith)
            requires
                0 < width,
                0 <= p < width * height,
                x == p % width,
                y == p / width,
        ;
        assert(nearest(x, width, width) == x) by (nonlinear_arith)
            requires
                0 < width,
                nearest(x, width, width) == x * width / width,
        ;
        assert(nearest(y, height, height) == y) by (nonlinear_arith)
            requires
                0 < height,
                nearest(y, height, height) == y * height / height,
        ;
        assert(row(y) == y && column(x) == x);
        assert(y * width + x == p) by (nonlinear_arith)
            requires
                p == width * y + x,
        ;
    }
    assert(whole =~= rgba);
}

/// Cropping a crop is cropping once, at the sum of the corners.
pub proof fn law_crop_of_crop(
    rgba: Seq<u8>,
    width: int,
    height: int,
    outer: (int, int, int, int),
    inner: (int, int, int, int),
)
    requires
        rgba.len() >= width * height * 4,
        0 <= outer.0,
        0 <= outer.1,
        0 < outer.2,
        0 < outer.3,
        outer.0 + outer.2 <= width,
        outer.1 + outer.3 <= height,
        0 <= inner.0,
        0 <= inner.1,
        0 < inner.2,
        0 < inner.3,
        inner.0 + inner.2 <= outer.2,
        inner.1 + inner.3 <= outer.3,
    ensures
        cropped(
            cropped(rgba, width, outer.0, outer.1, outer.2, outer.3),
            outer.2,
            inner.0,
            inner.1,
            inner.2,
            inner.3,
        ) == cropped(
            rgba,
            width,
            outer.0 + inner.0,
            outer.1 + inner.1,
            inner.2,
            inner.3,
        ),
{
    let once = cropped(
        rgba,
        width,
        outer.0 + inner.0,
        outer.1 + inner.1,
        inner.2,
        inner.3,
    );
    let middle = cropped(rgba, width, outer.0, outer.1, outer.2, outer.3);
    let twice = cropped(middle, outer.2, inner.0, inner.1, inner.2, inner.3);
    assert forall|i: int| 0 <= i < once.len() implies #[trigger] twice[i] == once[i] by {
        let p = i / 4;
        let x = p % inner.2;
        let y = p / inner.2;
        let (iw, ih) = (inner.2, inner.3);
        assert(0 <= x < iw && 0 <= y < ih) by (nonlinear_arith)
            requires
                0 < iw,
                0 <= p < iw * ih,
                x == p % iw,
                y == p / iw,
        ;
        let q = (inner.1 + y) * outer.2 + inner.0 + x;
        lemma_place_inside(outer.2, outer.3, inner.0 + x, inner.1 + y);
        lemma_fundamental_div_mod_converse(q, outer.2, inner.1 + y, inner.0 + x);
        assert(twice[i] == middle[q * 4 + i % 4]);
    }
    assert(twice =~= once);
}

/// The bytes of pixel (`x`, `y`) of a picked rectangle.
proof fn lemma_picked_pixel(
    rgba: Seq<u8>,
    width: int,
    target_w: int,
    target_h: int,
    column: spec_fn(int) -> int,
    row: spec_fn(int) -> int,
    x: int,
    y: int,
    k: int,
)
    requires
        0 <= x < target_w,
        0 <= y < target_h,
        0 <= k < 4,
    ensures
        picked(rgba, width, target_w, target_h, column, row)[(y * target_w + x) * 4 + k] == rgba[(
        row(y) * width + column(x)) * 4 + k],
{
    let place = y * target_w + x;
    lemma_place_inside(target_w, target_h, x, y);
    lemma_fundamental_div_mod_converse(place, target_w, y, x);
    let i = place * 4 + k;
    assert(i / 4 == place && i % 4 == k);
    assert(0 <= i < target_w * target_h * 4);
}

/// Every byte of every pixel of a scaled rectangle is that byte of the source pixel on which the
/// target pixel's corner falls, and there are no other bytes.
pub proof fn law_scaled_pixels_are_nearest(
    rgba: Seq<u8>,
    width: int,
    height: int,
    target_w: int,
    target_h: int,
    x: int,
    y: int,
    k: int,
) -> (source: (int, int))
    requires
        0 < width,
        0 < height,
        0 <= x < target_w,
        0 <= y < target_h,
        0 <= k < 4,
    ensures
        0 <= source.0 < width,
        0 <= source.1 < height,
        source.0 * target_w <= x * width < (source.0 + 1) * target_w,
        source.1 * target_h <= y * height < (source.1 + 1) * target_h,
        scaled(rgba, width, height, target_w, target_h).len() == target_w * target_h * 4,
        scaled(rgba, width, height, target_w, target_h)[(y * target_w + x) * 4 + k] == rgba[(
        source.1 * width + source.0) * 4 + k],
{
    let sx = nearest(x, width, target_w);
    let sy = nearest(y, height, target_h);
    lemma_nearest_inside(x, width, target_w);
    lemma_nearest_inside(y, height, target_h);
    lemma_nearest_floor(x, width, target_w);
    lemma_nearest_floor(y, height, target_h);
    lemma_picked_pixel(
        rgba,
        width,
        target_w,
        target_h,
        |tx: int| nearest(tx, width, target_w),
        |ty: int| nearest(ty, height, target_h),
        x,
        y,
        k,
    );
    assert(0 <= target_w * target_h) by (nonlinear_arith)
        requires
            0 <= target_w,
            0 <= target_h,
    ;
    (sx, sy)
}

proof fn lemma_nearest_floor(t: int, source: int, target: int)
    requires
        0 < target,
    ensures
        nearest(t, source, target) * target <= t * source < (nearest(t, source, target) + 1)
            * target,
{
    let n = t * source;
    assert((n / target) * target <= n < (n / target + 1) * target) by (nonlinear_arith)
        requires
            0 < target,
    ;
}

/// Every byte of every pixel of a cropped rectangle is that byte of the source pixel at the same
/// place behind the rectangle's corner, and there are no other bytes.
pub proof fn law_cropped_pixels_are_the_sources(
    rgba: Seq<u8>,
    width: int,
    x: int,
    y: int,
    w: int,
    h: int,
    column: int,
    row: int,
    k: int,
)
    requires
        0 <= column < w,
        0 <= row < h,
        0 <= k < 4,
    ensures
        cropped(rgba, width, x, y, w, h).len() == w * h * 4,
        cropped(rgba, width, x, y, w, h)[(row * w + column) * 4 + k] == rgba[((y + row) * width + (x
            + column)) * 4 + k],
{
    lemma_picked_pixel(rgba, width, w, h, |tx: int| x + tx, |ty: int| y + ty, column, row, k);
    assert(0 <= w * h) by (nonlinear_arith)
        requires
            0 <= w,
            0 <= h,
    ;
}

/// Each whole RGB pixel keeps its three bytes and gets alpha 255; nothing else comes out.
pub proof fn law_rgb_pixels_become_opaque(rgb: Seq<u8>, i: int)
    requires
        0 <= i,
        3 * i + 3 <= rgb.len(),
    ensures
        with_alpha(rgb).len() == rgb.len() / 3 * 4,
        with_alpha(rgb)[4 * i] == rgb[3 * i],
        with_alpha(rgb)[4 * i + 1] == rgb[3 * i + 1],
        with_alpha(rgb)[4 * i + 2] == rgb[3 * i + 2],
        with_alpha(rgb)[4 * i + 3] == 255,
{
}

/// The smaller of two numbers is one of them and not above either.
pub proof fn law_smaller_is_the_minimum(a: int, b: int)
    ensures
        smaller(a, b) <= a,
        smaller(a, b) <= b,
        smaller(a, b) == a || smaller(a, b) == b,
{
}

} // verus!

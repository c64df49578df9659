use std::collections::{BTreeMap, HashMap};

use herdr::color::{channel_of, pack_rgb};
use herdr::quantize::quantize;
use herdr::raster::{crop_rgba, rgb_to_rgba, rgba_len, scale_rgba_nearest};
use herdr::sixel_cache::{SixelEncodeCache, SixelEncodeKey};
use herdr::sixel_encode::{encode_exact, encode_sixel_rgba, sixel_component};

/// 4 by 4 checkerboard: opaque red and blue, alternating per pixel.
fn checkerboard_rgba() -> Vec<u8> {
    let red = [255u8, 0, 0, 255];
    let blue = [0u8, 0, 255, 255];
    let mut out = Vec::new();
    for y in 0..4 {
        for x in 0..4 {
            if (x + y) % 2 == 0 {
                out.extend_from_slice(&red);
            } else {
                out.extend_from_slice(&blue);
            }
        }
    }
    out
}

fn key(i: u64) -> SixelEncodeKey {
    SixelEncodeKey {
        data_fingerprint: i,
        data_len: 1,
        source: (0, 0, 1, 1),
        target: (1, 1),
    }
}

#[test]
fn checkerboard_encodes_exact_size_sixel() {
    let data = checkerboard_rgba();
    let encoded = encode_sixel_rgba(&data, 4, 4, 4, 4);
    let text = String::from_utf8(encoded.clone()).expect("sixel output is ascii");

    assert!(text.starts_with("\u{1b}P0;1;0q"), "DCS header: {text:?}");
    assert!(text.contains("\"1;1;4;4"), "raster dims: {text:?}");
    assert!(text.ends_with("\u{1b}\\"), "ST terminator: {text:?}");
    // Two distinct colors: two palette definitions on the scale from 0 to 100.
    assert!(text.contains("#0;2;0;0;100"), "blue palette: {text:?}");
    assert!(text.contains("#1;2;100;0;0"), "red palette: {text:?}");
}

#[test]
fn scaling_doubles_raster_dims() {
    let data = checkerboard_rgba();
    let encoded = encode_sixel_rgba(&data, 4, 4, 8, 8);
    let text = String::from_utf8(encoded).expect("sixel output is ascii");
    assert!(text.contains("\"1;1;8;8"), "scaled raster dims: {text:?}");
    assert!(text.starts_with("\u{1b}P0;1;0q"));
    assert!(text.ends_with("\u{1b}\\"));
}

#[test]
fn transparent_pixels_paint_nothing() {
    let data = vec![0u8; 4 * 4 * 4];
    let encoded = encode_sixel_rgba(&data, 4, 4, 4, 4);
    let text = String::from_utf8(encoded).expect("ascii");
    assert!(text.starts_with("\u{1b}P0;1;0q"));
    assert!(text.ends_with("\u{1b}\\"));
    assert!(!text.contains('#'), "no palette or paints: {text:?}");
}

#[test]
fn degenerate_input_yields_empty_output() {
    assert!(encode_sixel_rgba(&[], 0, 0, 4, 4).is_empty());
    assert!(encode_sixel_rgba(&[0, 0, 0], 1, 1, 1, 1).is_empty());
}

#[test]
fn quantizes_many_colors_to_at_most_256() {
    // 32 by 32 gradient with 1024 distinct colors.
    let mut data = Vec::new();
    for y in 0..32u32 {
        for x in 0..32u32 {
            data.extend_from_slice(&[(x * 8) as u8, (y * 8) as u8, ((x + y) * 4) as u8, 255]);
        }
    }
    let encoded = encode_sixel_rgba(&data, 32, 32, 32, 32);
    let text = String::from_utf8(encoded).expect("ascii");
    // Every `#N` token (palette definitions and band color selects)
    // must address a palette slot below 256.
    let mut indexes = Vec::new();
    let bytes = text.as_bytes();
    let mut i = 0;
    while i < bytes.len() {
        if bytes[i] == b'#' {
            let mut value = 0u32;
            let mut digits = 0;
            while i + 1 < bytes.len() && bytes[i + 1].is_ascii_digit() {
                value = value * 10 + u32::from(bytes[i + 1] - b'0');
                digits += 1;
                i += 1;
            }
            assert!(digits > 0, "bare # in output");
            indexes.push(value);
        }
        i += 1;
    }
    let max_index = indexes.iter().copied().max().expect("palette used");
    assert!(max_index < 256, "palette index out of range: {max_index}");
    assert!(text.contains(";2;"), "no palette definitions");
}

#[test]
fn crop_extracts_expected_band() {
    let data = checkerboard_rgba();
    let (band, w, h) = crop_rgba(&data, 4, 4, 0, 1, 4, 1).expect("crop");
    assert_eq!((w, h), (4, 1));
    // Row 1 starts blue.
    assert_eq!(&band[0..4], &[0, 0, 255, 255]);
    assert!(crop_rgba(&data, 4, 4, 4, 0, 1, 1).is_none());
}

#[test]
fn cache_evicts_oldest_when_over_budget() {
    let mut cache = SixelEncodeCache::with_capacity(10);
    let key = |i: u64| SixelEncodeKey {
        data_fingerprint: i,
        data_len: 1,
        source: (0, 0, 1, 1),
        target: (1, 1),
    };
    cache.insert(key(1), vec![0u8; 6]);
    cache.insert(key(2), vec![0u8; 6]);
    assert_eq!(cache.len(), 1, "oldest evicted");
    assert!(cache.get(&key(1)).is_none());
    assert!(cache.get(&key(2)).is_some());
}

#[test]
fn cache_get_refreshes_recency() {
    let mut cache = SixelEncodeCache::with_capacity(12);
    let key = |i: u64| SixelEncodeKey {
        data_fingerprint: i,
        data_len: 1,
        source: (0, 0, 1, 1),
        target: (1, 1),
    };
    cache.insert(key(1), vec![0u8; 5]);
    cache.insert(key(2), vec![0u8; 5]);
    assert!(cache.get(&key(1)).is_some());
    cache.insert(key(3), vec![0u8; 5]);
    assert!(cache.get(&key(1)).is_some(), "recently used survives");
    assert!(cache.get(&key(2)).is_none(), "stale entry evicted");
}

#[test]
fn rgb_expands_to_opaque_rgba() {
    assert_eq!(rgb_to_rgba(&[1, 2, 3, 4, 5, 6]), vec![1, 2, 3, 255, 4, 5, 6, 255]);
}

#[test]
fn checkerboard_bytes_are_exact() {
    let data = checkerboard_rgba();
    assert_eq!(
        encode_sixel_rgba(&data, 4, 4, 4, 4),
        b"\x1bP0;1;0q\"1;1;4;4#0;2;0;0;100#1;2;100;0;0#0IDID$#1DIDI\x1b\\".to_vec()
    );
}

#[test]
fn short_runs_are_spelled_out_and_long_runs_counted() {
    let red = [255u8, 0, 0, 255].repeat(5);
    assert_eq!(
        encode_exact(&red[..12], 3, 1),
        b"\x1bP0;1;0q\"1;1;3;1#0;2;100;0;0#0@@@\x1b\\".to_vec()
    );
    assert_eq!(
        encode_exact(&red, 5, 1),
        b"\x1bP0;1;0q\"1;1;5;1#0;2;100;0;0#0!5@\x1b\\".to_vec()
    );
}

#[test]
fn bands_are_six_rows_high() {
    let gray = [128u8, 128, 128, 255].repeat(7);
    assert_eq!(
        encode_exact(&gray, 1, 7),
        b"\x1bP0;1;0q\"1;1;1;7#0;2;50;50;50#0~-#0@\x1b\\".to_vec()
    );
    // The second band is transparent: nothing stands between the line feed and the end.
    let mut fading = [128u8, 128, 128, 255].repeat(6);
    fading.extend_from_slice(&[128, 128, 128, 127]);
    assert_eq!(
        encode_exact(&fading, 1, 7),
        b"\x1bP0;1;0q\"1;1;1;7#0;2;50;50;50#0~-\x1b\\".to_vec()
    );
    // Fully transparent: only the line feed.
    assert_eq!(
        encode_exact(&[9u8, 9, 9, 0].repeat(7), 1, 7),
        b"\x1bP0;1;0q\"1;1;1;7-\x1b\\".to_vec()
    );
}

#[test]
fn alpha_threshold_is_128() {
    let seen = encode_sixel_rgba(&[1, 2, 3, 128], 1, 1, 1, 1);
    assert!(seen.contains(&b'#'));
    let unseen = encode_sixel_rgba(&[1, 2, 3, 127], 1, 1, 1, 1);
    assert!(!unseen.contains(&b'#'));
}

#[test]
fn targets_are_clamped() {
    let encoded = encode_sixel_rgba(&[0, 0, 0, 255], 1, 1, 5000, 1);
    let text = String::from_utf8(encoded).expect("ascii");
    assert_eq!(text, "\x1bP0;1;0q\"1;1;4096;1#0;2;0;0;0#0!4096@\x1b\\");

    // Two pixels share the clamped width; the second is transparent.
    let encoded = encode_sixel_rgba(&[9, 9, 9, 255, 1, 1, 1, 0], 2, 1, u32::MAX, 2);
    let (defined, size, painted) = read_sixel(&encoded);
    assert_eq!(size, (4096, 2));
    assert_eq!(defined.len(), 1);
    assert_eq!(painted.len(), 2048 * 2);
    assert!(painted.keys().all(|&(x, y)| x < 2048 && y < 2));
}

#[test]
fn images_without_columns_have_bands_but_no_paint() {
    assert_eq!(
        encode_exact(&[1, 2, 3, 255], 0, 7),
        b"\x1bP0;1;0q\"1;1;0;7#0;2;0;1;1-\x1b\\".to_vec()
    );
    assert_eq!(encode_exact(&[], 5, 0), b"\x1bP0;1;0q\"1;1;5;0\x1b\\".to_vec());
}

#[test]
fn components_are_scaled_to_percent() {
    assert_eq!(sixel_component(0), 0);
    assert_eq!(sixel_component(1), 0);
    assert_eq!(sixel_component(2), 1);
    assert_eq!(sixel_component(128), 50);
    assert_eq!(sixel_component(255), 100);
    // Beyond a channel's range the formula goes on.
    assert_eq!(sixel_component(1000), 392);
}

#[test]
fn colors_pack_and_unpack() {
    assert_eq!(pack_rgb(&[0x12, 0x34, 0x56, 0]), 0x123456);
    assert_eq!(channel_of(0x123456, 0), 0x12);
    assert_eq!(channel_of(0x123456, 1), 0x34);
    assert_eq!(channel_of(0x123456, 2), 0x56);
}

/// A terminal's reading of a Sixel sequence: palette, size, and painted pixels.
fn read_sixel(bytes: &[u8]) -> (BTreeMap<u32, (u32, u32, u32)>, (u32, u32), BTreeMap<(u32, u32), u32>) {
    let text = std::str::from_utf8(bytes).expect("ascii");
    let body = text.strip_prefix("\x1bP0;1;0q").expect("header");
    let body = body.strip_suffix("\x1b\\").expect("terminator").as_bytes();
    let mut palette = BTreeMap::new();
    let mut size = (0, 0);
    let mut painted = BTreeMap::new();
    let (mut x, mut top, mut color) = (0u32, 0u32, 0u32);
    let mut i = 0;
    let number = |i: &mut usize| {
        let mut value = 0u32;
        while *i < body.len() && body[*i].is_ascii_digit() {
            value = value * 10 + u32::from(body[*i] - b'0');
            *i += 1;
        }
        value
    };
    while i < body.len() {
        let byte = body[i];
        i += 1;
        match byte {
            b'"' | b'#' => {
                let mut numbers = vec![number(&mut i)];
                while i < body.len() && body[i] == b';' {
                    i += 1;
                    numbers.push(number(&mut i));
                }
                if byte == b'"' {
                    size = (numbers[2], numbers[3]);
                } else if numbers.len() == 1 {
                    color = numbers[0];
                } else {
                    palette.insert(numbers[0], (numbers[2], numbers[3], numbers[4]));
                }
            }
            b'$' => x = 0,
            b'-' => {
                x = 0;
                top += 6;
            }
            _ => {
                let mut run = 1;
                let mut sixel = byte;
                if byte == b'!' {
                    run = number(&mut i);
                    sixel = body[i];
                    i += 1;
                }
                for _ in 0..run {
                    for bit in 0..6 {
                        if (sixel - 63) >> bit & 1 == 1 {
                            painted.insert((x, top + bit), color);
                        }
                    }
                    x += 1;
                }
            }
        }
    }
    (palette, size, painted)
}

#[test]
fn reading_a_sequence_paints_the_image() {
    let (width, height) = (13u32, 20u32);
    let mut data = Vec::new();
    for y in 0..height {
        for x in 0..width {
            let alpha = if (x * 7 + y * 3) % 5 == 0 { 0 } else { 255 };
            data.extend_from_slice(&[(x * 19) as u8, (y * 12) as u8, ((x ^ y) * 9) as u8, alpha]);
        }
    }
    let (palette, index) = quantize(&data);
    let (defined, size, painted) = read_sixel(&encode_exact(&data, width, height));
    assert_eq!(size, (width, height));
    assert_eq!(defined.len(), palette.len());
    for (n, &color) in palette.iter().enumerate() {
        let expected = (
            sixel_component(channel_of(color, 0)),
            sixel_component(channel_of(color, 1)),
            sixel_component(channel_of(color, 2)),
        );
        assert_eq!(defined[&(n as u32)], expected);
    }
    for y in 0..height {
        for x in 0..width {
            let at = ((y * width + x) * 4) as usize;
            let px = &data[at..at + 4];
            let expected = if px[3] >= 128 {
                Some(u32::from(index[&pack_rgb(px)]))
            } else {
                None
            };
            assert_eq!(painted.get(&(x, y)).copied(), expected);
        }
    }
    assert!(painted.keys().all(|&(x, y)| x < width && y < height));
}

#[test]
fn reading_a_scaled_sequence_paints_the_nearest_pixels() {
    let (width, height) = (5u32, 7u32);
    let mut data = Vec::new();
    for i in 0..width * height {
        data.extend_from_slice(&[i as u8 * 7, 0, 255 - i as u8, if i % 4 == 1 { 0 } else { 200 }]);
    }
    let (tw, th) = (11u32, 13u32);
    let (defined, size, painted) = read_sixel(&encode_sixel_rgba(&data, width, height, tw, th));
    assert_eq!(size, (tw, th));
    for y in 0..th {
        for x in 0..tw {
            let at = ((y * height / th * width + x * width / tw) * 4) as usize;
            let px = &data[at..at + 4];
            let shown = painted.get(&(x, y)).map(|color| defined[color]);
            let expected = if px[3] >= 128 {
                Some((
                    sixel_component(px[0].into()),
                    sixel_component(px[1].into()),
                    sixel_component(px[2].into()),
                ))
            } else {
                None
            };
            assert_eq!(shown, expected);
        }
    }
}

#[test]
fn few_colors_keep_their_values() {
    let mut data = Vec::new();
    for i in (0..200u32).rev() {
        data.extend_from_slice(&[i as u8, 7, (255 - i) as u8, 255]);
    }
    let (palette, index) = quantize(&data);
    assert_eq!(palette.len(), 200);
    assert!(palette.windows(2).all(|pair| pair[0] < pair[1]));
    for px in data.chunks_exact(4) {
        let color = pack_rgb(px);
        assert_eq!(palette[index[&color] as usize], color);
    }
    // Transparent pixels take no part.
    let (palette, index) = quantize(&[1, 2, 3, 0]);
    assert!(palette.is_empty() && index.is_empty());
}

/// Median cut written down plainly, over a sorted list of counted colors.
fn plain_median_cut(pixels: &[u8]) -> (Vec<u32>, HashMap<u32, u16>) {
    let mut counts: BTreeMap<u32, u64> = BTreeMap::new();
    for px in pixels.chunks_exact(4).filter(|px| px[3] >= 128) {
        *counts.entry(pack_rgb(px)).or_insert(0) += 1;
    }
    let mut colors: Vec<(u32, u64)> = counts.into_iter().collect();
    let mut boxes = vec![(0, colors.len())];
    let value = |color: u32, channel: u32| color >> (16 - 8 * channel) & 255;
    while boxes.len() < 256 {
        let mut best: Option<(u32, usize, u32)> = None;
        for (b, &(start, end)) in boxes.iter().enumerate() {
            for channel in 0..3 {
                let values = colors[start..end].iter().map(|&(color, _)| value(color, channel));
                let spread = values.clone().max().unwrap() - values.min().unwrap();
                if spread > best.map_or(0, |(widest, _, _)| widest) {
                    best = Some((spread, b, channel));
                }
            }
        }
        let (_, b, channel) = best.expect("more colors than boxes");
        let (start, end) = boxes[b];
        colors[start..end].sort_by_key(|&(color, _)| (value(color, channel), color));
        let total: u64 = colors[start..end].iter().map(|&(_, n)| n).sum();
        let mut middle = start;
        let mut seen = 0;
        while seen * 2 < total {
            seen += colors[middle].1;
            middle += 1;
        }
        let middle = middle.min(end - 1);
        boxes[b] = (start, middle);
        boxes.push((middle, end));
    }
    boxes.sort();
    let mut palette = Vec::new();
    let mut index = HashMap::new();
    for (b, &(start, end)) in boxes.iter().enumerate() {
        let total: u64 = colors[start..end].iter().map(|&(_, n)| n).sum();
        let mean = |channel: u32| {
            let sum: u64 =
                colors[start..end].iter().map(|&(color, n)| u64::from(value(color, channel)) * n).sum();
            (sum / total) as u32
        };
        palette.push(mean(0) << 16 | mean(1) << 8 | mean(2));
        for &(color, _) in &colors[start..end] {
            index.insert(color, b as u16);
        }
    }
    (palette, index)
}

#[test]
fn many_colors_are_cut_at_weighted_medians() {
    let mut state = 12345u32;
    let mut data = Vec::new();
    for i in 0..3000u32 {
        state = state.wrapping_mul(1664525).wrapping_add(1013904223);
        let r = (state >> 24) as u8;
        let g = (state >> 20) as u8 & 0xF0;
        let b = if i % 3 == 0 { 9 } else { (state >> 9) as u8 };
        data.extend_from_slice(&[r, g, b, (state >> 1) as u8]);
    }
    let (palette, index) = quantize(&data);
    let (expected_palette, expected_index) = plain_median_cut(&data);
    assert_eq!(palette.len(), 256);
    assert_eq!(palette, expected_palette);
    assert_eq!(index, expected_index);
    // Every channel of an entry lies within the values of its group.
    for channel in 0..3u8 {
        for (n, &entry) in palette.iter().enumerate() {
            let group = index.iter().filter(|&(_, &g)| g as usize == n);
            let values: Vec<u32> = group.map(|(&color, _)| channel_of(color, channel)).collect();
            let mean = channel_of(entry, channel);
            assert!(*values.iter().min().unwrap() <= mean && mean <= *values.iter().max().unwrap());
        }
    }
}

#[test]
fn quantization_depends_on_counts_alone() {
    let mut data = Vec::new();
    for i in 0..900u32 {
        data.extend_from_slice(&[(i * 7) as u8, (i / 3) as u8, (i * i) as u8, 255]);
    }
    let mut shuffled = Vec::new();
    for px in data.chunks_exact(4).rev() {
        shuffled.extend_from_slice(&[8, 8, 8, 0]);
        shuffled.extend_from_slice(px);
    }
    let (palette, index) = quantize(&data);
    assert_eq!(palette.len(), 256);
    assert_eq!(quantize(&shuffled), (palette, index));
}

#[test]
fn scaling_picks_the_nearest_pixels() {
    let source: Vec<u8> = (0..16).collect();
    // 2 by 2 to 4 by 1: the top row, each pixel twice.
    assert_eq!(
        scale_rgba_nearest(&source, 2, 2, 4, 1),
        vec![0, 1, 2, 3, 0, 1, 2, 3, 4, 5, 6, 7, 4, 5, 6, 7]
    );
    assert_eq!(scale_rgba_nearest(&source, 2, 2, 2, 2), source);
    assert_eq!(scale_rgba_nearest(&source, 4, 1, 2, 1), vec![0, 1, 2, 3, 8, 9, 10, 11]);
    assert_eq!(rgba_len(3, 5), Some(60));
}

#[test]
fn crops_are_clamped_and_compose() {
    let source: Vec<u8> = (0..64).collect();
    let (all, w, h) = crop_rgba(&source, 4, 4, 0, 0, 9, 9).expect("crop");
    assert_eq!((w, h), (4, 4));
    assert_eq!(all, source);
    let (outer, w, h) = crop_rgba(&source, 4, 4, 1, 1, 3, 2).expect("crop");
    assert_eq!((w, h), (3, 2));
    let (inner, ..) = crop_rgba(&outer, w, h, 1, 1, 1, 1).expect("crop");
    let (direct, ..) = crop_rgba(&source, 4, 4, 2, 2, 1, 1).expect("crop");
    assert_eq!(inner, direct);
    assert_eq!(inner, vec![40, 41, 42, 43]);
    assert!(crop_rgba(&source, 4, 4, 0, 4, 1, 1).is_none());
    assert!(crop_rgba(&source, 4, 4, 0, 0, 0, 1).is_none());
    assert!(crop_rgba(&source, 4, 4, 0, 0, 1, 0).is_none());
    assert!(crop_rgba(&source[..63], 4, 4, 0, 0, 1, 1).is_none());
}

#[test]
fn rgb_drops_an_incomplete_pixel() {
    assert_eq!(rgb_to_rgba(&[1, 2, 3, 4, 5]), vec![1, 2, 3, 255]);
    assert!(rgb_to_rgba(&[1, 2]).is_empty());
}

#[test]
fn cache_replaces_and_returns_what_was_inserted() {
    let mut cache = SixelEncodeCache::with_capacity(10);
    assert_eq!(cache.len(), 0);
    assert!(!cache.contains(&key(1)));
    cache.insert(key(1), vec![1; 6]);
    cache.insert(key(1), vec![2; 8]);
    assert_eq!(cache.len(), 1);
    assert_eq!(cache.get(&key(1)), Some(vec![2; 8]));
    // What is too large alone is kept, and everything older leaves.
    cache.insert(key(2), vec![3; 99]);
    assert_eq!(cache.len(), 1);
    assert_eq!(cache.get(&key(2)), Some(vec![3; 99]));
    assert!(!cache.contains(&key(1)));
}

#[test]
fn looking_does_not_refresh() {
    let mut cache = SixelEncodeCache::with_capacity(10);
    cache.insert(key(1), vec![0; 5]);
    cache.insert(key(2), vec![0; 5]);
    assert!(cache.contains(&key(1)));
    cache.insert(key(3), vec![0; 5]);
    assert!(!cache.contains(&key(1)));
    assert!(cache.contains(&key(2)) && cache.contains(&key(3)));
}

#[test]
fn default_cache_holds_64_mebibytes() {
    let mut cache = SixelEncodeCache::default();
    cache.insert(key(1), vec![0; 32 * 1024 * 1024]);
    cache.insert(key(2), vec![0; 32 * 1024 * 1024]);
    assert_eq!(cache.len(), 2);
    cache.insert(key(3), vec![0; 1]);
    assert_eq!(cache.len(), 2);
    assert!(!cache.contains(&key(1)));
}

#[test]
fn keys_differ_by_every_part() {
    let base = key(1);
    let mut cache = SixelEncodeCache::with_capacity(100);
    cache.insert(base, vec![1]);
    assert!(!cache.contains(&SixelEncodeKey { data_fingerprint: 2, ..base }));
    assert!(!cache.contains(&SixelEncodeKey { data_len: 2, ..base }));
    assert!(!cache.contains(&SixelEncodeKey { source: (0, 0, 1, 2), ..base }));
    assert!(!cache.contains(&SixelEncodeKey { target: (2, 1), ..base }));
    assert!(cache.contains(&base));
}

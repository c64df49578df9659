use base64::Engine;

use herdr::base64_text::Base64Error;
use herdr::iip_encode::{
    encode_iip, encode_rgba_png, fit_to_pixel_limit, frame_payload, IipSource, IIP_PIXEL_LIMIT,
    IIP_SIZE_LIMIT,
};
use herdr::json_bytes::{deserialize, serialize, WireBytes};

/// Splits a full sequence into its `File=` header fields and the payload that its base64 text
/// stands for, asserting the OSC 1337 framing on the way.
fn parse_sequence(seq: &[u8]) -> (Vec<(String, String)>, Vec<u8>) {
    let text = std::str::from_utf8(seq).expect("sequence is ascii");
    let body = text
        .strip_prefix("\x1b]1337;File=")
        .expect("OSC 1337 File= prefix");
    let body = body.strip_suffix("\x1b\\").expect("ST terminator");
    let (header, payload) = body.split_once(':').expect("':' header terminator");
    let fields = header
        .split(';')
        .map(|kv| {
            let (k, v) = kv.split_once('=').expect("key=value field");
            (k.to_string(), v.to_string())
        })
        .collect();
    let decoded = base64::engine::general_purpose::STANDARD
        .decode(payload)
        .expect("valid base64 payload");
    (fields, decoded)
}

fn field<'a>(fields: &'a [(String, String)], key: &str) -> &'a str {
    &fields
        .iter()
        .find(|(k, _)| k == key)
        .unwrap_or_else(|| panic!("missing header field {key}"))
        .1
}

/// Decodes a PNG byte stream into (RGBA pixels, width, height).
fn decode_png_rgba(bytes: &[u8]) -> (Vec<u8>, u32, u32) {
    let decoder = png::Decoder::new(std::io::Cursor::new(bytes));
    let mut reader = decoder.read_info().expect("valid PNG stream");
    let mut buf = vec![0u8; reader.output_buffer_size()];
    let info = reader.next_frame(&mut buf).expect("PNG frame decodes");
    assert_eq!(info.color_type, png::ColorType::Rgba);
    assert_eq!(info.bit_depth, png::BitDepth::Eight);
    buf.truncate(info.buffer_size());
    (buf, info.width, info.height)
}

#[test]
fn png_passthrough_preserves_bytes_and_declares_honest_header() {
    // Passthrough never inspects the bytes; arbitrary content stands in
    // for a real PNG upload.
    let input: Vec<u8> = (0..=255u8).cycle().take(1000).collect();
    let seq = encode_iip(IipSource::Png(&input), 12, 7).expect("passthrough encodes");

    let (fields, decoded) = parse_sequence(&seq);
    assert_eq!(decoded, input, "base64 payload decodes byte-identical");
    assert_eq!(field(&fields, "inline"), "1");
    assert_eq!(field(&fields, "size"), input.len().to_string());
    assert_eq!(field(&fields, "width"), "12");
    assert_eq!(field(&fields, "height"), "7");
    assert_eq!(field(&fields, "preserveAspectRatio"), "0");
}

#[test]
fn rgba_encodes_valid_png_with_matching_pixels() {
    // 2 by 1: red then blue.
    let rgba = [255u8, 0, 0, 255, 0, 0, 255, 255];
    let seq = encode_iip(
        IipSource::Rgba { data: &rgba, width: 2, height: 1 },
        4,
        2,
    )
    .expect("rgba encodes");

    let (fields, decoded) = parse_sequence(&seq);
    assert_eq!(field(&fields, "size"), decoded.len().to_string());
    let (pixels, w, h) = decode_png_rgba(&decoded);
    assert_eq!((w, h), (2, 1));
    assert_eq!(pixels, rgba);
}

#[test]
fn oversized_rgba_is_downscaled_under_pixel_limit_preserving_aspect() {
    // 6000 by 3000 is 18 Mpx, above the 16 Mpx budget.
    let (width, height) = (6000u32, 3000u32);
    let rgba = vec![0x7fu8; (width as usize) * (height as usize) * 4];
    let seq = encode_iip(
        IipSource::Rgba { data: &rgba, width, height },
        80,
        24,
    )
    .expect("oversized rgba encodes after downscale");

    let (_, decoded) = parse_sequence(&seq);
    let (_, w, h) = decode_png_rgba(&decoded);
    assert!(w < width && h < height, "downscaled: {w}x{h}");
    assert!(
        u64::from(w) * u64::from(h) <= 16_000_000,
        "fits pixel budget: {w}x{h}"
    );
    // Aspect preserved: expected height from the scaled width within 1px.
    let expected_h = (u64::from(w) * u64::from(height)) / u64::from(width);
    assert!(
        u64::from(h).abs_diff(expected_h) <= 1,
        "aspect preserved: {w}x{h} vs expected height {expected_h}"
    );
}

#[test]
fn oversized_decoded_payload_is_rejected() {
    let input = vec![0u8; IIP_SIZE_LIMIT + 1];
    assert!(encode_iip(IipSource::Png(&input), 10, 10).is_none());
    // At the boundary the payload still passes.
    let input = vec![0u8; IIP_SIZE_LIMIT];
    assert!(encode_iip(IipSource::Png(&input), 10, 10).is_some());
}

#[test]
fn degenerate_input_yields_none() {
    assert!(encode_iip(IipSource::Png(&[]), 10, 10).is_none());
    assert!(encode_iip(IipSource::Png(b"png"), 0, 10).is_none());
    assert!(encode_iip(IipSource::Png(b"png"), 10, 0).is_none());
    assert!(
        encode_iip(IipSource::Rgba { data: &[], width: 0, height: 0 }, 10, 10).is_none()
    );
    assert!(
        encode_iip(IipSource::Rgba { data: &[], width: 1, height: 1 }, 10, 10).is_none()
    );
    // Short buffer for the declared dimensions.
    assert!(
        encode_iip(IipSource::Rgba { data: &[0, 0, 0], width: 1, height: 1 }, 10, 10)
            .is_none()
    );
}

#[test]
fn sequence_terminates_with_st() {
    let seq = encode_iip(IipSource::Png(b"payload"), 1, 1).expect("encodes");
    assert_eq!(&seq[seq.len() - 2..], b"\x1b\\", "ESC backslash terminator");
}

#[test]
fn sequence_bytes_are_exact() {
    let seq = encode_iip(IipSource::Png(b"any carnal pleasure"), 12, 345).expect("encodes");
    assert_eq!(
        String::from_utf8(seq).expect("ascii"),
        "\x1b]1337;File=inline=1;size=19;width=12;height=345;preserveAspectRatio=0:\
         YW55IGNhcm5hbCBwbGVhc3VyZQ==\x1b\\"
    );
    assert_eq!(
        frame_payload(b"", 1, 1),
        Some(
            b"\x1b]1337;File=inline=1;size=0;width=1;height=1;preserveAspectRatio=0:\x1b\\".to_vec()
        )
    );
    assert!(frame_payload(b"x", 0, 1).is_none());
    assert!(frame_payload(b"x", 1, 0).is_none());
    assert!(frame_payload(&vec![0; IIP_SIZE_LIMIT + 1], 1, 1).is_none());
}

#[test]
fn sequence_is_one_control_string() {
    let payload: Vec<u8> = (0..=255).collect();
    let seq = encode_iip(IipSource::Png(&payload), 1, 1).expect("encodes");
    assert_eq!(seq[0], 0x1b);
    assert!(seq[1..seq.len() - 2].iter().all(|&b| (32..127).contains(&b)));
}

#[test]
fn png_files_hold_the_pixels() {
    let mut rgba: Vec<u8> = (0..48).map(|i| i * 5).collect();
    let file = encode_rgba_png(&rgba, 3, 4).expect("encodes");
    assert_eq!(decode_png_rgba(&file), (rgba.clone(), 3, 4));
    // Bytes behind the last pixel are left out.
    rgba.extend_from_slice(&[1, 2, 3]);
    assert_eq!(encode_rgba_png(&rgba, 3, 4), Some(file));
    assert!(encode_rgba_png(&rgba, 0, 4).is_none());
    assert!(encode_rgba_png(&rgba, 3, 0).is_none());
    assert!(encode_rgba_png(&rgba, 13, 1).is_none());
    assert!(encode_rgba_png(&rgba, u32::MAX, u32::MAX).is_none());
}

#[test]
fn long_lines_are_sampled() {
    // 16,000,001 by 1: every target pixel is the source pixel at its own place.
    let width = 16_000_001u32;
    let mut rgba = vec![0u8; width as usize * 4];
    rgba[4..8].copy_from_slice(&[1, 2, 3, 4]);
    let file = encode_rgba_png(&rgba, width, 1).expect("encodes");
    let (pixels, w, h) = decode_png_rgba(&file);
    assert_eq!((w, h), (16_000_000, 1));
    assert_eq!(&pixels[..12], &[0, 0, 0, 0, 1, 2, 3, 4, 0, 0, 0, 0]);
}

#[test]
fn sizes_are_fitted_to_the_pixel_limit() {
    assert_eq!(fit_to_pixel_limit(4000, 4000), (4000, 4000));
    assert_eq!(fit_to_pixel_limit(1, 1), (1, 1));
    assert_eq!(fit_to_pixel_limit(0, 7), (0, 7));
    assert_eq!(fit_to_pixel_limit(6000, 3000), (5656, 2828));
    assert_eq!(fit_to_pixel_limit(3000, 6000), (2828, 5656));
    assert_eq!(fit_to_pixel_limit(8000, 8000), (4000, 4000));
    // A side that would vanish stays at one pixel.
    assert_eq!(fit_to_pixel_limit(1, 20_000_000), (1, 16_000_000));
    assert_eq!(fit_to_pixel_limit(20_000_000, 1), (16_000_000, 1));
    assert_eq!(fit_to_pixel_limit(u32::MAX, 1), (16_000_000, 1));
    assert_eq!(fit_to_pixel_limit(u32::MAX, u32::MAX), (4000, 4000));
}

#[test]
fn fitted_sizes_follow_the_square_root() {
    let mut state = 99u64;
    for _ in 0..2000 {
        state = state.wrapping_mul(6364136223846793005).wrapping_add(1442695040888963407);
        let width = (state >> 33) as u32 % 30000 + 1;
        let height = (state >> 13) as u32 % 30000 + 1;
        let (w, h) = fit_to_pixel_limit(width, height);
        let pixels = u64::from(width) * u64::from(height);
        if pixels <= IIP_PIXEL_LIMIT {
            assert_eq!((w, h), (width, height));
            continue;
        }
        assert!(u64::from(w) * u64::from(h) <= IIP_PIXEL_LIMIT);
        assert!(w >= 1 && h >= 1 && w <= width && h <= height);
        let scale = (IIP_PIXEL_LIMIT as f64 / pixels as f64).sqrt();
        assert!((f64::from(width) * scale - f64::from(w)).abs() <= 1.000001);
        assert!((f64::from(height) * scale - f64::from(h)).abs() <= 1.000001);
        // Neither side could be a pixel longer.
        let limit = u128::from(IIP_PIXEL_LIMIT);
        assert!(u128::from(w + 1).pow(2) * u128::from(height) > u128::from(width) * limit);
        assert!(u128::from(h + 1).pow(2) * u128::from(width) > u128::from(height) * limit);
        // The aspect ratio holds to within a pixel on either side.
        assert!(u64::from(w) * u64::from(height) < u64::from(h + 1) * u64::from(width));
        assert!(u64::from(h) * u64::from(width) < u64::from(w + 1) * u64::from(height));
    }
}

fn text_of(bytes: &[u8]) -> String {
    match serialize(bytes, true) {
        WireBytes::Text(text) => text,
        WireBytes::Raw(_) => panic!("text formats carry text"),
    }
}

#[test]
fn byte_strings_are_base64_in_text_formats() {
    assert_eq!(text_of(b""), "");
    assert_eq!(text_of(b"f"), "Zg==");
    assert_eq!(text_of(b"fo"), "Zm8=");
    assert_eq!(text_of(b"foo"), "Zm9v");
    assert_eq!(text_of(b"foobar"), "Zm9vYmFy");
    assert_eq!(text_of(&[0xfb, 0xef, 0xff]), "++//");
}

#[test]
fn byte_strings_survive_the_wire() {
    for len in 0..70usize {
        let bytes: Vec<u8> = (0..len).map(|i| (i * 37 + len) as u8).collect();
        for human_readable in [true, false] {
            let wire = serialize(&bytes, human_readable);
            assert_eq!(matches!(wire, WireBytes::Text(_)), human_readable);
            assert_eq!(deserialize(wire), Ok(bytes.clone()));
        }
    }
}

#[test]
fn malformed_base64_is_refused() {
    let read = |text: &str| deserialize(WireBytes::Text(text.to_string()));
    assert_eq!(read("Zm9v"), Ok(b"foo".to_vec()));
    assert_eq!(read("Zm9*"), Err(Base64Error::InvalidByte(3, b'*')));
    assert_eq!(read("Zm9vZ"), Err(Base64Error::InvalidLength(5)));
    assert_eq!(read("Zm9="), Err(Base64Error::InvalidLastSymbol(2, b'9')));
    assert_eq!(read("Zm8"), Err(Base64Error::InvalidPadding));
    assert_eq!(read("Zg="), Err(Base64Error::InvalidPadding));
    assert_eq!(read("="), Err(Base64Error::InvalidByte(0, b'=')));
    assert_eq!(read("Zg==Zg=="), Err(Base64Error::InvalidByte(2, b'=')));
    assert_eq!(deserialize(WireBytes::Raw(vec![b'*'])), Ok(vec![b'*']));
}

use imgcore::colorspace::{BitDepth, ColorCharacteristics, ColorSpace, EncoderOptions};
use imgcore::encoder::QoiEncoder;
use imgcore::errors::QoiEncodeErrors;
use nanorand::Rng;

const TRAILER: [u8; 8] = [0, 0, 0, 0, 0, 0, 0, 1];

fn header(width: u32, height: u32, channels: u8, colorspace: u8) -> Vec<u8> {
    let mut h = b"qoif".to_vec();
    h.extend_from_slice(&width.to_be_bytes());
    h.extend_from_slice(&height.to_be_bytes());
    h.push(channels);
    h.push(colorspace);
    h
}

fn stream(width: u32, height: u32, channels: u8, body: &[u8]) -> Vec<u8> {
    let mut s = header(width, height, channels, 0);
    s.extend_from_slice(body);
    s.extend_from_slice(&TRAILER);
    s
}

fn encode(pixels: &[u8], width: usize, height: usize, colorspace: ColorSpace) -> Vec<u8> {
    let mut encoder =
        QoiEncoder::new(pixels, EncoderOptions::new(width, height, colorspace, BitDepth::Eight));
    encoder.encode().unwrap()
}

/// A decoder written after the format's description, to read back what the
/// encoder wrote.
fn decode(bytes: &[u8]) -> (u32, u32, u8, u8, Vec<u8>) {
    assert!(bytes.len() >= 22);
    assert_eq!(&bytes[0..4], b"qoif");
    let width = u32::from_be_bytes([bytes[4], bytes[5], bytes[6], bytes[7]]);
    let height = u32::from_be_bytes([bytes[8], bytes[9], bytes[10], bytes[11]]);
    let channels = bytes[12];
    let colorspace = bytes[13];
    assert!(channels == 3 || channels == 4);
    assert_eq!(&bytes[bytes.len() - 8..], &TRAILER);
    let chunks = &bytes[14..bytes.len() - 8];
    let count = width as usize * height as usize;
    let mut out = Vec::with_capacity(count * channels as usize);
    let mut index = [[0u8; 4]; 64];
    let mut px = [0u8, 0, 0, 255];
    let mut p = 0usize;
    let mut run = 0u32;
    for _ in 0..count {
        if run > 0 {
            run -= 1;
        } else {
            let b1 = chunks[p];
            p += 1;
            if b1 == 0xFE {
                px[0] = chunks[p];
                px[1] = chunks[p + 1];
                px[2] = chunks[p + 2];
                p += 3;
            } else if b1 == 0xFF {
                px[0] = chunks[p];
                px[1] = chunks[p + 1];
                px[2] = chunks[p + 2];
                px[3] = chunks[p + 3];
                p += 4;
            } else if b1 & 0xC0 == 0x00 {
                px = index[b1 as usize];
            } else if b1 & 0xC0 == 0x40 {
                px[0] = px[0].wrapping_add((b1 >> 4) & 3).wrapping_sub(2);
                px[1] = px[1].wrapping_add((b1 >> 2) & 3).wrapping_sub(2);
                px[2] = px[2].wrapping_add(b1 & 3).wrapping_sub(2);
            } else if b1 & 0xC0 == 0x80 {
                let b2 = chunks[p];
                p += 1;
                let vg = (b1 & 0x3F).wrapping_sub(32);
                px[0] = px[0].wrapping_add(vg.wrapping_sub(8).wrapping_add((b2 >> 4) & 0x0F));
                px[1] = px[1].wrapping_add(vg);
                px[2] = px[2].wrapping_add(vg.wrapping_sub(8).wrapping_add(b2 & 0x0F));
            } else {
                run = (b1 & 0x3F) as u32;
            }
            let slot = (px[0] as usize * 3
                + px[1] as usize * 5
                + px[2] as usize * 7
                + px[3] as usize * 11)
                % 64;
            index[slot] = px;
        }
        out.extend_from_slice(&px[..channels as usize]);
    }
    assert_eq!(p, chunks.len(), "the chunks hold more than the pixels");
    assert_eq!(run, 0, "a run goes past the last pixel");
    (width, height, channels, colorspace, out)
}

#[test]
fn test_qoi_encode_rgb() {
    const W: usize = 100;
    const H: usize = 100;

    let pixels = std::array::from_fn::<u8, { W * H * 3 }, _>(|i| (i % 256) as u8);
    let mut encoder = QoiEncoder::new(
        &pixels,
        EncoderOptions::new(W, H, ColorSpace::RGB, BitDepth::Eight)
    );
    encoder.encode().unwrap();
}

#[test]
fn test_qoi_encode_rgba() {
    const W: usize = 100;
    const H: usize = 100;

    let pixels = std::array::from_fn::<u8, { W * H * 4 }, _>(|i| (i % 256) as u8);
    let mut encoder = QoiEncoder::new(
        &pixels,
        EncoderOptions::new(W, H, ColorSpace::RGBA, BitDepth::Eight)
    );
    encoder.encode().unwrap();
}

#[test]
fn rgb_ramp_has_header_and_trailer() {
    let pixels: Vec<u8> = (0..100 * 100 * 3).map(|i| (i % 256) as u8).collect();
    let out = encode(&pixels, 100, 100, ColorSpace::RGB);
    assert_eq!(
        &out[..14],
        &[0x71, 0x6F, 0x69, 0x66, 0x00, 0x00, 0x00, 0x64, 0x00, 0x00, 0x00, 0x64, 0x03, 0x00]
    );
    assert_eq!(&out[out.len() - 8..], &TRAILER);
    assert!(out.len() <= 100 * 100 * 4 + 22);
    let (w, h, c, cs, back) = decode(&out);
    assert_eq!((w, h, c, cs), (100, 100, 3, 0));
    assert_eq!(back, pixels);
}

#[test]
fn rgba_ramp_has_header_and_trailer() {
    let pixels: Vec<u8> = (0..100 * 100 * 4).map(|i| (i % 256) as u8).collect();
    let out = encode(&pixels, 100, 100, ColorSpace::RGBA);
    assert_eq!(
        &out[..14],
        &[0x71, 0x6F, 0x69, 0x66, 0x00, 0x00, 0x00, 0x64, 0x00, 0x00, 0x00, 0x64, 0x04, 0x00]
    );
    assert_eq!(&out[out.len() - 8..], &TRAILER);
    assert!(out.len() <= 100 * 100 * 5 + 22);
    let (w, h, c, cs, back) = decode(&out);
    assert_eq!((w, h, c, cs), (100, 100, 4, 0));
    assert_eq!(back, pixels);
}

#[test]
fn uniform_black_rgb_is_one_run() {
    let out = encode(&[0u8; 12], 2, 2, ColorSpace::RGB);
    assert_eq!(out, stream(2, 2, 3, &[0xC3]));
}

#[test]
fn rgba_single_pixel_is_an_rgb_chunk() {
    let out = encode(&[10, 20, 30, 255], 1, 1, ColorSpace::RGBA);
    assert_eq!(out, stream(1, 1, 4, &[0xFE, 10, 20, 30]));
}

#[test]
fn rgba_alpha_change_is_an_rgba_chunk() {
    let out = encode(&[0, 0, 0, 1], 1, 1, ColorSpace::RGBA);
    assert_eq!(out, stream(1, 1, 4, &[0xFF, 0, 0, 0, 1]));
    let out = encode(&[10, 20, 30, 0], 1, 1, ColorSpace::RGBA);
    assert_eq!(out, stream(1, 1, 4, &[0xFF, 10, 20, 30, 0]));
    // Small steps in color do not matter once alpha changes.
    let out = encode(&[1, 1, 1, 254], 1, 1, ColorSpace::RGBA);
    assert_eq!(out, stream(1, 1, 4, &[0xFF, 1, 1, 1, 254]));
}

#[test]
fn width_over_32_bits_is_refused() {
    let wide = u32::MAX as usize + 1;
    let mut encoder =
        QoiEncoder::new(&[], EncoderOptions::new(wide, 0, ColorSpace::RGB, BitDepth::Eight));
    match encoder.encode() {
        Err(QoiEncodeErrors::TooLargeDimensions(d)) => assert_eq!(d, wide),
        other => panic!("unexpected result {:?}", other),
    }
    let mut buf = [0u8; 64];
    match encoder.encode_into(&mut buf) {
        Err(QoiEncodeErrors::TooLargeDimensions(d)) => assert_eq!(d, wide),
        other => panic!("unexpected result {:?}", other),
    }
}

#[test]
fn height_over_32_bits_is_refused() {
    let tall = u32::MAX as usize + 7;
    let mut encoder =
        QoiEncoder::new(&[], EncoderOptions::new(0, tall, ColorSpace::RGBA, BitDepth::Eight));
    match encoder.encode() {
        Err(QoiEncodeErrors::TooLargeDimensions(d)) => assert_eq!(d, tall),
        other => panic!("unexpected result {:?}", other),
    }
}

#[test]
fn largest_dimensions_are_accepted() {
    let out = encode(&[], u32::MAX as usize, 0, ColorSpace::RGB);
    assert_eq!(out, stream(u32::MAX, 0, 3, &[]));
    let out = encode(&[], 0, u32::MAX as usize, ColorSpace::RGBA);
    assert_eq!(out, stream(0, u32::MAX, 4, &[]));
}

#[test]
fn wrong_length_is_refused() {
    for len in [0usize, 11, 13, 16] {
        let pixels = vec![0u8; len];
        let mut encoder =
            QoiEncoder::new(&pixels, EncoderOptions::new(2, 2, ColorSpace::RGB, BitDepth::Eight));
        match encoder.encode() {
            Err(QoiEncodeErrors::Generic(m)) => assert_eq!(m, "length mismatch"),
            other => panic!("unexpected result {:?}", other),
        }
        let mut buf = [0u8; 64];
        match encoder.encode_into(&mut buf) {
            Err(QoiEncodeErrors::Generic(m)) => assert_eq!(m, "length mismatch"),
            other => panic!("unexpected result {:?}", other),
        }
    }
}

#[test]
fn length_is_tested_before_dimensions_and_colorspace() {
    let wide = u32::MAX as usize + 1;
    let mut encoder =
        QoiEncoder::new(&[0u8], EncoderOptions::new(wide, 0, ColorSpace::Luma, BitDepth::Eight));
    match encoder.encode() {
        Err(QoiEncodeErrors::Generic(m)) => assert_eq!(m, "length mismatch"),
        other => panic!("unexpected result {:?}", other),
    }
    let mut encoder =
        QoiEncoder::new(&[], EncoderOptions::new(wide, 0, ColorSpace::Luma, BitDepth::Eight));
    match encoder.encode() {
        Err(QoiEncodeErrors::TooLargeDimensions(d)) => assert_eq!(d, wide),
        other => panic!("unexpected result {:?}", other),
    }
}

#[test]
fn other_colorspaces_are_refused() {
    let cases: [(ColorSpace, usize); 12] = [
        (ColorSpace::YCbCr, 3),
        (ColorSpace::Luma, 1),
        (ColorSpace::LumaA, 2),
        (ColorSpace::YCCK, 4),
        (ColorSpace::CMYK, 4),
        (ColorSpace::BGR, 3),
        (ColorSpace::BGRA, 4),
        (ColorSpace::Unknown, 0),
        (ColorSpace::ARGB, 4),
        (ColorSpace::HSL, 3),
        (ColorSpace::HSV, 3),
        (ColorSpace::MultiBand(6), 6),
    ];
    for (colorspace, channels) in cases {
        assert_eq!(colorspace.num_components(), channels);
        let pixels = vec![0u8; 2 * 3 * channels];
        let mut encoder =
            QoiEncoder::new(&pixels, EncoderOptions::new(2, 3, colorspace, BitDepth::Eight));
        match encoder.encode() {
            Err(QoiEncodeErrors::UnsupportedColorspace(got, allowed)) => {
                assert_eq!(got, colorspace);
                assert_eq!(allowed, [ColorSpace::RGB, ColorSpace::RGBA]);
            }
            other => panic!("unexpected result {:?}", other),
        }
    }
    assert_eq!(ColorSpace::RGB.num_components(), 3);
    assert_eq!(ColorSpace::RGBA.num_components(), 4);
}

#[test]
fn header_needs_fourteen_bytes() {
    let pixels = [0u8; 3];
    let mut encoder =
        QoiEncoder::new(&pixels, EncoderOptions::new(1, 1, ColorSpace::RGB, BitDepth::Eight));
    for len in [0usize, 1, 13] {
        let mut buf = vec![0u8; len];
        match encoder.encode_into(&mut buf) {
            Err(QoiEncodeErrors::Generic(m)) => assert_eq!(m, "cannot allocate header space"),
            other => panic!("unexpected result {:?}", other),
        }
    }
}

#[test]
fn short_buffer_is_refused_and_exact_buffer_is_enough() {
    let pixels: Vec<u8> = (0..7 * 5 * 4).map(|i| (i * 37 % 251) as u8).collect();
    let whole = encode(&pixels, 7, 5, ColorSpace::RGBA);
    let mut encoder =
        QoiEncoder::new(&pixels, EncoderOptions::new(7, 5, ColorSpace::RGBA, BitDepth::Eight));
    for len in 14..whole.len() {
        let mut buf = vec![0u8; len];
        match encoder.encode_into(&mut buf) {
            Err(QoiEncodeErrors::Generic(m)) => assert_eq!(m, "not enough space"),
            other => panic!("unexpected result {:?} for {} bytes", other, len),
        }
    }
    let mut buf = vec![0u8; whole.len()];
    assert_eq!(encoder.encode_into(&mut buf).unwrap(), whole.len());
    assert_eq!(buf, whole);
}

#[test]
fn short_buffer_with_a_pending_run_is_refused() {
    // 61 repeats of the start pixel, then one pixel that needs five bytes.
    let mut pixels = Vec::new();
    for _ in 0..61 {
        pixels.extend_from_slice(&[0, 0, 0, 255]);
    }
    pixels.extend_from_slice(&[9, 99, 199, 7]);
    let whole = encode(&pixels, 62, 1, ColorSpace::RGBA);
    assert_eq!(whole, stream(62, 1, 4, &[0xC0 | 60, 0xFF, 9, 99, 199, 7]));
    let mut encoder =
        QoiEncoder::new(&pixels, EncoderOptions::new(62, 1, ColorSpace::RGBA, BitDepth::Eight));
    for len in 14..whole.len() {
        let mut buf = vec![0u8; len];
        assert!(matches!(
            encoder.encode_into(&mut buf),
            Err(QoiEncodeErrors::Generic("not enough space"))
        ));
    }
}

#[test]
fn encode_into_leaves_the_rest_of_the_buffer_alone() {
    let pixels = [1u8, 2, 3, 4, 5, 6];
    let whole = encode(&pixels, 2, 1, ColorSpace::RGB);
    let mut encoder =
        QoiEncoder::new(&pixels, EncoderOptions::new(2, 1, ColorSpace::RGB, BitDepth::Eight));
    let mut buf = vec![0x5Au8; whole.len() + 10];
    let n = encoder.encode_into(&mut buf).unwrap();
    assert_eq!(n, whole.len());
    assert_eq!(&buf[..n], &whole[..]);
    assert!(buf[n..].iter().all(|b| *b == 0x5A));
}

#[test]
fn max_size_counts_a_tag_for_every_pixel() {
    let pixels = vec![0u8; 100 * 100 * 3];
    let encoder =
        QoiEncoder::new(&pixels, EncoderOptions::new(100, 100, ColorSpace::RGB, BitDepth::Eight));
    assert_eq!(encoder.max_size(), 100 * 100 * 4 + 14 + 8);
    let pixels = vec![0u8; 3 * 5 * 4];
    let encoder =
        QoiEncoder::new(&pixels, EncoderOptions::new(3, 5, ColorSpace::RGBA, BitDepth::Eight));
    assert_eq!(encoder.max_size(), 3 * 5 * 5 + 22);
    let encoder = QoiEncoder::new(&[], EncoderOptions::new(0, 9, ColorSpace::Luma, BitDepth::Eight));
    assert_eq!(encoder.max_size(), 22);
    let encoder =
        QoiEncoder::new(&[], EncoderOptions::new(4, 9, ColorSpace::MultiBand(9), BitDepth::Eight));
    assert_eq!(encoder.max_size(), 4 * 9 * 10 + 22);
}

#[test]
fn worst_case_fills_max_size() {
    // Every pixel changes alpha and all channels by a lot: five bytes each.
    let mut pixels = Vec::new();
    for i in 0..40u32 {
        let v = (i * 97 % 256) as u8;
        pixels.extend_from_slice(&[v, v.wrapping_mul(3), v.wrapping_add(128), (i as u8) * 5 + 1]);
    }
    let mut encoder =
        QoiEncoder::new(&pixels, EncoderOptions::new(8, 5, ColorSpace::RGBA, BitDepth::Eight));
    let out = encoder.encode().unwrap();
    assert!(out.len() <= encoder.max_size());
    assert_eq!(out.len(), 8 * 5 * 5 + 22);
    assert_eq!(decode(&out).4, pixels);
}

#[test]
fn linear_sets_the_last_header_byte() {
    let pixels = [7u8, 8, 9];
    let mut encoder =
        QoiEncoder::new(&pixels, EncoderOptions::new(1, 1, ColorSpace::RGB, BitDepth::Eight));
    let srgb = encoder.encode().unwrap();
    encoder.set_color_characteristics(ColorCharacteristics::Linear);
    let linear = encoder.encode().unwrap();
    assert_eq!(&linear[..14], &header(1, 1, 3, 1)[..]);
    assert_eq!(&srgb[..14], &header(1, 1, 3, 0)[..]);
    assert_eq!(&linear[14..], &srgb[14..]);
    encoder.set_color_characteristics(ColorCharacteristics::sRGB);
    assert_eq!(encoder.encode().unwrap(), srgb);
}

#[test]
fn header_does_not_depend_on_the_pixels() {
    let a = encode(&[0u8; 5 * 3 * 3], 5, 3, ColorSpace::RGB);
    let b: Vec<u8> = (0..5 * 3 * 3).map(|i| (i * 11) as u8).collect();
    let b = encode(&b, 5, 3, ColorSpace::RGB);
    assert_eq!(&a[..14], &b[..14]);
    assert_eq!(&a[..14], &header(5, 3, 3, 0)[..]);
    assert_ne!(a, b);
}

#[test]
fn uniform_image_is_runs_only() {
    for n in [0usize, 1, 2, 61, 62, 63, 123, 124, 125, 200, 1000] {
        let mut pixels = Vec::new();
        for _ in 0..n {
            pixels.extend_from_slice(&[0, 0, 0, 255]);
        }
        let mut body = vec![0xFDu8; n / 62];
        if n % 62 > 0 {
            body.push(0xC0 | (n % 62 - 1) as u8);
        }
        assert_eq!(body.len(), (n + 61) / 62);
        assert_eq!(encode(&pixels, n, 1, ColorSpace::RGBA), stream(n as u32, 1, 4, &body));
        assert_eq!(encode(&vec![0u8; 3 * n], 1, n, ColorSpace::RGB), stream(1, n as u32, 3, &body));
    }
}

#[test]
fn empty_image_is_header_and_trailer() {
    assert_eq!(encode(&[], 0, 0, ColorSpace::RGB), stream(0, 0, 3, &[]));
    assert_eq!(encode(&[], 0, 5, ColorSpace::RGBA), stream(0, 5, 4, &[]));
    let mut encoder = QoiEncoder::new(&[], EncoderOptions::new(3, 0, ColorSpace::RGB, BitDepth::Eight));
    let mut buf = [0u8; 22];
    assert_eq!(encoder.encode_into(&mut buf).unwrap(), 22);
    let mut buf = [0u8; 21];
    assert!(matches!(
        encoder.encode_into(&mut buf),
        Err(QoiEncodeErrors::Generic("not enough space"))
    ));
}

#[test]
fn small_difference_is_one_byte() {
    // From opaque black: +1 on every channel.
    assert_eq!(encode(&[1, 1, 1], 1, 1, ColorSpace::RGB), stream(1, 1, 3, &[0x7F]));
    // -2, +1, -1, all modulo 256.
    assert_eq!(encode(&[254, 1, 255], 1, 1, ColorSpace::RGB), stream(1, 1, 3, &[0x40 | 0x0D]));
    // -2 on every channel.
    assert_eq!(encode(&[254, 254, 254], 1, 1, ColorSpace::RGB), stream(1, 1, 3, &[0x40]));
}

#[test]
fn luma_difference_is_two_bytes() {
    assert_eq!(encode(&[18, 20, 25], 1, 1, ColorSpace::RGB), stream(1, 1, 3, &[0xB4, 0x6D]));
    // Green -32, red and blue 8 below green.
    assert_eq!(encode(&[216, 224, 216], 1, 1, ColorSpace::RGB), stream(1, 1, 3, &[0x80, 0x00]));
    // Green +31, red and blue 7 above green.
    assert_eq!(encode(&[38, 31, 38], 1, 1, ColorSpace::RGB), stream(1, 1, 3, &[0xBF, 0xFF]));
    // Green +32 no longer fits.
    assert_eq!(encode(&[32, 32, 32], 1, 1, ColorSpace::RGB), stream(1, 1, 3, &[0xFE, 32, 32, 32]));
}

#[test]
fn seen_pixel_is_an_index_chunk() {
    let pixels = [10u8, 20, 30, 50, 60, 70, 10, 20, 30];
    let body = [0xFE, 10, 20, 30, 0xFE, 50, 60, 70, 0x09];
    assert_eq!(encode(&pixels, 3, 1, ColorSpace::RGB), stream(3, 1, 3, &body));
}

#[test]
fn run_is_written_before_the_next_chunk() {
    let pixels = [10u8, 20, 30, 10, 20, 30, 10, 20, 30, 50, 60, 70, 50, 60, 70];
    let body = [0xFE, 10, 20, 30, 0xC1, 0xFE, 50, 60, 70, 0xC0];
    assert_eq!(encode(&pixels, 5, 1, ColorSpace::RGB), stream(5, 1, 3, &body));
}

#[test]
fn transparent_black_is_found_in_the_fresh_index() {
    // Every slot of the fresh index holds transparent black, and slot 0 is
    // where that pixel belongs: the first such pixel is an index chunk.
    let out = encode(&[0, 0, 0, 0], 1, 1, ColorSpace::RGBA);
    assert_eq!(out, stream(1, 1, 4, &[0x00]));
    assert_eq!(decode(&out).4, vec![0, 0, 0, 0]);
}

#[test]
fn opaque_black_after_a_change_is_not_found_in_the_fresh_index() {
    // Opaque black belongs in slot 53, which still holds transparent black.
    let pixels = [5u8, 5, 5, 255, 0, 0, 0, 255];
    let out = encode(&pixels, 2, 1, ColorSpace::RGBA);
    assert_eq!(out, stream(2, 1, 4, &[0xA5, 0x88, 0x9B, 0x88]));
    assert_eq!(decode(&out).4, pixels.to_vec());
}

#[test]
fn round_trip_of_random_images() {
    let mut rng = nanorand::WyRand::new_seed(2024);
    for (w, h) in [(1usize, 1usize), (3, 7), (16, 16), (64, 3), (31, 33)] {
        for (colorspace, channels) in [(ColorSpace::RGB, 3usize), (ColorSpace::RGBA, 4usize)] {
            let mut pixels = vec![0u8; w * h * channels];
            rng.fill(&mut pixels);
            let out = encode(&pixels, w, h, colorspace);
            let (dw, dh, dc, dcs, back) = decode(&out);
            assert_eq!((dw as usize, dh as usize, dc as usize, dcs), (w, h, channels, 0));
            assert_eq!(back, pixels);
            assert!(out.len() <= w * h * (channels + 1) + 22);
        }
    }
}

#[test]
fn round_trip_of_smooth_images() {
    // Few colors, small steps and repeats: runs, index hits, DIFF and LUMA.
    let mut rng = nanorand::WyRand::new_seed(5);
    for channels in [3usize, 4] {
        let colorspace = if channels == 3 { ColorSpace::RGB } else { ColorSpace::RGBA };
        let (w, h) = (97usize, 41usize);
        let mut pixels = Vec::with_capacity(w * h * channels);
        let mut px = [0u8, 0, 0, 255];
        for _ in 0..w * h {
            match rng.generate_range(0u8..10) {
                0..=3 => {}
                4 | 5 => {
                    px[0] = px[0].wrapping_add(rng.generate_range(0u8..4)).wrapping_sub(2);
                    px[1] = px[1].wrapping_add(rng.generate_range(0u8..4)).wrapping_sub(2);
                    px[2] = px[2].wrapping_add(rng.generate_range(0u8..4)).wrapping_sub(2);
                }
                6 | 7 => {
                    let g = rng.generate_range(0u8..64).wrapping_sub(32);
                    px[1] = px[1].wrapping_add(g);
                    px[0] = px[0].wrapping_add(g).wrapping_add(rng.generate_range(0u8..16)).wrapping_sub(8);
                    px[2] = px[2].wrapping_add(g).wrapping_add(rng.generate_range(0u8..16)).wrapping_sub(8);
                }
                8 => {
                    let v = rng.generate_range(0u8..4) * 60;
                    px = [v, v, v, px[3]];
                }
                _ => {
                    px[3] = rng.generate_range(0u8..3) * 127;
                }
            }
            pixels.extend_from_slice(&px[..channels]);
        }
        let out = encode(&pixels, w, h, colorspace);
        assert!(out.len() < w * h * channels, "nothing was compressed");
        assert_eq!(decode(&out).4, pixels);
    }
}

use imgcore::codecs::{get_decoder, guess_format, Decoder, DecoderErrors, SupportedDecoders};

#[test]
fn sniff_png() {
    let magic = [137u8, 80, 78, 71, 13, 10, 26, 10];
    assert_eq!(guess_format(&magic), Some(SupportedDecoders::Png));
    let mut longer = magic.to_vec();
    longer.extend_from_slice(&[0, 0, 0, 13, 73, 72, 68, 82]);
    assert_eq!(guess_format(&longer), Some(SupportedDecoders::Png));
    assert_eq!(guess_format(&magic[..7]), None);
}

#[test]
fn sniff_jpeg() {
    assert_eq!(guess_format(&[0xff, 0xd8, 0xff]), Some(SupportedDecoders::Jpeg));
    assert_eq!(guess_format(&[0xff, 0xd8, 0xff, 0xe0, 0x00]), Some(SupportedDecoders::Jpeg));
    assert_eq!(guess_format(&[0xff, 0xd8]), None);
    assert_eq!(guess_format(&[0xff, 0xd8, 0xfe]), None);
}

#[test]
fn sniff_ppm() {
    assert_eq!(guess_format(b"P6"), Some(SupportedDecoders::PPM));
    assert_eq!(guess_format(b"P5"), Some(SupportedDecoders::PPM));
    assert_eq!(guess_format(b"P6\n2 2\n255\n"), Some(SupportedDecoders::PPM));
    assert_eq!(guess_format(b"P5 1 1 255\n\x07"), Some(SupportedDecoders::PPM));
    assert_eq!(guess_format(b"P"), None);
    assert_eq!(guess_format(b"P4"), None);
    assert_eq!(guess_format(b"P7"), None);
}

#[test]
fn sniff_psd() {
    assert_eq!(guess_format(b"8BPS"), Some(SupportedDecoders::PSD));
    assert_eq!(guess_format(b"8BPS\x00\x01"), Some(SupportedDecoders::PSD));
    assert_eq!(guess_format(b"8BP"), None);
    assert_eq!(guess_format(b"8BPT"), None);
}

#[test]
fn sniff_farbfeld() {
    assert_eq!(guess_format(b"farbfeld"), Some(SupportedDecoders::Farbfeld));
    assert_eq!(guess_format(b"farbfeld\x00\x00\x00\x01"), Some(SupportedDecoders::Farbfeld));
    assert_eq!(guess_format(b"farbfel"), None);
    assert_eq!(guess_format(b"Farbfeld"), None);
}

#[test]
fn sniff_unknown() {
    assert_eq!(guess_format(&[]), None);
    assert_eq!(guess_format(b"qoif"), None);
    assert_eq!(guess_format(b"GIF89a"), None);
    assert_eq!(guess_format(&[0u8; 16]), None);
    // A known prefix that does not stand at the start does not count.
    assert_eq!(guess_format(b" P6"), None);
    assert_eq!(guess_format(b"\x00farbfeld"), None);
}

#[test]
fn decoder_for_each_format() {
    let data = [0u8; 4];
    for codec in [
        SupportedDecoders::Jpeg,
        SupportedDecoders::PPM,
        SupportedDecoders::PSD,
        SupportedDecoders::Farbfeld,
    ] {
        match get_decoder(codec, &data) {
            Ok(d) => assert_eq!(d.format(), codec),
            Err(_) => panic!("no decoder for {:?}", codec),
        }
    }
    assert!(matches!(get_decoder(SupportedDecoders::Jpeg, &data), Ok(Decoder::Jpeg(_))));
    assert!(matches!(get_decoder(SupportedDecoders::PPM, &data), Ok(Decoder::PPM(_))));
    assert!(matches!(get_decoder(SupportedDecoders::PSD, &data), Ok(Decoder::PSD(_))));
    assert!(matches!(get_decoder(SupportedDecoders::Farbfeld, &data), Ok(Decoder::Farbfeld(_))));
}

#[test]
fn no_decoder_for_png() {
    let data = [137u8, 80, 78, 71, 13, 10, 26, 10];
    match get_decoder(SupportedDecoders::Png, &data) {
        Err(e) => assert_eq!(e, DecoderErrors::UnsupportedFormat(SupportedDecoders::Png)),
        Ok(_) => panic!("a PNG decoder was handed out"),
    }
}

#[test]
fn ppm_decoder_reads_the_bytes_it_was_given() {
    let data = b"P5 3 2 255\n\x01\x02\x03\x04\x05\x06";
    let codec = guess_format(data).unwrap();
    match get_decoder(codec, data) {
        Ok(Decoder::PPM(mut state)) => {
            state.decoder.decode_headers().unwrap();
            assert_eq!(state.decoder.dimensions(), Some((3, 2)));
        }
        _ => panic!("expected a PPM decoder"),
    }
}

#[test]
fn farbfeld_decoder_reads_the_bytes_it_was_given() {
    let mut data = b"farbfeld".to_vec();
    data.extend_from_slice(&[0, 0, 0, 1, 0, 0, 0, 2]);
    data.extend_from_slice(&[0u8; 16]);
    let codec = guess_format(&data).unwrap();
    match get_decoder(codec, &data) {
        Ok(Decoder::Farbfeld(mut state)) => {
            state.decoder.decode_headers().unwrap();
            assert_eq!(state.decoder.dimensions(), Some((1, 2)));
        }
        _ => panic!("expected a farbfeld decoder"),
    }
}

#[test]
fn jpeg_decoder_refuses_what_is_no_jpeg() {
    let data = b"farbfeld";
    match get_decoder(SupportedDecoders::Jpeg, data) {
        Ok(Decoder::Jpeg(mut state)) => assert!(state.decoder.decode_headers().is_err()),
        _ => panic!("expected a JPEG decoder"),
    }
}

#[test]
fn psd_decoder_refuses_what_is_no_psd() {
    let data = b"P6 1 1 255\n\x00\x00\x00";
    match get_decoder(SupportedDecoders::PSD, data) {
        Ok(Decoder::PSD(mut state)) => assert!(state.decoder.decode_headers().is_err()),
        _ => panic!("expected a PSD decoder"),
    }
}

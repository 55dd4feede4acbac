use imgcore::crc::{_crc32_slice1, crc32_slice8, Crc32Tables};
use nanorand::Rng;

#[test]
fn test_crc_same() {
    let mut rng = nanorand::WyRand::new();

    let mut data = vec![0_u8; 1000];
    rng.fill(&mut data);

    let crc_simple = _crc32_slice1(&data, 0);
    let crc_table8 = crc32_slice8(&data, 0);

    assert_eq!(
        crc_simple, crc_table8,
        "CRC {} {} do not match",
        crc_simple, crc_table8
    );
}

#[test]
fn crc_of_nothing_is_the_seed() {
    assert_eq!(crc32_slice8(b"", 0), 0);
    assert_eq!(_crc32_slice1(b"", 0), 0);
    assert_eq!(crc32_slice8(&[], 0xdead_beef), 0xdead_beef);
    assert_eq!(_crc32_slice1(&[], 0xdead_beef), 0xdead_beef);
}

#[test]
fn crc_check_value() {
    assert_eq!(crc32_slice8(b"123456789", 0xFFFF_FFFF) ^ 0xFFFF_FFFF, 0xCBF4_3926);
    assert_eq!(_crc32_slice1(b"123456789", 0xFFFF_FFFF) ^ 0xFFFF_FFFF, 0xCBF4_3926);
}

#[test]
fn crc_of_one_byte_is_the_table_entry() {
    // Entries of the first table, as published with the PNG specification.
    assert_eq!(crc32_slice8(&[0x00], 0), 0x0000_0000);
    assert_eq!(crc32_slice8(&[0x01], 0), 0x7707_3096);
    assert_eq!(crc32_slice8(&[0x02], 0), 0xEE0E_612C);
    assert_eq!(crc32_slice8(&[0xFF], 0), 0x2D02_EF8D);
    assert_eq!(_crc32_slice1(&[0x01], 0), 0x7707_3096);
    assert_eq!(_crc32_slice1(&[0xFF], 0), 0x2D02_EF8D);
}

#[test]
fn crc_known_vectors() {
    let std_crc = |data: &[u8]| crc32_slice8(data, 0xFFFF_FFFF) ^ 0xFFFF_FFFF;
    assert_eq!(std_crc(b"a"), 0xE8B7_BE43);
    assert_eq!(std_crc(b"abc"), 0x3524_41C2);
    assert_eq!(std_crc(b"The quick brown fox jumps over the lazy dog"), 0x414F_A339);
    // The chunk type and data of the IEND chunk of every PNG file.
    assert_eq!(std_crc(b"IEND"), 0xAE42_6082);
}

#[test]
fn crc_is_composable() {
    let mut rng = nanorand::WyRand::new_seed(7);
    let mut data = vec![0_u8; 257];
    rng.fill(&mut data);
    for seed in [0u32, 1, 0xFFFF_FFFF, 0x1234_5678] {
        let whole = crc32_slice8(&data, seed);
        for cut in [0usize, 1, 7, 8, 9, 15, 16, 17, 100, 256, 257] {
            let (a, b) = data.split_at(cut);
            assert_eq!(crc32_slice8(b, crc32_slice8(a, seed)), whole);
            assert_eq!(_crc32_slice1(b, _crc32_slice1(a, seed)), whole);
            assert_eq!(_crc32_slice1(b, crc32_slice8(a, seed)), whole);
        }
    }
}

#[test]
fn crc_engines_agree_on_every_length() {
    let mut rng = nanorand::WyRand::new_seed(99);
    let mut data = vec![0_u8; 70];
    rng.fill(&mut data);
    for len in 0..=data.len() {
        for seed in [0u32, 0xFFFF_FFFF, 0x0BAD_CAFE] {
            assert_eq!(crc32_slice8(&data[..len], seed), _crc32_slice1(&data[..len], seed));
        }
    }
}

#[test]
fn crc_tables_can_be_shared() {
    let tables = Crc32Tables::new();
    let data = b"123456789";
    assert_eq!(tables.update_slice8(data, 0xFFFF_FFFF) ^ 0xFFFF_FFFF, 0xCBF4_3926);
    assert_eq!(tables.update_slice1(data, 0xFFFF_FFFF) ^ 0xFFFF_FFFF, 0xCBF4_3926);
    let long = [0xA5u8; 64];
    assert_eq!(tables.update_slice8(&long, 3), tables.update_slice1(&long, 3));
    assert_eq!(tables.update_slice8(&long, 3), crc32_slice8(&long, 3));
}

#[test]
fn crc_differs_from_its_input() {
    // A result equal to the seed, or to zero, would show a table that was
    // never filled.
    assert_ne!(crc32_slice8(b"12345678", 0), 0);
    assert_ne!(crc32_slice8(b"12345678", 5), 5);
    assert_ne!(_crc32_slice1(b"1", 5), 5);
}

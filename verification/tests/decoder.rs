//! Packets, and the tables behind them.
use oxideav_wma::binary64::Binary64;
use oxideav_wma::common::{
    build_v1_bands, build_v2_bands, frame_len_bits_for, normalise_sample_rate_v2,
    select_coef_vlc_table, select_high_freq_and_noise, BandOverrides, CoefBook, ScaleTable,
    Version, WmaError,
};
use oxideav_wma::context::{total_gain_to_coef_nb_bits, CodecTables, WmaContext};
use oxideav_wma::BitWriter;

fn b(x: f64) -> Binary64 {
    Binary64::from_bits(x.to_bits())
}

// Symbols: 0 escapes (110), 1 ends a block (10), 2 is a level of one without a
// run (0), 3 a level of one after a zero (111).
fn book() -> CoefBook {
    CoefBook::new(vec![0b110, 0b10, 0b0, 0b111], vec![3, 2, 1, 3], vec![2])
}

// Only two changes have a codeword: none (0) and one up (10).
fn scale() -> ScaleTable {
    let mut codes = [0u32; 121];
    let mut bits = [0u8; 121];
    codes[60] = 0b0;
    bits[60] = 1;
    codes[61] = 0b10;
    bits[61] = 2;
    ScaleTable { codes, bits }
}

fn overrides() -> BandOverrides {
    BandOverrides {
        at_22050: Vec::new(),
        at_32000: Vec::new(),
        at_44100: Vec::new(),
    }
}

fn tables() -> CodecTables {
    CodecTables {
        books: (0..6).map(|_| book()).collect(),
        scale: scale(),
        overrides: overrides(),
    }
}

fn context(version: Version, channels: u16, flags2: u16) -> Result<WmaContext, WmaError> {
    WmaContext::new(
        version,
        44_100,
        channels,
        128_000,
        flags2,
        b(2.0),
        b(2.0),
        tables(),
    )
}

#[test]
fn coef_book_levels_sum() {
    let levels: Vec<u16> = vec![5, 3, 1];
    let s: usize = levels.iter().map(|&v| v as usize).sum();
    let codes: Vec<u32> = (0..(s + 2) as u32).collect();
    let bits = vec![8u8; s + 2];
    let book = CoefBook::new(codes, bits, levels);
    assert_eq!(s + 2, book.codes.len());
    assert_eq!(book.run, vec![0, 0, 0, 1, 2, 3, 4, 0, 1, 2, 0]);
    assert_eq!(book.level, vec![0, 0, 1, 1, 1, 1, 1, 2, 2, 2, 3]);
}

#[test]
fn band_partitions_sum_to_block_v1() {
    let bands = build_v1_bands(2048, 44100);
    let total: u32 = bands.iter().sum();
    assert!(total <= 2048);
    assert!(!bands.is_empty());
}

#[test]
fn band_partitions_v2_overrides() {
    let bands22 = build_v2_bands(&overrides(), 1024, 22050, 10);
    assert!(!bands22.is_empty());
    let bands32 = build_v2_bands(&overrides(), 2048, 32000, 11);
    assert!(!bands32.is_empty());
}

#[test]
fn rates_are_bucketed() {
    assert_eq!(normalise_sample_rate_v2(48_000), 44_100);
    assert_eq!(normalise_sample_rate_v2(32_000), 32_000);
    assert_eq!(normalise_sample_rate_v2(22_050), 22_050);
    assert_eq!(frame_len_bits_for(16_000, Version::V2), 9);
    assert_eq!(frame_len_bits_for(22_050, Version::V1), 10);
    assert_eq!(frame_len_bits_for(44_100, Version::V2), 11);
}

#[test]
fn gain_sets_the_literal_width() {
    for (gain, bits) in [
        (1, 13),
        (14, 13),
        (15, 12),
        (31, 12),
        (32, 11),
        (39, 11),
        (40, 10),
        (44, 10),
        (45, 9),
    ] {
        assert_eq!(total_gain_to_coef_nb_bits(gain), bits, "gain {gain}");
    }
}

#[test]
fn books_follow_rate_and_density() {
    assert_eq!(select_coef_vlc_table(44_100, b(0.5)), 0);
    assert_eq!(select_coef_vlc_table(44_100, b(1.0)), 1);
    assert_eq!(select_coef_vlc_table(44_100, b(1.5)), 2);
    assert_eq!(
        select_high_freq_and_noise(44_100, b(2.0), b(2.0)),
        (100, false)
    );
    assert_eq!(
        select_high_freq_and_noise(22_050, b(1.0), b(1.0)),
        (70, true)
    );
    assert_eq!(
        select_high_freq_and_noise(8_000, b(0.7), b(0.7)),
        (65, true)
    );
}

#[test]
fn setup_refuses_what_is_not_supported() {
    assert_eq!(
        context(Version::V2, 3, 1).unwrap_err(),
        WmaError::Channels
    );
    assert_eq!(
        context(Version::V2, 1, 2).unwrap_err(),
        WmaError::BitReservoir
    );
    assert_eq!(
        context(Version::V2, 1, 4).unwrap_err(),
        WmaError::VariableBlockLength
    );
    let e = WmaContext::new(
        Version::V1,
        96_000,
        1,
        128_000,
        1,
        b(2.0),
        b(2.0),
        tables(),
    )
    .unwrap_err();
    assert_eq!(e, WmaError::SampleRate);
    assert!(e.message().contains("48 kHz"));
    let e = WmaContext::new(
        Version::V2,
        44_100,
        1,
        8_000,
        1,
        b(0.1),
        b(0.1),
        tables(),
    )
    .unwrap_err();
    assert_eq!(e, WmaError::NoiseCoding);
}

#[test]
fn setup_places_the_coded_range() {
    let c = context(Version::V2, 1, 1).unwrap();
    assert_eq!(c.frame_len, 2048);
    assert_eq!(c.frame_len_bits, 11);
    assert_eq!(c.coefs_start, 0);
    assert_eq!(c.coefs_end, 2048 - 184);
    assert_eq!(c.high_freq, 22_050);
    assert_eq!(c.high_band_start, 2048);
    let c = context(Version::V1, 2, 1).unwrap();
    assert_eq!(c.coefs_start, 3);
}

#[test]
fn silent_packet_has_no_coefficients() {
    let c = context(Version::V2, 1, 1).unwrap();
    let f = c.parse_frame(&[0x00]).unwrap();
    assert!(!f.ms_stereo);
    assert_eq!(f.coded, vec![false]);
    assert_eq!(f.total_gain, 1);
    assert!(f.exponents[0].is_none());
    assert_eq!(f.coefs, vec![vec![0i64; 2048]]);
}

#[test]
fn empty_packet_is_refused() {
    let c = context(Version::V2, 1, 1).unwrap();
    assert_eq!(c.parse_frame(&[]).unwrap_err(), WmaError::OutOfBits);
}

#[test]
fn coded_packet_without_exponent_codes_is_refused() {
    let c = context(Version::V2, 1, 0).unwrap();
    let mut w = BitWriter::new();
    w.write_bit(true);
    w.write_bits(3, 7);
    w.write_bits(0, 32);
    assert_eq!(
        c.parse_frame(&w.into_bytes()).unwrap_err(),
        WmaError::LspExponents
    );
}

#[test]
fn version_two_packet_is_read_field_by_field() {
    let c = context(Version::V2, 1, 1).unwrap();
    let mut w = BitWriter::new();
    w.write_bit(true); // coded
    w.write_bits(127, 7); // gain: 1 + 127 + 5
    w.write_bits(5, 7);
    w.write_bits(0b10, 2); // first band one up
    for _ in 1..c.bands.len() {
        w.write_bit(false); // no change
    }
    w.write_bit(false); // (0, 1)
    w.write_bit(true); // negative
    w.write_bits(0b111, 3); // (1, 1)
    w.write_bit(false); // positive
    w.write_bits(0b110, 3); // escape
    w.write_bits(100, 8); // level 100
    w.write_bits(0b10, 2); // short run
    w.write_bits(3, 2); // of 3
    w.write_bit(true); // negative
    w.write_bits(0b10, 2); // end
    let f = c.parse_frame(&w.into_bytes()).unwrap();
    assert_eq!(f.coded, vec![true]);
    assert_eq!(f.total_gain, 133);
    let exps = f.exponents[0].as_ref().unwrap();
    // 36 and one up, counted from sixty below.
    assert_eq!(exps.places[0], Some(97));
    assert_eq!(exps.top, Some(97));
    let mut expected = vec![0i64; 2048];
    expected[0] = -1;
    expected[2] = 1;
    expected[6] = -100;
    assert_eq!(f.coefs, vec![expected]);
}

#[test]
fn version_one_channels_start_on_a_byte() {
    let c = context(Version::V1, 2, 1).unwrap();
    let mut w = BitWriter::new();
    w.write_bit(false); // channels apart
    w.write_bit(true);
    w.write_bit(true);
    w.write_bits(9, 7); // gain 10, so literals of 13 bits
    for _ in 0..2 {
        w.write_bits(2, 5); // first band 12
        for _ in 1..c.bands.len() {
            w.write_bit(false);
        }
    }
    w.write_bits(0b110, 3); // escape
    w.write_bits(4000, 13);
    w.write_bits(7, 11);
    w.write_bit(false);
    w.write_bits(0b10, 2);
    w.align_to_byte();
    w.write_bit(false); // (0, 1)
    w.write_bit(true);
    w.write_bits(0b10, 2);
    let f = c.parse_frame(&w.into_bytes()).unwrap();
    assert_eq!(f.total_gain, 10);
    assert_eq!(f.exponents[1].as_ref().unwrap().places[0], Some(72));
    let mut first = vec![0i64; 2048];
    first[3 + 7] = 4000;
    let mut second = vec![0i64; 2048];
    second[3] = -1;
    assert_eq!(f.coefs, vec![first, second]);
}

#[test]
fn unknown_codeword_is_refused() {
    let c = context(Version::V2, 1, 1).unwrap();
    let mut w = BitWriter::new();
    w.write_bit(true);
    w.write_bits(0, 7);
    w.write_bits(0b11, 2);
    w.write_bits(0, 32);
    assert_eq!(
        c.parse_frame(&w.into_bytes()).unwrap_err(),
        WmaError::NoScaleCode
    );
}

#[test]
fn long_packets_of_ones_are_refused() {
    for channels in [1, 2] {
        let c = context(Version::V2, channels, 1).unwrap();
        for len in [65_535usize, 29_000_000] {
            let packet = vec![0xFFu8; len];
            assert!(c.gain_fits(&packet));
            assert_eq!(c.parse_frame(&packet).unwrap_err(), WmaError::OutOfBits);
        }
    }
}

#[test]
fn overflowing_gain_is_noticed() {
    let c = context(Version::V2, 1, 1).unwrap();
    let mut packet = vec![0xFFu8; 30_000_000];
    assert!(!c.gain_fits(&packet));
    // Only the gain counts, not the length: here it ends at the second field.
    packet[1] = 0x00;
    assert!(c.gain_fits(&packet));
    packet[0] = 0x7F;
    assert!(c.gain_fits(&packet));
    assert!(c.gain_fits(&[]));
}

#[test]
fn bands_of_long_blocks_and_high_rates() {
    let widths = build_v1_bands(4_000_000, 80_000);
    assert_eq!(widths[..3], [10_000, 10_000, 10_000]);
    assert!(build_v1_bands(2048, u32::MAX).is_empty());
    // A bin that does not fit in 32 bits counts modulo that: here 200 times the length.
    let widths = build_v1_bands(21_500_000, 1);
    assert_eq!(widths[..2], [5_032_704, 5_032_704]);
    // A listed row does not depend on the block's length.
    let listed = BandOverrides {
        at_44100: vec![vec![4, 8, 116]],
        ..overrides()
    };
    assert_eq!(
        build_v2_bands(&listed, usize::MAX, 44_100, 7),
        vec![4, 8, 116]
    );
}

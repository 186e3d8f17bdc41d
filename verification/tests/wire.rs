//! The wire layer: coefficient and envelope codes, blocks and frames.
use oxideav_wma::coef_vlc::{
    CoefDecodeMode, CoefEvent, CoefTables, CoefVlc, CoefVlcError, RunLevel,
};
use oxideav_wma::envelope_vlc::{GainVlc, ScaleVlc, SCALE_DELTA_CENTER};
use oxideav_wma::frame_bits::{
    read_block, read_coefficients, read_frame, write_block, write_coefficients, write_frame,
    BlockPlan, FrameBitsError, FrameFieldWidths, FrameHeaderFields, WireBlock, WireFrame,
};
use oxideav_wma::huffman::HuffmanError;
use oxideav_wma::paircode::EscapeWidths;
use oxideav_wma::{BitReader, BitWriter};

// The library takes its tables from the caller. These are stand-ins: code lengths as runs of
// (length, number of symbols), chosen so that the codes have the sizes, the longest lengths and
// the codewords that the tests pin. So the tests that pin codewords test the construction of a
// code from its lengths, and nothing of any table in use.

const MODE1: &[(u8, usize)] = &[
    (11, 1), (6, 1), (2, 1), (3, 1), (7, 4), (12, 11), (7, 1), (12, 8), (17, 42), (5, 1), (8, 25),
    (9, 4), (10, 31), (13, 42), (14, 160), (12, 1), (14, 16), (15, 16), (16, 210), (18, 33),
    (20, 4), (11, 33), (6, 7), (3, 2), (12, 10), (17, 1),
];

const MODE2: &[(u8, usize)] = &[
    (11, 1), (9, 1), (2, 1), (3, 1), (13, 49), (4, 1), (5, 2), (6, 7), (7, 5), (8, 39), (10, 1),
    (12, 72), (14, 22), (15, 2), (16, 331), (17, 9), (18, 57), (19, 37), (20, 86), (21, 3),
    (22, 269), (9, 18), (3, 1), (13, 1),
];

const MODE3: &[(u8, usize)] = &[
    (12, 1), (6, 1), (2, 1), (3, 1), (12, 29), (19, 48), (4, 1), (5, 8), (7, 6), (8, 1), (9, 51),
    (10, 5), (11, 85), (12, 1), (11, 1), (13, 8), (14, 17), (15, 23), (16, 46), (17, 74),
    (18, 19), (20, 1), (21, 2), (6, 5), (12, 40), (19, 1),
];

const CLASS1_ALT: &[(u8, usize)] = &[
    (9, 1), (15, 1), (2, 1), (15, 10), (4, 3), (5, 8), (6, 8), (7, 1), (8, 9), (10, 10),
    (11, 183), (12, 10), (13, 12), (14, 90), (16, 7), (17, 4), (18, 5), (19, 174), (9, 17),
    (15, 1),
];

const CLASS3_ALT: &[(u8, usize)] = &[
    (10, 1), (16, 1), (2, 1), (16, 9), (3, 2), (5, 1), (6, 3), (7, 1), (8, 3), (9, 42), (11, 57),
    (12, 2), (13, 124), (14, 146), (15, 4), (17, 1), (18, 18), (10, 17), (2, 1), (16, 1),
];

const SCALE: &[(u8, usize)] = &[
    (18, 1), (4, 1), (19, 33), (6, 11), (8, 2), (9, 1), (10, 1), (11, 4), (13, 2), (14, 3),
    (3, 1), (1, 1), (4, 1), (14, 37), (15, 1), (16, 6), (17, 1), (18, 12), (4, 1), (19, 1),
];

const GAIN: &[(u8, usize)] = &[
    (10, 1), (4, 5), (13, 3), (5, 4), (3, 1), (6, 2), (7, 2), (4, 1), (9, 5), (11, 6), (12, 2),
    (10, 1), (3, 2), (4, 1), (13, 1),
];

fn lengths(runs: &[(u8, usize)]) -> Vec<u8> {
    let mut out = Vec::new();
    for &(len, n) in runs {
        out.extend(std::iter::repeat(len).take(n));
    }
    out
}

/// Stand-in companion pairs: `n` of them, no two alike, none with a run over 99 or a level
/// over 14.
fn pairs(n: usize) -> Vec<RunLevel> {
    (0..n)
        .map(|i| ((i % 100) as u16, (1 + i / 100) as u16))
        .collect()
}

fn tables() -> CoefTables {
    let mut mode2_runlevel = pairs(1333);
    mode2_runlevel[1014] = (1, 51);
    mode2_runlevel[1021] = (0, 55);
    mode2_runlevel[1332] = (0, 339);
    CoefTables {
        mode1_lengths: lengths(MODE1),
        mode2_lengths: lengths(MODE2),
        mode3_lengths: lengths(MODE3),
        class1_alt_lengths: lengths(CLASS1_ALT),
        class3_alt_lengths: lengths(CLASS3_ALT),
        mode1_runlevel: pairs(664),
        mode2_runlevel,
        mode3_runlevel: pairs(474),
    }
}

fn scale_vlc() -> ScaleVlc {
    let all = lengths(SCALE);
    let mut table = [0u8; 121];
    table.copy_from_slice(&all);
    ScaleVlc::new(&table).unwrap()
}

fn gain_vlc() -> GainVlc {
    let all = lengths(GAIN);
    let mut table = [0u8; 37];
    table.copy_from_slice(&all);
    GainVlc::new(&table).unwrap()
}

fn bits(s: &str) -> (u64, u8) {
    (
        u64::from_str_radix(s, 2).unwrap(),
        u8::try_from(s.len()).unwrap(),
    )
}

fn assert_code(vlc: &CoefVlc, symbol: usize, csv_code: &str) {
    let (value, len) = bits(csv_code);
    assert_eq!(
        vlc.code().length_of(symbol),
        Some(len),
        "mode {:?} symbol {symbol} length",
        vlc.mode()
    );
    assert_eq!(
        vlc.code().code_of(symbol),
        Some(value),
        "mode {:?} symbol {symbol} codeword",
        vlc.mode()
    );
}

#[test]
fn mode1_reproduces_the_staged_csv_codewords() {
    let vlc = CoefVlc::new(CoefDecodeMode::Mode1, &tables()).unwrap();
    assert_eq!(vlc.symbol_count(), 666);
    assert_eq!(vlc.max_len(), 20);
    assert_code(&vlc, 0, "11110100110");
    assert_code(&vlc, 1, "101010");
    assert_code(&vlc, 2, "00");
    assert_code(&vlc, 3, "010");
    assert_code(&vlc, 19, "1101000");
    assert_code(&vlc, 333, "111110100011");
    assert_code(&vlc, 665, "11111111111101110");
}

#[test]
fn mode3_reproduces_the_staged_csv_codewords() {
    let vlc = CoefVlc::new(CoefDecodeMode::Mode3, &tables()).unwrap();
    assert_eq!(vlc.symbol_count(), 476);
    assert_eq!(vlc.max_len(), 21);
    assert_code(&vlc, 0, "111110101000");
    assert_code(&vlc, 1, "101100");
    assert_code(&vlc, 2, "00");
    assert_code(&vlc, 3, "010");
    assert_code(&vlc, 238, "111111000110");
    assert_code(&vlc, 475, "1111111111111111110");
}

#[test]
fn mode2_builds_and_reproduces_the_staged_csv_codewords() {
    let vlc = CoefVlc::new(CoefDecodeMode::Mode2, &tables()).unwrap();
    assert_eq!(vlc.symbol_count(), 1016);
    assert_eq!(vlc.max_len(), 22);
    assert_code(&vlc, 0, "11110110110");
    assert_code(&vlc, 1, "111011010");
    assert_code(&vlc, 2, "00");
    assert_code(&vlc, 3, "010");
    assert_code(&vlc, 1015, "1111110011101");
}

#[test]
fn alt_variants_reproduce_the_staged_csv_codewords() {
    let c1 = CoefVlc::new(CoefDecodeMode::Class1Alt, &tables()).unwrap();
    assert_eq!(c1.symbol_count(), 555);
    assert_eq!(c1.max_len(), 19);
    assert_code(&c1, 0, "110110110");
    assert_code(&c1, 2, "00");
    assert_code(&c1, 554, "111111111101111");

    let c3 = CoefVlc::new(CoefDecodeMode::Class3Alt, &tables()).unwrap();
    assert_eq!(c3.symbol_count(), 435);
    assert_eq!(c3.max_len(), 18);
    assert_code(&c3, 0, "1110111000");
    assert_code(&c3, 2, "00");
    assert_code(&c3, 434, "1111111111111010");
}

#[test]
fn mode_metadata_matches_the_staged_tables() {
    assert_eq!(CoefDecodeMode::Mode1.lengths(&tables()).len(), 666);
    assert_eq!(CoefDecodeMode::Mode2.lengths(&tables()).len(), 1016);
    assert_eq!(CoefDecodeMode::Mode3.lengths(&tables()).len(), 476);
    assert_eq!(CoefDecodeMode::Class1Alt.lengths(&tables()).len(), 555);
    assert_eq!(CoefDecodeMode::Class3Alt.lengths(&tables()).len(), 435);
    for mode in CoefDecodeMode::ALL {
        assert_eq!(mode.context_value(), mode.class());
        assert_eq!(
            mode.runlevel_map(&tables()).is_none(),
            mode.is_alt(),
            "companion maps are staged exactly for the primaries"
        );
    }
    assert_eq!(CoefDecodeMode::Mode1.class(), 1);
    assert_eq!(CoefDecodeMode::Mode2.class(), 2);
    assert_eq!(CoefDecodeMode::Mode3.class(), 3);
    assert_eq!(CoefDecodeMode::Class1Alt.class(), 1);
    assert_eq!(CoefDecodeMode::Class3Alt.class(), 3);
}

#[test]
fn expand_classifies_sentinels_and_pairs() {
    let vlc = CoefVlc::new(CoefDecodeMode::Mode2, &tables()).unwrap();
    assert_eq!(vlc.expand(0).unwrap(), CoefEvent::EndOfBlock);
    assert_eq!(vlc.expand(1).unwrap(), CoefEvent::Escape);
    assert_eq!(
        vlc.expand(2).unwrap(),
        CoefEvent::Pair {
            run: 0,
            abs_level: 1
        }
    );
    assert_eq!(
        vlc.expand(1016).unwrap(),
        CoefEvent::Pair {
            run: 1,
            abs_level: 51
        }
    );
    assert_eq!(
        vlc.expand(1023).unwrap(),
        CoefEvent::Pair {
            run: 0,
            abs_level: 55
        }
    );
}

#[test]
fn expand_on_alt_variants_is_a_typed_docs_gap() {
    let vlc = CoefVlc::new(CoefDecodeMode::Class1Alt, &tables()).unwrap();
    assert_eq!(vlc.expand(0).unwrap(), CoefEvent::EndOfBlock);
    assert_eq!(vlc.expand(1).unwrap(), CoefEvent::Escape);
    assert_eq!(
        vlc.expand(2),
        Err(CoefVlcError::RunLevelUnavailable {
            mode: CoefDecodeMode::Class1Alt,
            symbol: 2
        })
    );
    let msg = vlc.expand(2).unwrap_err().message("");
    assert!(msg.contains("docs-staging gap"));
}

#[test]
fn symbol_for_pair_inverts_expand_within_the_alphabet() {
    for mode in [
        CoefDecodeMode::Mode1,
        CoefDecodeMode::Mode2,
        CoefDecodeMode::Mode3,
    ] {
        let vlc = CoefVlc::new(mode, &tables()).unwrap();
        for symbol in [2usize, 3, 57, vlc.symbol_count() - 1] {
            let CoefEvent::Pair { run, abs_level } = vlc.expand(symbol).unwrap() else {
                panic!("symbol {symbol} must be a pair");
            };
            assert_eq!(
                vlc.symbol_for_pair(run, abs_level),
                Some(symbol),
                "mode {mode:?} symbol {symbol}"
            );
        }
    }
}

#[test]
fn mode2_companion_tail_is_escape_only() {
    let vlc = CoefVlc::new(CoefDecodeMode::Mode2, &tables()).unwrap();
    let tables = tables();
    let map = CoefDecodeMode::Mode2.runlevel_map(&tables).unwrap();
    let (run, abs_level) = map[1332];
    assert_eq!((run, abs_level), (0, 339));
    assert_eq!(vlc.symbol_for_pair(run, abs_level), None);
}

#[test]
fn real_table_symbol_streams_round_trip_through_bits() {
    for mode in CoefDecodeMode::ALL {
        let vlc = CoefVlc::new(mode, &tables()).unwrap();
        let mut state = 0xC0EF_u64;
        let symbols: Vec<usize> = (0..2000)
            .map(|_| {
                state = state
                    .wrapping_mul(6364136223846793005)
                    .wrapping_add(1442695040888963407);
                (state >> 33) as usize % vlc.symbol_count()
            })
            .collect();
        let mut w = BitWriter::new();
        for &s in &symbols {
            vlc.encode_symbol(s, &mut w).unwrap();
        }
        let bit_len = w.bit_len();
        let bytes = w.into_bytes();
        let mut r = BitReader::with_bit_len(&bytes, bit_len);
        for &s in &symbols {
            assert_eq!(vlc.decode_symbol(&mut r).unwrap(), s, "mode {mode:?}");
        }
        assert_eq!(r.remaining_bits(), 0);
    }
}

#[test]
fn mode2_unassigned_code_space_is_a_clean_decode_error() {
    let vlc = CoefVlc::new(CoefDecodeMode::Mode2, &tables()).unwrap();
    let bytes = [0xFF, 0xFF, 0xFF];
    let mut r = BitReader::new(&bytes);
    assert_eq!(
        vlc.decode_symbol(&mut r),
        Err(CoefVlcError::Huffman(HuffmanError::InvalidCodeword))
    );
}

#[test]
fn truncated_stream_fails_cleanly() {
    let vlc = CoefVlc::new(CoefDecodeMode::Mode1, &tables()).unwrap();
    let mut w = BitWriter::new();
    vlc.encode_symbol(0, &mut w).unwrap();
    let bytes = w.into_bytes();
    let mut r = BitReader::with_bit_len(&bytes, 5);
    assert!(matches!(
        vlc.decode_symbol(&mut r),
        Err(CoefVlcError::Huffman(HuffmanError::Bitstream(_)))
    ));
}

#[test]
fn every_mode_puts_its_shortest_code_on_the_first_pair_symbol() {
    for mode in CoefDecodeMode::ALL {
        let vlc = CoefVlc::new(mode, &tables()).unwrap();
        let min_len = (0..vlc.symbol_count())
            .map(|s| vlc.code().length_of(s).unwrap())
            .min()
            .unwrap();
        assert_eq!(min_len, 2);
        assert_eq!(vlc.code().length_of(2), Some(2), "mode {mode:?}");
    }
}


#[test]
fn scale_vlc_reproduces_the_staged_csv_codewords() {
    let vlc = scale_vlc();
    assert_eq!(vlc.symbol_count(), 121);
    assert_eq!(vlc.max_len(), 19);
    for (symbol, code) in [
        (0usize, "111111111111100010"),
        (59, "100"),
        (60, "0"),
        (61, "1011"),
        (120, "1111111111111111111"),
    ] {
        let (value, len) = bits(code);
        assert_eq!(vlc.code().length_of(symbol), Some(len), "symbol {symbol}");
        assert_eq!(vlc.code().code_of(symbol), Some(value), "symbol {symbol}");
    }
}

#[test]
fn gain_vlc_reproduces_the_staged_csv_codewords() {
    let vlc = gain_vlc();
    assert_eq!(vlc.symbol_count(), 37);
    assert_eq!(vlc.max_len(), 13);
    for (symbol, code) in [
        (0usize, "1111111010"),
        (13, "000"),
        (18, "1011"),
        (36, "1111111111111"),
    ] {
        let (value, len) = bits(code);
        assert_eq!(vlc.code().length_of(symbol), Some(len), "symbol {symbol}");
        assert_eq!(vlc.code().code_of(symbol), Some(value), "symbol {symbol}");
    }
}

#[test]
fn scale_zero_delta_is_the_one_bit_codeword() {
    let vlc = scale_vlc();
    assert_eq!(vlc.delta_of(SCALE_DELTA_CENTER), Some(0));
    assert_eq!(vlc.code().length_of(SCALE_DELTA_CENTER), Some(1));
    assert_eq!(vlc.delta_of(0), Some(-60));
    assert_eq!(vlc.delta_of(120), Some(60));
    assert_eq!(vlc.delta_of(121), None);
}

#[test]
fn delta_round_trips_across_both_alphabets() {
    let scale = scale_vlc();
    for delta in -60..=60 {
        let s = scale.symbol_of_delta(delta).unwrap();
        assert_eq!(scale.delta_of(s), Some(delta));
    }
    assert_eq!(scale.symbol_of_delta(61), None);
    assert_eq!(scale.symbol_of_delta(-61), None);

    let gain = gain_vlc();
    for delta in -18..=18 {
        let s = gain.symbol_of_delta(delta).unwrap();
        assert_eq!(gain.delta_of(s), Some(delta));
    }
    assert_eq!(gain.symbol_of_delta(19), None);
    assert_eq!(gain.symbol_of_delta(-19), None);
}

#[test]
fn symbol_streams_round_trip_through_bits() {
    let scale = scale_vlc();
    let gain = gain_vlc();
    let mut w = BitWriter::new();
    let scale_syms: Vec<usize> = (0..121).chain([60, 60, 0, 120]).collect();
    let gain_syms: Vec<usize> = (0..37).chain([18, 0, 36]).collect();
    for &s in &scale_syms {
        scale.encode_symbol(s, &mut w).unwrap();
    }
    for &s in &gain_syms {
        gain.encode_symbol(s, &mut w).unwrap();
    }
    let bit_len = w.bit_len();
    let bytes = w.into_bytes();
    let mut r = BitReader::with_bit_len(&bytes, bit_len);
    for &s in &scale_syms {
        assert_eq!(scale.decode_symbol(&mut r).unwrap(), s);
    }
    for &s in &gain_syms {
        assert_eq!(gain.decode_symbol(&mut r).unwrap(), s);
    }
    assert_eq!(r.remaining_bits(), 0);
}



fn vlcs() -> (CoefVlc, GainVlc, ScaleVlc) {
    (
        CoefVlc::new(CoefDecodeMode::Mode3, &tables()).unwrap(),
        gain_vlc(),
        scale_vlc(),
    )
}

fn plan<'a>(
    coef: &'a CoefVlc,
    gain: &'a GainVlc,
    scale: &'a ScaleVlc,
    channels: u8,
    m: usize,
) -> BlockPlan<'a> {
    BlockPlan {
        coef_vlc: coef,
        gain_vlc: gain,
        scale_vlc: scale,
        escape: EscapeWidths::new(9, 12).unwrap(),
        channels,
        envelope_coded: true,
        gain_count: 1,
        scale_count: 3,
        coef_count: m,
    }
}

#[test]
fn frame_header_round_trips_in_the_staged_order() {
    let widths = FrameFieldWidths::new(8, 5).unwrap();
    let header = FrameHeaderFields {
        reservoir_offset: 0xA5,
        side_field: 0x13,
        flag: true,
    };
    let mut w = BitWriter::new();
    header.write(&widths, &mut w).unwrap();
    assert_eq!(w.bit_len(), 8 + 5 + 1);
    let bytes = w.into_bytes();
    assert_eq!(bytes, vec![0b1010_0101, 0b1001_1100]);
    let mut r = BitReader::with_bit_len(&bytes, 14);
    assert_eq!(FrameHeaderFields::read(&widths, &mut r).unwrap(), header);
}

#[test]
fn header_widths_and_values_are_validated() {
    assert_eq!(
        FrameFieldWidths::new(0, 5),
        Err(FrameBitsError::WidthOutOfRange {
            field: "byte_offset_bits",
            bits: 0
        })
    );
    assert_eq!(
        FrameFieldWidths::new(8, 33),
        Err(FrameBitsError::WidthOutOfRange {
            field: "side_field_bits",
            bits: 33
        })
    );
    let widths = FrameFieldWidths::new(4, 4).unwrap();
    let header = FrameHeaderFields {
        reservoir_offset: 16,
        side_field: 0,
        flag: false,
    };
    let mut w = BitWriter::new();
    assert_eq!(
        header.write(&widths, &mut w),
        Err(FrameBitsError::ValueTooWide {
            field: "reservoir_offset",
            value: 16,
            bits: 4
        })
    );
}

#[test]
fn coefficients_round_trip_with_pairs_escapes_and_eob() {
    let (coef, _, _) = vlcs();
    let escape = EscapeWidths::new(9, 12).unwrap();
    let mut coeffs = vec![0i32; 256];
    coeffs[0] = 1;
    coeffs[1] = -1;
    coeffs[2] = 2000;
    coeffs[200] = -3;
    let mut w = BitWriter::new();
    write_coefficients(&coeffs, &coef, escape, &mut w).unwrap();
    let bit_len = w.bit_len();
    let bytes = w.into_bytes();
    let mut r = BitReader::with_bit_len(&bytes, bit_len);
    assert_eq!(
        read_coefficients(256, &coef, escape, &mut r).unwrap(),
        coeffs
    );
    assert_eq!(r.remaining_bits(), 0);
}

#[test]
fn exactly_full_block_is_self_delimited_without_eob() {
    let (coef, _, _) = vlcs();
    let escape = EscapeWidths::new(9, 12).unwrap();
    let coeffs = vec![3i32, -1, 0, 0, 2];
    let mut w = BitWriter::new();
    write_coefficients(&coeffs, &coef, escape, &mut w).unwrap();
    let bit_len = w.bit_len();
    let bytes = w.into_bytes();
    let mut r = BitReader::with_bit_len(&bytes, bit_len);
    assert_eq!(read_coefficients(5, &coef, escape, &mut r).unwrap(), coeffs);
    assert_eq!(r.remaining_bits(), 0);
}

#[test]
fn all_zero_block_is_a_lone_eob_symbol() {
    let (coef, _, _) = vlcs();
    let escape = EscapeWidths::new(9, 12).unwrap();
    let coeffs = vec![0i32; 64];
    let mut w = BitWriter::new();
    write_coefficients(&coeffs, &coef, escape, &mut w).unwrap();
    assert_eq!(w.bit_len(), 12);
    let bit_len = w.bit_len();
    let bytes = w.into_bytes();
    let mut r = BitReader::with_bit_len(&bytes, bit_len);
    assert_eq!(
        read_coefficients(64, &coef, escape, &mut r).unwrap(),
        coeffs
    );
}

#[test]
fn sign_bit_follows_each_nonzero_coefficient() {
    let (coef, _, _) = vlcs();
    let escape = EscapeWidths::new(9, 12).unwrap();
    let coeffs = vec![1i32, -1, 0, 0];
    let mut w = BitWriter::new();
    write_coefficients(&coeffs, &coef, escape, &mut w).unwrap();
    let bit_len = w.bit_len();
    let bytes = w.into_bytes();
    assert_eq!(bit_len, 18);
    assert_eq!(bytes[0], 0b0000_0111);
    assert_eq!(bytes[1], 0b1110_1010);
    assert_eq!(bytes[2] & 0b1100_0000, 0b0000_0000);
    let mut r = BitReader::with_bit_len(&bytes, bit_len);
    assert_eq!(read_coefficients(4, &coef, escape, &mut r).unwrap(), coeffs);
}

#[test]
fn escape_wire_shape_is_symbol_run_level_sign() {
    let (coef, _, _) = vlcs();
    let escape = EscapeWidths::new(4, 8).unwrap();
    let mut coeffs = vec![0i32; 8];
    coeffs[2] = -200;
    let mut w = BitWriter::new();
    write_coefficients(&coeffs, &coef, escape, &mut w).unwrap();
    let expected_bits = 6 + 4 + 8 + 1 + 12;
    assert_eq!(w.bit_len(), expected_bits);
    let bit_len = w.bit_len();
    let bytes = w.into_bytes();
    assert_eq!(bytes[0], 0b1011_0000);
    assert_eq!(bytes[1], 0b1011_0010);
    assert_eq!(bytes[2] & 0b1100_0000, 0b0000_0000);
    let mut r = BitReader::with_bit_len(&bytes, bit_len);
    assert_eq!(read_coefficients(8, &coef, escape, &mut r).unwrap(), coeffs);
}

#[test]
fn escape_overflow_is_a_typed_error() {
    let (coef, _, _) = vlcs();
    let escape = EscapeWidths::new(4, 8).unwrap();
    let mut coeffs = vec![0i32; 64];
    coeffs[0] = 1;
    coeffs[63] = 300;
    let mut w = BitWriter::new();
    let err = write_coefficients(&coeffs, &coef, escape, &mut w).unwrap_err();
    assert_eq!(
        err,
        FrameBitsError::EscapeOverflow {
            run: 62,
            abs_level: 300
        }
    );
}

#[test]
fn overlong_run_in_the_stream_is_a_typed_error() {
    let (coef, _, _) = vlcs();
    let escape = EscapeWidths::new(6, 8).unwrap();
    let mut w = BitWriter::new();
    w.write_bits(0b101100, 6);
    w.write_bits(63, 6);
    w.write_bits(5, 8);
    w.write_bit(false);
    let bit_len = w.bit_len();
    let bytes = w.into_bytes();
    let mut r = BitReader::with_bit_len(&bytes, bit_len);
    assert_eq!(
        read_coefficients(32, &coef, escape, &mut r),
        Err(FrameBitsError::CoefficientOverflow {
            position: 63,
            coef_count: 32
        })
    );
}

#[test]
fn zero_escape_level_is_a_typed_error() {
    let (coef, _, _) = vlcs();
    let escape = EscapeWidths::new(6, 8).unwrap();
    let mut w = BitWriter::new();
    w.write_bits(0b101100, 6);
    w.write_bits(3, 6);
    w.write_bits(0, 8);
    let bit_len = w.bit_len();
    let bytes = w.into_bytes();
    let mut r = BitReader::with_bit_len(&bytes, bit_len);
    assert_eq!(
        read_coefficients(32, &coef, escape, &mut r),
        Err(FrameBitsError::EscapeLevelZero)
    );
}

#[test]
fn block_round_trips_mono_and_stereo() {
    let (coef, gain, scale) = vlcs();
    for channels in [1u8, 2] {
        let plan = plan(&coef, &gain, &scale, channels, 128);
        let mut coefficients = vec![0i32; 128];
        coefficients[0] = 4;
        coefficients[9] = -2;
        coefficients[127] = 1;
        let block = WireBlock {
            header: 0x2A,
            gain_symbols: vec![18],
            stereo_coupling: (channels == 2).then_some(true),
            envelope_base: 7,
            scale_symbols: vec![60, 59, 61],
            coefficients,
        };
        let mut w = BitWriter::new();
        write_block(&block, &plan, &mut w).unwrap();
        let bit_len = w.bit_len();
        let bytes = w.into_bytes();
        let mut r = BitReader::with_bit_len(&bytes, bit_len);
        assert_eq!(
            read_block(&plan, &mut r).unwrap(),
            block,
            "channels {channels}"
        );
        assert_eq!(r.remaining_bits(), 0);
    }
}

#[test]
fn block_field_order_is_the_staged_b1_to_b6_sequence() {
    let (coef, gain, scale) = vlcs();
    let mut p = plan(&coef, &gain, &scale, 1, 16);
    p.scale_count = 3;
    let block = WireBlock {
        header: 0x2A,
        gain_symbols: vec![18],
        stereo_coupling: None,
        envelope_base: 7,
        scale_symbols: vec![60, 60, 60],
        coefficients: vec![0; 16],
    };
    let mut w = BitWriter::new();
    write_block(&block, &p, &mut w).unwrap();
    assert_eq!(w.bit_len(), 7 + 4 + 5 + 3 + 12);
    let bytes = w.into_bytes();
    assert_eq!(
        bytes,
        vec![0b0101_0101, 0b0110_0111, 0b0001_1111, 0b0101_0000]
    );
}

#[test]
fn envelope_gate_removes_b4_and_b5() {
    let (coef, gain, scale) = vlcs();
    let mut p = plan(&coef, &gain, &scale, 1, 16);
    p.envelope_coded = false;
    let block = WireBlock {
        header: 1,
        gain_symbols: vec![18],
        stereo_coupling: None,
        envelope_base: 0,
        scale_symbols: vec![],
        coefficients: vec![0; 16],
    };
    let mut w = BitWriter::new();
    write_block(&block, &p, &mut w).unwrap();
    assert_eq!(w.bit_len(), 23);
    let bit_len = w.bit_len();
    let bytes = w.into_bytes();
    let mut r = BitReader::with_bit_len(&bytes, bit_len);
    assert_eq!(read_block(&p, &mut r).unwrap(), block);
}

#[test]
fn plan_mismatches_are_typed_errors() {
    let (coef, gain, scale) = vlcs();
    let p = plan(&coef, &gain, &scale, 1, 16);
    let good = WireBlock {
        header: 1,
        gain_symbols: vec![18],
        stereo_coupling: None,
        envelope_base: 0,
        scale_symbols: vec![60, 60, 60],
        coefficients: vec![0; 16],
    };
    let mut w = BitWriter::new();

    let mut bad = good.clone();
    bad.gain_symbols = vec![];
    assert!(matches!(
        write_block(&bad, &p, &mut w),
        Err(FrameBitsError::PlanMismatch { .. })
    ));
    let mut bad = good.clone();
    bad.stereo_coupling = Some(false);
    assert!(matches!(
        write_block(&bad, &p, &mut w),
        Err(FrameBitsError::PlanMismatch { .. })
    ));
    let mut bad = good.clone();
    bad.coefficients = vec![0; 15];
    assert!(matches!(
        write_block(&bad, &p, &mut w),
        Err(FrameBitsError::PlanMismatch { .. })
    ));
    let mut bad_plan = p.clone();
    bad_plan.channels = 3;
    assert!(matches!(
        write_block(&good, &bad_plan, &mut w),
        Err(FrameBitsError::PlanMismatch { .. })
    ));
}

#[test]
fn frame_round_trips_across_channels_and_blocks() {
    let (coef, gain, scale) = vlcs();
    let widths = FrameFieldWidths::new(10, 6).unwrap();
    let p = plan(&coef, &gain, &scale, 2, 64);
    let plans = vec![p.clone(), p];
    let mk_block = |seed: i32| {
        let mut coefficients = vec![0i32; 64];
        coefficients[(seed as usize) % 64] = seed;
        coefficients[63] = -seed;
        WireBlock {
            header: (seed as u8) & 0x7f,
            gain_symbols: vec![(seed as usize) % 37],
            stereo_coupling: Some(seed % 2 == 0),
            envelope_base: (seed as u8) & 0x1f,
            scale_symbols: vec![60, (seed as usize) % 121, 0],
            coefficients,
        }
    };
    let frame = WireFrame {
        header: FrameHeaderFields {
            reservoir_offset: 513,
            side_field: 42,
            flag: false,
        },
        channel_blocks: vec![
            vec![mk_block(3), mk_block(17)],
            vec![mk_block(5), mk_block(29)],
        ],
    };
    let mut w = BitWriter::new();
    write_frame(&frame, &widths, &plans, &mut w).unwrap();
    let bit_len = w.bit_len();
    let bytes = w.into_bytes();
    let mut r = BitReader::with_bit_len(&bytes, bit_len);
    assert_eq!(read_frame(&widths, &plans, &mut r).unwrap(), frame);
    assert_eq!(r.remaining_bits(), 0);
}

#[test]
fn every_alphabet_pair_survives_the_wire() {
    let escape = EscapeWidths::new(9, 12).unwrap();
    for mode in [
        CoefDecodeMode::Mode1,
        CoefDecodeMode::Mode2,
        CoefDecodeMode::Mode3,
    ] {
        let vlc = CoefVlc::new(mode, &tables()).unwrap();
        for symbol in 2..vlc.symbol_count() {
            let CoefEvent::Pair { run, abs_level } = vlc.expand(symbol).unwrap() else {
                panic!("symbol {symbol} of {mode:?} must be a pair");
            };
            let m = usize::from(run) + 1;
            let mut coeffs = vec![0i32; m];
            let sign = if symbol % 2 == 0 { 1 } else { -1 };
            coeffs[m - 1] = sign * i32::from(abs_level);
            let mut w = BitWriter::new();
            write_coefficients(&coeffs, &vlc, escape, &mut w).unwrap();
            let expected = usize::from(vlc.code().length_of(symbol).unwrap()) + 1;
            assert_eq!(w.bit_len(), expected, "{mode:?} symbol {symbol}");
            let bit_len = w.bit_len();
            let bytes = w.into_bytes();
            let mut r = BitReader::with_bit_len(&bytes, bit_len);
            assert_eq!(
                read_coefficients(m, &vlc, escape, &mut r).unwrap(),
                coeffs,
                "{mode:?} symbol {symbol}"
            );
            assert_eq!(r.remaining_bits(), 0);
        }
    }
}

#[test]
fn escape_boundary_values_survive_the_wire() {
    let (coef, _, _) = vlcs();
    for (run_bits, level_bits) in [(5u8, 9u8), (9, 12), (12, 16)] {
        let escape = EscapeWidths::new(run_bits, level_bits).unwrap();
        let max_run = escape.max_run() as usize;
        let max_level = escape.max_level() as i32;
        let m = max_run + 2;
        for (run, level) in [
            (max_run, max_level),
            (max_run, -max_level),
            (0, max_level),
        ] {
            let mut coeffs = vec![0i32; m];
            coeffs[run] = level;
            let mut w = BitWriter::new();
            write_coefficients(&coeffs, &coef, escape, &mut w).unwrap();
            let bit_len = w.bit_len();
            let bytes = w.into_bytes();
            let mut r = BitReader::with_bit_len(&bytes, bit_len);
            assert_eq!(
                read_coefficients(m, &coef, escape, &mut r).unwrap(),
                coeffs,
                "widths ({run_bits}, {level_bits}) run {run} level {level}"
            );
        }
    }
}

#[test]
fn arbitrary_bytes_never_panic_the_frame_parser() {
    let (coef, gain, scale) = vlcs();
    let plans = vec![plan(&coef, &gain, &scale, 2, 64)];
    let widths = FrameFieldWidths::new(11, 7).unwrap();
    let mut state = 0x5EEDu64;
    for round in 0..200 {
        let len = (round % 64) + 1;
        let bytes: Vec<u8> = (0..len)
            .map(|_| {
                state = state
                    .wrapping_mul(6364136223846793005)
                    .wrapping_add(1442695040888963407);
                (state >> 33) as u8
            })
            .collect();
        let mut r = BitReader::new(&bytes);
        let _ = read_frame(&widths, &plans, &mut r);
    }
}

#[test]
fn truncated_frame_fails_cleanly() {
    let (coef, gain, scale) = vlcs();
    let widths = FrameFieldWidths::new(10, 6).unwrap();
    let plans = vec![plan(&coef, &gain, &scale, 1, 64)];
    let bytes = [0xFFu8; 1];
    let mut r = BitReader::new(&bytes);
    assert!(matches!(
        read_frame(&widths, &plans, &mut r),
        Err(FrameBitsError::Bitstream(_))
    ));
}

#[test]
fn a_nested_weight_is_shown_in_decimal() {
    let weight = oxideav_wma::binary64::Binary64::from_bits(f64::NAN.to_bits());
    let inner = HuffmanError::InvalidWeight { symbol: 3, weight };
    let coef = CoefVlcError::Huffman(inner);
    let outer = FrameBitsError::Coef(coef);
    assert_eq!(outer.shown_number(), Some(weight));
    assert_eq!(
        outer.message(&f64::NAN.to_string()),
        "oxideav-wma::frame_bits: oxideav-wma::coef_vlc: oxideav-wma::huffman: symbol 3 has \
         invalid weight NaN"
    );
    assert_eq!(FrameBitsError::EscapeLevelZero.shown_number(), None);
    assert!(FrameBitsError::EscapeLevelZero.message("").contains("was zero"));
}

//! Laws of the library on chosen values.
use oxideav_wma::binary64::Binary64;
use oxideav_wma::bands::{BandPlan, BandPolicy};
use oxideav_wma::band_partition::{exponent_band_count, exponent_band_edges};
use oxideav_wma::codebook::CodebookGrid;
use oxideav_wma::huffman::{HuffmanCode, HuffmanError};
use oxideav_wma::runlevel::{NonZeroLevel, RunLevelPair};
use oxideav_wma::{BitReader, BitWriter};

fn b(x: f64) -> Binary64 {
    Binary64::from_bits(x.to_bits())
}

#[test]
fn patterns_compare_as_their_numbers() {
    let xs = [
        f64::NEG_INFINITY,
        -1.5,
        -1e-310,
        -0.0,
        0.0,
        1e-310,
        0.5,
        1.0,
        f64::MAX,
        f64::INFINITY,
        f64::NAN,
    ];
    for x in xs {
        for y in xs {
            assert_eq!(b(x).le(b(y)), x <= y, "{x} <= {y}");
            assert_eq!(b(x).lt(b(y)), x < y, "{x} < {y}");
        }
        assert_eq!(b(x).is_nan(), x.is_nan());
        assert_eq!(b(x).is_finite(), x.is_finite());
    }
}

#[test]
fn negative_zero_is_a_probability() {
    let g = CodebookGrid::from_probabilities(1, 1, b(0.0), vec![b(-0.0)]).unwrap();
    assert_eq!(g.in_codebook_count(), 1);
}

#[test]
fn listed_pairs_are_those_in_the_codebook() {
    let probs = [0.9, 0.1, 0.4, 0.5, 0.6, 0.2].map(b).to_vec();
    let g = CodebookGrid::from_probabilities(2, 3, b(0.4), probs).unwrap();
    let listed = g.in_codebook_pairs();
    for run in 1..5 {
        for level in 1..5 {
            let p = RunLevelPair::new(run, level).unwrap();
            assert_eq!(listed.contains(&p), g.is_in_codebook(p), "{run} {level}");
        }
    }
}

#[test]
fn counts_cover_the_plan() {
    let plan = BandPlan::new(vec![
        BandPolicy::Coded,
        BandPolicy::NoiseSubstituted { energy: b(2.0) },
        BandPolicy::Truncated,
    ]);
    assert_eq!(
        plan.coded_band_count() + plan.noise_band_count() + plan.truncated_band_count(),
        3
    );
}

#[test]
fn partitions_span_their_blocks() {
    for rate in [8_000, 16_000, 22_050, 32_000, 44_100, 96_000] {
        for m in [128u16, 256, 512, 1024, 2048] {
            let edges = exponent_band_edges(rate, m);
            assert_eq!(edges[0], 0);
            assert_eq!(*edges.last().unwrap(), m);
            assert!(edges.windows(2).all(|w| w[0] < w[1]));
            assert!(edges.iter().all(|e| e % 4 == 0));
            assert_eq!(exponent_band_count(rate, m), edges.len() - 1);
        }
    }
}

#[test]
fn decoding_inverts_encoding() {
    let code = HuffmanCode::from_lengths(&[2, 1, 3, 3]).unwrap();
    let mut w = BitWriter::new();
    for s in [3usize, 0, 1, 2, 1] {
        code.encode_symbol(s, &mut w).unwrap();
    }
    let n = w.bit_len();
    let bytes = w.into_bytes();
    let mut r = BitReader::with_bit_len(&bytes, n);
    for s in [3usize, 0, 1, 2, 1] {
        assert_eq!(code.decode_symbol(&mut r).unwrap(), s);
    }
    assert_eq!(r.remaining_bits(), 0);
}

#[test]
fn unassigned_codeword_is_refused() {
    let code = HuffmanCode::from_lengths_prefix(&[1, 2]).unwrap();
    let bytes = [0b1100_0000];
    let mut r = BitReader::new(&bytes);
    assert_eq!(
        code.decode_symbol(&mut r),
        Err(HuffmanError::InvalidCodeword)
    );
}

#[test]
fn levels_are_not_zero() {
    assert!(NonZeroLevel::new(0).is_none());
    assert_eq!(NonZeroLevel::new(7).unwrap().get(), 7);
}

#[test]
fn fields_come_back_modulo_their_widths() {
    let fields = [(0x1F5u64, 4u8), (u64::MAX, 7), (9, 0), (300, 9), (1, 64)];
    let mut w = BitWriter::new();
    for (value, width) in fields {
        w.write_bits(value, width);
    }
    let n = w.bit_len();
    let bytes = w.into_bytes();
    let mut r = BitReader::with_bit_len(&bytes, n);
    for ((_, width), wanted) in fields.into_iter().zip([5u64, 127, 0, 300, 1]) {
        assert_eq!(r.read_bits(width).unwrap(), wanted);
    }
}

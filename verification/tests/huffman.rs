use oxideav_wma::binary64::Binary64;
use oxideav_wma::huffman::{HuffmanCode, HuffmanError};
use oxideav_wma::huffman_tree::HuffmanTree;
use oxideav_wma::{BitReader, BitWriter, BitstreamEnd};

/// The code of an alphabet with the given weights.
fn from_weights(weights: &[f64]) -> Result<HuffmanCode, HuffmanError> {
    let patterns: Vec<Binary64> = weights
        .iter()
        .map(|w| Binary64::from_bits(w.to_bits()))
        .collect();
    let mut tree = HuffmanTree::new(&patterns)?;
    while let Some((a, b)) = tree.next_pair() {
        let sum = f64::from_bits(a.to_bits()) + f64::from_bits(b.to_bits());
        tree.merge(Binary64::from_bits(sum.to_bits()));
    }
    tree.finish()
}

fn round_trip(code: &HuffmanCode, symbols: &[usize]) {
    let mut w = BitWriter::new();
    for &s in symbols {
        code.encode_symbol(s, &mut w).unwrap();
    }
    let bit_len = w.bit_len();
    let bytes = w.into_bytes();
    let mut r = BitReader::with_bit_len(&bytes, bit_len);
    for &s in symbols {
        assert_eq!(code.decode_symbol(&mut r).unwrap(), s);
    }
    assert_eq!(r.remaining_bits(), 0);
}

#[test]
fn from_weights_rejects_empty_and_invalid() {
    assert_eq!(
        from_weights(&[]),
        Err(HuffmanError::EmptyAlphabet)
    );
    assert!(matches!(
        from_weights(&[1.0, -0.5]),
        Err(HuffmanError::InvalidWeight { symbol: 1, .. })
    ));
    assert!(matches!(
        from_weights(&[f64::NAN]),
        Err(HuffmanError::InvalidWeight { symbol: 0, .. })
    ));
    assert!(matches!(
        from_weights(&[f64::INFINITY, 1.0]),
        Err(HuffmanError::InvalidWeight { symbol: 0, .. })
    ));
}

#[test]
fn single_symbol_gets_one_bit_code() {
    let code = from_weights(&[5.0]).unwrap();
    assert_eq!(code.len(), 1);
    assert_eq!(code.length_of(0), Some(1));
    assert_eq!(code.code_of(0), Some(0));
    round_trip(&code, &[0, 0, 0]);
}

#[test]
fn two_equal_symbols_get_one_bit_each() {
    let code = from_weights(&[1.0, 1.0]).unwrap();
    assert_eq!(code.length_of(0), Some(1));
    assert_eq!(code.length_of(1), Some(1));
    assert_eq!(code.code_of(0), Some(0));
    assert_eq!(code.code_of(1), Some(1));
}

#[test]
fn more_probable_symbols_get_no_longer_codes() {
    let weights = [0.5, 0.25, 0.15, 0.07, 0.03];
    let code = from_weights(&weights).unwrap();
    for s in 1..weights.len() {
        assert!(
            code.length_of(s).unwrap() >= code.length_of(s - 1).unwrap(),
            "symbol {s}"
        );
    }
}

#[test]
fn dyadic_weights_recover_exact_lengths() {
    let code = from_weights(&[0.5, 0.25, 0.125, 0.125]).unwrap();
    assert_eq!(code.length_of(0), Some(1));
    assert_eq!(code.length_of(1), Some(2));
    assert_eq!(code.length_of(2), Some(3));
    assert_eq!(code.length_of(3), Some(3));
    assert_eq!(code.max_len(), 3);
}

#[test]
fn zero_weights_are_legal_and_get_longest_codes() {
    let code = from_weights(&[0.0, 1.0, 0.0, 4.0]).unwrap();
    let l0 = code.length_of(0).unwrap();
    let l3 = code.length_of(3).unwrap();
    assert!(l0 >= l3);
    round_trip(&code, &[0, 1, 2, 3, 2, 1, 0]);
}

#[test]
fn built_code_is_prefix_free() {
    let weights = [5.0, 3.0, 3.0, 2.0, 1.0, 1.0, 0.5, 0.25];
    let code = from_weights(&weights).unwrap();
    for a in 0..weights.len() {
        for b in 0..weights.len() {
            if a == b {
                continue;
            }
            let (la, lb) = (code.length_of(a).unwrap(), code.length_of(b).unwrap());
            if la <= lb {
                let prefix = code.code_of(b).unwrap() >> (lb - la);
                assert_ne!(
                    prefix,
                    code.code_of(a).unwrap(),
                    "code {a} is a prefix of code {b}"
                );
            }
        }
    }
}

#[test]
fn built_code_satisfies_kraft_equality() {
    let weights = [9.0, 7.0, 5.0, 3.0, 2.0, 1.0];
    let code = from_weights(&weights).unwrap();
    let kraft: f64 = (0..weights.len())
        .map(|s| 2.0_f64.powi(-i32::from(code.length_of(s).unwrap())))
        .sum();
    assert!((kraft - 1.0).abs() < 1e-12, "kraft={kraft}");
}

#[test]
fn from_lengths_accepts_complete_codes() {
    let code = HuffmanCode::from_lengths(&[1, 2, 3, 3]).unwrap();
    assert_eq!(code.code_of(0), Some(0b0));
    assert_eq!(code.code_of(1), Some(0b10));
    assert_eq!(code.code_of(2), Some(0b110));
    assert_eq!(code.code_of(3), Some(0b111));
}

#[test]
fn from_lengths_rejects_incomplete_and_overfull() {
    assert_eq!(
        HuffmanCode::from_lengths(&[2, 2]),
        Err(HuffmanError::KraftViolation)
    );
    assert_eq!(
        HuffmanCode::from_lengths(&[1, 1, 1]),
        Err(HuffmanError::KraftViolation)
    );
    assert_eq!(
        HuffmanCode::from_lengths(&[0, 1]),
        Err(HuffmanError::InvalidLength { symbol: 0, len: 0 })
    );
    assert_eq!(
        HuffmanCode::from_lengths(&[]),
        Err(HuffmanError::EmptyAlphabet)
    );
}

#[test]
fn canonical_order_is_length_then_symbol() {
    let code = HuffmanCode::from_lengths(&[3, 1, 3, 2]).unwrap();
    assert_eq!(code.code_of(1), Some(0b0));
    assert_eq!(code.code_of(3), Some(0b10));
    assert_eq!(code.code_of(0), Some(0b110));
    assert_eq!(code.code_of(2), Some(0b111));
}

#[test]
fn encode_rejects_out_of_range_symbol() {
    let code = HuffmanCode::from_lengths(&[1, 1]).unwrap();
    let mut w = BitWriter::new();
    assert_eq!(
        code.encode_symbol(2, &mut w),
        Err(HuffmanError::SymbolOutOfRange {
            symbol: 2,
            alphabet: 2,
        })
    );
}

#[test]
fn decode_fails_cleanly_on_truncated_stream() {
    let code = HuffmanCode::from_lengths(&[1, 2, 2]).unwrap();
    let mut w = BitWriter::new();
    code.encode_symbol(2, &mut w).unwrap();
    let bytes = w.into_bytes();
    let mut r = BitReader::with_bit_len(&bytes, 1);
    assert!(matches!(
        code.decode_symbol(&mut r),
        Err(HuffmanError::Bitstream(_))
    ));
}

#[test]
fn round_trip_weighted_alphabet() {
    let weights = [40.0, 30.0, 15.0, 8.0, 4.0, 2.0, 1.0];
    let code = from_weights(&weights).unwrap();
    let mut state = 0xDEC0DE_u64;
    let symbols: Vec<usize> = (0..500)
        .map(|_| {
            state = state
                .wrapping_mul(6364136223846793005)
                .wrapping_add(1442695040888963407);
            (state >> 33) as usize % weights.len()
        })
        .collect();
    round_trip(&code, &symbols);
}

#[test]
fn weighted_stream_codes_shorter_than_fixed_width() {
    let weights = [900.0, 50.0, 25.0, 15.0, 6.0, 2.0, 1.0, 1.0];
    let code = from_weights(&weights).unwrap();
    let mut symbols = vec![0usize; 900];
    symbols.extend(std::iter::repeat_n(1usize, 50));
    symbols.extend(std::iter::repeat_n(2usize, 25));
    let mut w = BitWriter::new();
    for &s in &symbols {
        code.encode_symbol(s, &mut w).unwrap();
    }
    let huffman_bits = w.bit_len();
    let fixed_bits = symbols.len() * 3;
    assert!(
        huffman_bits < fixed_bits / 2,
        "huffman {huffman_bits} vs fixed {fixed_bits}"
    );
}

#[test]
fn error_display_and_source() {
    let e = HuffmanError::Bitstream(BitstreamEnd {
        requested: 1,
        remaining: 0,
    });
    assert!(e.message("").contains("exhausted"));
    assert!(HuffmanError::KraftViolation.message("").contains("complete prefix code"));
}

#[test]
fn refused_weight_is_shown_in_decimal() {
    let e = from_weights(&[1.0, -0.25]).unwrap_err();
    let shown = f64::from_bits(e.shown_number().unwrap().to_bits());
    assert_eq!(
        e.message(&shown.to_string()),
        "oxideav-wma::huffman: symbol 1 has invalid weight -0.25"
    );
    assert_eq!(HuffmanError::KraftViolation.shown_number(), None);
}

/// The least cost of lengths of at most `longest` bits, one for each weight, that fit in what is
/// left of a code space of size two to `longest`.
fn least_cost(weights: &[u64], longest: u32, left: u64) -> Option<u64> {
    let Some((&w, rest)) = weights.split_first() else {
        return Some(0);
    };
    (1..=longest)
        .filter(|len| 1u64 << (longest - len) <= left)
        .filter_map(|len| {
            let share = 1u64 << (longest - len);
            least_cost(rest, longest, left - share).map(|c| c + w * u64::from(len))
        })
        .min()
}

#[test]
fn no_lengths_that_fit_cost_less() {
    let alphabets: [&[u64]; 7] = [
        &[3],
        &[1, 1],
        &[5, 0, 0, 1],
        &[1, 1, 2, 3, 5],
        &[7, 7, 7, 7, 7],
        &[13, 1, 4, 4, 2, 9],
        &[1, 2, 4, 8, 16, 32],
    ];
    for weights in alphabets {
        let floats: Vec<f64> = weights.iter().map(|&w| w as f64).collect();
        let code = from_weights(&floats).unwrap();
        let cost: u64 = weights
            .iter()
            .enumerate()
            .map(|(s, &w)| w * u64::from(code.length_of(s).unwrap()))
            .sum();
        assert_eq!(Some(cost), least_cost(weights, 6, 1 << 6), "{weights:?}");
    }
}

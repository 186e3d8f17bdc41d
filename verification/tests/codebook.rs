use oxideav_wma::binary64::Binary64;
use oxideav_wma::codebook::{CodebookGrid, Disposition, InvalidGrid};
use oxideav_wma::runlevel::RunLevelPair;

fn b(x: f64) -> Binary64 {
    Binary64::from_bits(x.to_bits())
}

fn pair(run: u32, level: u32) -> RunLevelPair {
    RunLevelPair::new(run, level).expect("test pair must be valid")
}

fn grid_2x2(threshold: Binary64, probs: [Binary64; 4]) -> CodebookGrid {
    CodebookGrid::from_probabilities(2, 2, threshold, probs.to_vec())
        .expect("test grid must build")
}

#[test]
fn from_probabilities_accepts_a_minimal_grid() {
    let g = CodebookGrid::from_probabilities(1, 1, b(0.1), vec![b(0.5)]).unwrap();
    assert_eq!(g.rm(), 1);
    assert_eq!(g.ln(), 1);
    assert_eq!(g.threshold(), b(0.1));
}

#[test]
fn from_probabilities_accepts_an_all_zero_grid() {
    let g = grid_2x2(b(0.5), [b(0.0), b(0.0), b(0.0), b(0.0)]);
    assert_eq!(g.in_codebook_count(), 0);
    assert_eq!(g.escape_count_in_rectangle(), 4);
}

#[test]
fn from_probabilities_accepts_an_all_one_grid() {
    let g = grid_2x2(b(0.5), [b(1.0), b(1.0), b(1.0), b(1.0)]);
    assert_eq!(g.in_codebook_count(), 4);
    assert_eq!(g.escape_count_in_rectangle(), 0);
}

#[test]
fn from_probabilities_rejects_zero_rm() {
    let err = CodebookGrid::from_probabilities(0, 1, b(0.5), vec![]).unwrap_err();
    assert_eq!(err, InvalidGrid::ZeroRm);
}

#[test]
fn from_probabilities_rejects_zero_ln() {
    let err = CodebookGrid::from_probabilities(1, 0, b(0.5), vec![]).unwrap_err();
    assert_eq!(err, InvalidGrid::ZeroLn);
}

#[test]
fn from_probabilities_rejects_threshold_below_zero() {
    let err = CodebookGrid::from_probabilities(1, 1, b(-0.1), vec![b(0.5)]).unwrap_err();
    assert_eq!(err, InvalidGrid::ThresholdOutOfRange { threshold: b(-0.1) });
}

#[test]
fn from_probabilities_rejects_threshold_above_one() {
    let err = CodebookGrid::from_probabilities(1, 1, b(1.5), vec![b(0.5)]).unwrap_err();
    assert_eq!(err, InvalidGrid::ThresholdOutOfRange { threshold: b(1.5) });
}

#[test]
fn from_probabilities_rejects_nan_threshold() {
    let err = CodebookGrid::from_probabilities(1, 1, b(f64::NAN), vec![b(0.5)]).unwrap_err();
    match err {
        InvalidGrid::ThresholdOutOfRange { threshold } => assert!(threshold.is_nan()),
        other => panic!("expected ThresholdOutOfRange, got {other:?}"),
    }
}

#[test]
fn from_probabilities_rejects_length_mismatch() {
    let err = CodebookGrid::from_probabilities(2, 2, b(0.5), vec![b(0.1), b(0.2), b(0.3)]).unwrap_err();
    assert_eq!(
        err,
        InvalidGrid::ProbabilityLengthMismatch {
            expected: 4,
            got: 3
        }
    );
}

#[test]
fn from_probabilities_rejects_nan_probability() {
    let err = CodebookGrid::from_probabilities(1, 2, b(0.5), vec![b(0.5), b(f64::NAN)]).unwrap_err();
    match err {
        InvalidGrid::ProbabilityOutOfRange { probability } => assert!(probability.is_nan()),
        other => panic!("expected ProbabilityOutOfRange, got {other:?}"),
    }
}

#[test]
fn from_probabilities_rejects_negative_probability() {
    let err = CodebookGrid::from_probabilities(1, 2, b(0.5), vec![b(0.5), b(-0.01)]).unwrap_err();
    assert_eq!(
        err,
        InvalidGrid::ProbabilityOutOfRange { probability: b(-0.01) }
    );
}

#[test]
fn from_probabilities_rejects_probability_above_one() {
    let err = CodebookGrid::from_probabilities(1, 2, b(0.5), vec![b(0.5), b(1.01)]).unwrap_err();
    assert_eq!(
        err,
        InvalidGrid::ProbabilityOutOfRange { probability: b(1.01) }
    );
}

#[test]
fn probability_of_returns_row_major_value_inside_rectangle() {
    let g = grid_2x2(b(0.25), [b(0.10), b(0.20), b(0.30), b(0.40)]);
    assert_eq!(g.probability_of(1, 1), Some(b(0.10)));
    assert_eq!(g.probability_of(1, 2), Some(b(0.20)));
    assert_eq!(g.probability_of(2, 1), Some(b(0.30)));
    assert_eq!(g.probability_of(2, 2), Some(b(0.40)));
}

#[test]
fn probability_of_reports_outside_rectangle_as_none() {
    let g = grid_2x2(b(0.5), [b(0.1), b(0.2), b(0.3), b(0.4)]);
    assert_eq!(g.probability_of(3, 1), None);
    assert_eq!(g.probability_of(1, 3), None);
    assert_eq!(g.probability_of(0, 1), None);
    assert_eq!(g.probability_of(1, 0), None);
}

#[test]
fn disposition_above_threshold_is_in_codebook() {
    let g = grid_2x2(b(0.25), [b(0.10), b(0.20), b(0.30), b(0.40)]);
    assert_eq!(g.disposition(pair(2, 1)), Disposition::InCodebook);
    assert!(g.is_in_codebook(pair(2, 1)));
    assert!(!g.is_escape(pair(2, 1)));
}

#[test]
fn disposition_below_threshold_is_escape() {
    let g = grid_2x2(b(0.25), [b(0.10), b(0.20), b(0.30), b(0.40)]);
    assert_eq!(g.disposition(pair(1, 1)), Disposition::Escape);
    assert!(g.is_escape(pair(1, 1)));
    assert!(!g.is_in_codebook(pair(1, 1)));
}

#[test]
fn disposition_outside_rectangle_is_escape() {
    let g = grid_2x2(b(0.1), [b(0.5), b(0.5), b(0.5), b(0.5)]);
    assert_eq!(g.disposition(pair(3, 1)), Disposition::Escape);
    assert_eq!(g.disposition(pair(1, 3)), Disposition::Escape);
    assert_eq!(g.disposition(pair(99, 99)), Disposition::Escape);
}

#[test]
fn disposition_at_exact_threshold_is_in_codebook() {
    let g = grid_2x2(b(0.30), [b(0.10), b(0.20), b(0.30), b(0.40)]);
    assert_eq!(g.disposition(pair(2, 1)), Disposition::InCodebook);
}

#[test]
fn in_codebook_count_matches_strictly_above_or_equal() {
    let g = grid_2x2(b(0.25), [b(0.10), b(0.20), b(0.30), b(0.40)]);
    assert_eq!(g.in_codebook_count(), 2);
    assert_eq!(g.escape_count_in_rectangle(), 2);
}

#[test]
fn counts_partition_the_rectangle() {
    let g = grid_2x2(b(0.25), [b(0.10), b(0.30), b(0.20), b(0.40)]);
    assert_eq!(g.in_codebook_count() + g.escape_count_in_rectangle(), 4);
}

#[test]
fn in_codebook_pairs_iterates_in_row_major_order() {
    let g = grid_2x2(b(0.25), [b(0.10), b(0.30), b(0.40), b(0.50)]);
    let collected: Vec<(u32, u32)> = g
        .in_codebook_pairs()
        .iter()
        .map(|p| (p.run, p.level.get()))
        .collect();
    assert_eq!(collected, vec![(1, 2), (2, 1), (2, 2)]);
}

#[test]
fn in_codebook_pairs_is_empty_when_threshold_excludes_everything() {
    let g = grid_2x2(b(1.0), [b(0.10), b(0.30), b(0.40), b(0.50)]);
    let collected: Vec<RunLevelPair> = g.in_codebook_pairs();
    assert!(collected.is_empty());
}

#[test]
fn in_codebook_pairs_is_full_when_threshold_zero() {
    let g = grid_2x2(b(0.0), [b(0.10), b(0.30), b(0.40), b(0.50)]);
    let collected: Vec<(u32, u32)> = g
        .in_codebook_pairs()
        .iter()
        .map(|p| (p.run, p.level.get()))
        .collect();
    assert_eq!(collected, vec![(1, 1), (1, 2), (2, 1), (2, 2)]);
}

#[test]
fn in_codebook_pairs_count_matches_in_codebook_count_method() {
    let g = grid_2x2(b(0.25), [b(0.10), b(0.30), b(0.40), b(0.50)]);
    assert_eq!(g.in_codebook_pairs().len(), g.in_codebook_count());
}

#[test]
fn disposition_predicates_are_exclusive() {
    for disp in [Disposition::InCodebook, Disposition::Escape] {
        assert_ne!(disp.is_in_codebook(), disp.is_escape());
    }
}

#[test]
fn disposition_distinguishes_implicit_terminator_via_grid_state() {
    let g = CodebookGrid::from_probabilities(8, 4, b(0.5), vec![b(0.9); 32]).unwrap();
    let terminator = pair(8, 1);
    assert!(terminator.is_implicit_terminator_for(8));
    assert_eq!(g.disposition(terminator), Disposition::InCodebook);
}

#[test]
fn invalid_grid_display_names_each_variant() {
    let msgs = [
        InvalidGrid::ZeroRm.message(""),
        InvalidGrid::ZeroLn.message(""),
        InvalidGrid::ThresholdOutOfRange { threshold: b(2.0) }.message(&2.0f64.to_string()),
        InvalidGrid::DimensionsOverflow {
                rm: u32::MAX,
                ln: u32::MAX
            }.message(""),
        InvalidGrid::ProbabilityLengthMismatch {
                expected: 4,
                got: 3
            }.message(""),
        InvalidGrid::ProbabilityOutOfRange { probability: b(1.5) }.message(&1.5f64.to_string()),
    ];
    for msg in &msgs {
        assert!(msg.starts_with("oxideav-wma::codebook:"));
    }
    assert_eq!(
        msgs[2],
        "oxideav-wma::codebook: threshold 2 is not a probability in [0.0, 1.0]"
    );
    assert_eq!(
        msgs[5],
        "oxideav-wma::codebook: probability 1.5 is not in [0.0, 1.0]"
    );
    assert_eq!(InvalidGrid::ZeroRm.shown_number(), None);
    assert_eq!(
        InvalidGrid::ThresholdOutOfRange { threshold: b(2.0) }.shown_number(),
        Some(b(2.0))
    );
}

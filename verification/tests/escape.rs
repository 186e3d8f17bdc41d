use oxideav_wma::binary64::Binary64;
use oxideav_wma::codebook::{CodebookGrid, Disposition};
use oxideav_wma::escape::{EscapeError, EscapeLiteral};
use oxideav_wma::runlevel::{InvalidPair, NonZeroLevel, RunLevelPair};

fn b(x: f64) -> Binary64 {
    Binary64::from_bits(x.to_bits())
}

fn pair(run: u32, level: u32) -> RunLevelPair {
    RunLevelPair::new(run, level).unwrap()
}

fn grid_2x2_only_11_in_codebook() -> CodebookGrid {
    CodebookGrid::from_probabilities(2, 2, b(0.5), vec![b(0.9), b(0.1), b(0.1), b(0.1)]).unwrap()
}

#[test]
fn new_accepts_minimum_run_and_level() {
    let lit = EscapeLiteral::new(1, 1).unwrap();
    assert_eq!(lit.run(), 1);
    assert_eq!(lit.level_raw(), 1);
}

#[test]
fn new_accepts_large_run_and_level() {
    let lit = EscapeLiteral::new(4096, 32_768).unwrap();
    assert_eq!(lit.run(), 4096);
    assert_eq!(lit.level_raw(), 32_768);
}

#[test]
fn new_accepts_u32_max_run() {
    let lit = EscapeLiteral::new(u32::MAX, 1).unwrap();
    assert_eq!(lit.run(), u32::MAX);
}

#[test]
fn new_accepts_u32_max_level() {
    let lit = EscapeLiteral::new(1, u32::MAX).unwrap();
    assert_eq!(lit.level_raw(), u32::MAX);
}

#[test]
fn new_rejects_zero_run() {
    let err = EscapeLiteral::new(0, 1).unwrap_err();
    assert_eq!(err, EscapeError::InvalidPair(InvalidPair::ZeroRun));
}

#[test]
fn new_rejects_zero_level() {
    let err = EscapeLiteral::new(1, 0).unwrap_err();
    assert_eq!(err, EscapeError::InvalidPair(InvalidPair::ZeroLevel));
}

#[test]
fn new_rejects_zero_run_when_level_also_zero() {
    let err = EscapeLiteral::new(0, 0).unwrap_err();
    assert_eq!(err, EscapeError::InvalidPair(InvalidPair::ZeroRun));
}

#[test]
fn for_pair_accepts_pair_with_escape_disposition() {
    let grid = grid_2x2_only_11_in_codebook();
    let p = pair(1, 2);
    assert!(grid.is_escape(p));
    let lit = EscapeLiteral::for_pair(&grid, p).unwrap();
    assert_eq!(lit.run(), 1);
    assert_eq!(lit.level_raw(), 2);
}

#[test]
fn for_pair_accepts_pair_outside_grid_rectangle() {
    let grid = grid_2x2_only_11_in_codebook();
    let p = pair(5, 7);
    assert!(grid.is_escape(p));
    let lit = EscapeLiteral::for_pair(&grid, p).unwrap();
    assert_eq!(lit.run(), 5);
    assert_eq!(lit.level_raw(), 7);
}

#[test]
fn for_pair_rejects_in_codebook_pair() {
    let grid = grid_2x2_only_11_in_codebook();
    let p = pair(1, 1);
    assert!(grid.is_in_codebook(p));
    let err = EscapeLiteral::for_pair(&grid, p).unwrap_err();
    assert_eq!(err, EscapeError::InCodebook);
}

#[test]
fn level_returns_non_zero_u32() {
    let lit = EscapeLiteral::new(3, 42).unwrap();
    assert_eq!(lit.level(), NonZeroLevel::new(42).unwrap());
    assert_eq!(lit.level_raw(), 42);
}

#[test]
fn copy_and_eq_hold_for_two_literals_with_same_fields() {
    let a = EscapeLiteral::new(7, 3).unwrap();
    let b = a;
    assert_eq!(a, b);
    let c = EscapeLiteral::new(7, 3).unwrap();
    assert_eq!(a, c);
}

#[test]
fn as_run_level_pair_round_trips_explicit_constructor() {
    let lit = EscapeLiteral::new(9, 17).unwrap();
    let p = lit.as_run_level_pair();
    assert_eq!(p, pair(9, 17));
}

#[test]
fn as_run_level_pair_round_trips_grid_constructor() {
    let grid = grid_2x2_only_11_in_codebook();
    let p_in = pair(2, 2);
    let lit = EscapeLiteral::for_pair(&grid, p_in).unwrap();
    let p_out = lit.as_run_level_pair();
    assert_eq!(p_in, p_out);
}

#[test]
fn as_run_level_pair_round_trips_u32_max_run_and_level() {
    let lit = EscapeLiteral::new(u32::MAX, u32::MAX).unwrap();
    let p = lit.as_run_level_pair();
    assert_eq!(p.run, u32::MAX);
    assert_eq!(p.level.get(), u32::MAX);
}

#[test]
fn error_display_includes_inner_invalid_pair_for_zero_run() {
    let err = EscapeError::InvalidPair(InvalidPair::ZeroRun);
    let s = err.message();
    assert!(s.contains("invalid escape literal"));
    assert!(s.contains("run"));
}

#[test]
fn error_display_for_in_codebook_cites_claim_4() {
    let err = EscapeError::InCodebook;
    let s = err.message();
    assert!(s.contains("US6,223,162"));
    assert!(s.contains("Claim 4"));
}

#[test]
fn every_grid_escape_pair_yields_a_literal_via_for_pair() {
    let grid = CodebookGrid::from_probabilities(
        3,
        3,
        b(0.5),
        vec![b(0.9), b(0.1), b(0.1), b(0.9), b(0.1), b(0.1), b(0.1), b(0.1), b(0.1)],
    )
    .unwrap();
    for r in 1..=3 {
        for l in 1..=3 {
            let p = pair(r, l);
            let disp = grid.disposition(p);
            let result = EscapeLiteral::for_pair(&grid, p);
            match disp {
                Disposition::Escape => {
                    let lit = result.unwrap();
                    assert_eq!(lit.as_run_level_pair(), p);
                }
                Disposition::InCodebook => {
                    assert_eq!(result, Err(EscapeError::InCodebook));
                }
            }
        }
    }
}

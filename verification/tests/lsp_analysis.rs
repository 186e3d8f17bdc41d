use oxideav_wma::binary64::Binary64;
use oxideav_wma::lsp_analysis::{
    coded_bins, default_indices, quantise_row, reach, LspSearch, LSP_ORDER,
};

const WIDTHS: [u8; LSP_ORDER] = [3, 4, 4, 4, 4, 4, 4, 3, 3, 2];

fn b(x: f64) -> Binary64 {
    Binary64::from_bits(x.to_bits())
}

/// A bumpy distance: how far the indices lie from a target, plus a ripple.
fn distance(indices: &[u8; LSP_ORDER], seed: u64) -> f64 {
    let mut total = 0.0;
    for (i, &v) in indices.iter().enumerate() {
        let target = ((seed >> (3 * i)) & 7) as f64;
        let d = f64::from(v) - target;
        total += d * d + ((u64::from(v) * 7 + seed + i as u64) % 5) as f64 * 0.75;
    }
    total
}

/// The search written as nested loops.
fn descend(start: [u8; LSP_ORDER], seed: u64) -> ([u8; LSP_ORDER], usize) {
    let mut best = start;
    let mut best_d = distance(&best, seed);
    let mut trials = 0;
    for _pass in 0..3 {
        let mut improved = false;
        for i in 0..LSP_ORDER {
            let cur = i32::from(best[i]);
            for delta in [-2i32, -1, 1, 2] {
                let cand = cur + delta;
                if cand < 0 || cand >= reach(WIDTHS[i]) as i32 {
                    continue;
                }
                let mut trial = best;
                trial[i] = cand as u8;
                trials += 1;
                let d = distance(&trial, seed);
                if d < best_d {
                    best_d = d;
                    best = trial;
                    improved = true;
                }
            }
        }
        if !improved {
            break;
        }
    }
    (best, trials)
}

#[test]
fn search_is_coordinate_descent() {
    for seed in [0u64, 1, 0x1234_5678, 0x3FFF_FFFF, 0x0F0F_0F0F] {
        let start = default_indices(&WIDTHS);
        let mut search = LspSearch::new(WIDTHS, start, b(distance(&start, seed)));
        let mut trials = 0;
        while let Some(trial) = search.trial() {
            trials += 1;
            search.record(b(distance(&trial, seed)));
        }
        let (best, expected_trials) = descend(start, seed);
        assert_eq!(search.best(), best, "seed {seed}");
        assert_eq!(trials, expected_trials, "seed {seed}");
        assert!(trials <= 120);
        assert!(distance(&best, seed) <= distance(&start, seed));
        for (i, &v) in best.iter().enumerate() {
            assert!((v as usize) < reach(WIDTHS[i]));
        }
    }
}

#[test]
fn search_stops_after_a_pass_without_gain() {
    let start = default_indices(&WIDTHS);
    let mut search = LspSearch::new(WIDTHS, start, b(0.0));
    let mut trials = 0;
    while let Some(_) = search.trial() {
        trials += 1;
        search.record(b(1.0));
    }
    assert_eq!(search.best(), start);
    assert!(trials <= 40);
}

#[test]
fn defaults_are_in_the_middle() {
    assert_eq!(default_indices(&WIDTHS), [4, 8, 8, 8, 8, 8, 8, 4, 4, 2]);
    assert_eq!(reach(0), 1);
    assert_eq!(reach(8), 256);
}

#[test]
fn nearest_entry_is_the_first_minimum() {
    assert_eq!(quantise_row(&[b(3.0), b(1.0), b(2.0), b(1.0)]), 1);
    assert_eq!(quantise_row(&[b(5.0)]), 0);
    assert_eq!(quantise_row(&[]), 0);
    assert_eq!(quantise_row(&[b(f64::NAN), b(1.0)]), 0);
}

#[test]
fn coded_bins_stay_in_the_target() {
    assert_eq!(coded_bins(512, 0, 466), (0, 466));
    assert_eq!(coded_bins(512, 600, 700), (512, 512));
    assert_eq!(coded_bins(512, 300, 200), (200, 200));
}

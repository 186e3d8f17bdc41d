use oxideav_wma::bands::{BandPlan, BandPolicy, InvalidBandPlan};
use oxideav_wma::binary64::Binary64;

fn b(x: f64) -> Binary64 {
    Binary64::from_bits(x.to_bits())
}

#[test]
fn coded_predicate_is_only_true_for_coded() {
    let coded = BandPolicy::Coded;
    let noise = BandPolicy::NoiseSubstituted { energy: b(1.0) };
    let trunc = BandPolicy::Truncated;
    assert!(coded.is_coded());
    assert!(!noise.is_coded());
    assert!(!trunc.is_coded());
}

#[test]
fn noise_predicate_is_only_true_for_noise_substituted() {
    let coded = BandPolicy::Coded;
    let noise = BandPolicy::NoiseSubstituted { energy: b(1.0) };
    let trunc = BandPolicy::Truncated;
    assert!(!coded.is_noise_substituted());
    assert!(noise.is_noise_substituted());
    assert!(!trunc.is_noise_substituted());
}

#[test]
fn truncated_predicate_is_only_true_for_truncated() {
    let coded = BandPolicy::Coded;
    let noise = BandPolicy::NoiseSubstituted { energy: b(1.0) };
    let trunc = BandPolicy::Truncated;
    assert!(!coded.is_truncated());
    assert!(!noise.is_truncated());
    assert!(trunc.is_truncated());
}

#[test]
fn noise_energy_accessor_only_returns_for_noise_substituted() {
    assert_eq!(BandPolicy::Coded.noise_energy(), None);
    assert_eq!(BandPolicy::Truncated.noise_energy(), None);
    assert_eq!(
        BandPolicy::NoiseSubstituted { energy: b(3.5) }.noise_energy(),
        Some(b(3.5))
    );
    assert_eq!(
        BandPolicy::NoiseSubstituted { energy: b(0.0) }.noise_energy(),
        Some(b(0.0))
    );
}

#[test]
fn three_variants_are_mutually_exclusive() {
    let cases = [
        BandPolicy::Coded,
        BandPolicy::NoiseSubstituted { energy: b(1.0) },
        BandPolicy::Truncated,
    ];
    for p in cases {
        let flags = [p.is_coded(), p.is_noise_substituted(), p.is_truncated()];
        let count = flags.iter().filter(|f| **f).count();
        assert_eq!(count, 1, "variant {p:?} flagged {count} predicates");
    }
}

#[test]
fn new_accepts_any_policy_table() {
    let plan = BandPlan::new(vec![
        BandPolicy::Truncated,
        BandPolicy::Coded,
        BandPolicy::Truncated,
    ]);
    assert_eq!(plan.len(), 3);
    assert_eq!(plan.cutoff_index(), None);
}

#[test]
fn new_empty_plan_is_empty() {
    let plan = BandPlan::new(vec![]);
    assert!(plan.is_empty());
    assert_eq!(plan.len(), 0);
    assert_eq!(plan.policy_of(0), None);
}

#[test]
fn new_with_cutoff_accepts_no_truncation() {
    let plan = BandPlan::new_with_cutoff(vec![
        BandPolicy::Coded,
        BandPolicy::NoiseSubstituted { energy: b(1.0) },
        BandPolicy::Coded,
    ])
    .unwrap();
    assert_eq!(plan.cutoff_index(), None);
    assert_eq!(plan.truncated_band_count(), 0);
}

#[test]
fn new_with_cutoff_accepts_contiguous_tail() {
    let plan = BandPlan::new_with_cutoff(vec![
        BandPolicy::Coded,
        BandPolicy::Coded,
        BandPolicy::NoiseSubstituted { energy: b(2.0) },
        BandPolicy::Truncated,
        BandPolicy::Truncated,
    ])
    .unwrap();
    assert_eq!(plan.cutoff_index(), Some(3));
    assert_eq!(plan.truncated_band_count(), 2);
}

#[test]
fn new_with_cutoff_accepts_all_truncated() {
    let plan = BandPlan::new_with_cutoff(vec![
        BandPolicy::Truncated,
        BandPolicy::Truncated,
        BandPolicy::Truncated,
    ])
    .unwrap();
    assert_eq!(plan.cutoff_index(), Some(0));
    assert_eq!(plan.truncated_band_count(), 3);
}

#[test]
fn new_with_cutoff_rejects_truncated_followed_by_coded() {
    let err = BandPlan::new_with_cutoff(vec![
        BandPolicy::Coded,
        BandPolicy::Truncated,
        BandPolicy::Coded,
    ])
    .unwrap_err();
    assert_eq!(
        err,
        InvalidBandPlan::TruncatedNotContiguousTail { at_band: 1 }
    );
}

#[test]
fn new_with_cutoff_rejects_truncated_followed_by_noise() {
    let err = BandPlan::new_with_cutoff(vec![
        BandPolicy::Truncated,
        BandPolicy::NoiseSubstituted { energy: b(1.0) },
    ])
    .unwrap_err();
    assert_eq!(
        err,
        InvalidBandPlan::TruncatedNotContiguousTail { at_band: 0 }
    );
}

#[test]
fn new_with_cutoff_accepts_single_truncated_at_end() {
    let plan =
        BandPlan::new_with_cutoff(vec![BandPolicy::Coded, BandPolicy::Truncated]).unwrap();
    assert_eq!(plan.cutoff_index(), Some(1));
}

#[test]
fn new_with_cutoff_empty_plan_has_no_cutoff() {
    let plan = BandPlan::new_with_cutoff(vec![]).unwrap();
    assert!(plan.is_empty());
    assert_eq!(plan.cutoff_index(), None);
}

#[test]
fn policy_of_in_range_returns_band_policy() {
    let plan = BandPlan::new(vec![
        BandPolicy::Coded,
        BandPolicy::NoiseSubstituted { energy: b(7.0) },
        BandPolicy::Truncated,
    ]);
    assert_eq!(plan.policy_of(0), Some(BandPolicy::Coded));
    assert_eq!(
        plan.policy_of(1),
        Some(BandPolicy::NoiseSubstituted { energy: b(7.0) })
    );
    assert_eq!(plan.policy_of(2), Some(BandPolicy::Truncated));
    assert_eq!(plan.policy_of(3), None);
}

#[test]
fn band_counts_partition_the_plan() {
    let plan = BandPlan::new(vec![
        BandPolicy::Coded,
        BandPolicy::Coded,
        BandPolicy::NoiseSubstituted { energy: b(1.0) },
        BandPolicy::Truncated,
        BandPolicy::Truncated,
        BandPolicy::Truncated,
    ]);
    assert_eq!(plan.coded_band_count(), 2);
    assert_eq!(plan.noise_band_count(), 1);
    assert_eq!(plan.truncated_band_count(), 3);
    assert_eq!(
        plan.coded_band_count() + plan.noise_band_count() + plan.truncated_band_count(),
        plan.len(),
    );
}

#[test]
fn invalid_band_plan_display_names_offending_band() {
    let err = InvalidBandPlan::TruncatedNotContiguousTail { at_band: 4 };
    let s = err.message();
    assert!(
        s.contains("band 4"),
        "display did not name offending band: {s}"
    );
    assert!(
        s.contains("contiguous tail"),
        "display did not name the shape requirement: {s}",
    );
}

#[test]
fn cutoff_models_the_patent_high_band_truncation_shape() {
    let plan = BandPlan::new_with_cutoff(vec![
        BandPolicy::Coded,
        BandPolicy::Coded,
        BandPolicy::Coded,
        BandPolicy::NoiseSubstituted { energy: b(0.1) },
        BandPolicy::Truncated,
        BandPolicy::Truncated,
    ])
    .unwrap();
    let cutoff = plan.cutoff_index().expect("expected a cutoff");
    for d in cutoff..plan.len() {
        assert_eq!(plan.policy_of(d), Some(BandPolicy::Truncated));
    }
    for d in 0..cutoff {
        assert!(
            !plan.policy_of(d).unwrap().is_truncated(),
            "band {d} below cutoff was Truncated",
        );
    }
}

#[test]
fn rejected_plan_names_the_last_truncated_band_of_the_run() {
    let err = BandPlan::new_with_cutoff(vec![
        BandPolicy::Coded,
        BandPolicy::Truncated,
        BandPolicy::Truncated,
        BandPolicy::Coded,
    ])
    .unwrap_err();
    assert_eq!(
        err,
        InvalidBandPlan::TruncatedNotContiguousTail { at_band: 2 }
    );
}

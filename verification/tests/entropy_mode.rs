use oxideav_wma::entropy_mode::{EntropyMode, InvalidPartition, Partition};
use oxideav_wma::BlockSize;

#[test]
fn entropy_mode_all_contains_both_patent_modes() {
    assert_eq!(EntropyMode::ALL.len(), 2);
    assert!(EntropyMode::ALL.contains(&EntropyMode::Level));
    assert!(EntropyMode::ALL.contains(&EntropyMode::RunLevel));
}

#[test]
fn entropy_mode_low_frequency_first_in_all() {
    assert_eq!(EntropyMode::ALL[0], EntropyMode::Level);
    assert_eq!(EntropyMode::ALL[1], EntropyMode::RunLevel);
}

#[test]
fn entropy_mode_opposite_is_involutive() {
    for m in EntropyMode::ALL {
        assert_eq!(m.opposite().opposite(), m, "involution failed for {m:?}");
        assert_ne!(m.opposite(), m, "opposite must differ from {m:?}");
    }
}

#[test]
fn entropy_mode_predicates_are_exclusive() {
    for m in EntropyMode::ALL {
        assert!(m.is_level() ^ m.is_run_level(), "{m:?}");
    }
}

#[test]
fn partition_new_accepts_split_at_zero() {
    let p = Partition::new(2048, 0, false).unwrap();
    assert_eq!(p.split, 0);
    assert_eq!(p.level_range_len(), 0);
    assert_eq!(p.run_level_range_len(), 2048);
}

#[test]
fn partition_new_accepts_split_at_total() {
    let p = Partition::new(2048, 2048, false).unwrap();
    assert_eq!(p.split, 2048);
    assert_eq!(p.level_range_len(), 2048);
    assert_eq!(p.run_level_range_len(), 0);
}

#[test]
fn partition_new_accepts_mid_split() {
    let p = Partition::new(2048, 512, true).unwrap();
    assert_eq!(p.level_range_len(), 512);
    assert_eq!(p.run_level_range_len(), 1536);
}

#[test]
fn partition_new_rejects_split_beyond_block() {
    let err = Partition::new(2048, 2049, false).unwrap_err();
    assert_eq!(
        err,
        InvalidPartition::SplitOutOfBlock {
            split: 2049,
            total_coeffs: 2048,
        }
    );
}

#[test]
fn partition_new_rejects_far_out_of_block() {
    let err = Partition::new(1024, u32::MAX, true).unwrap_err();
    assert_eq!(
        err,
        InvalidPartition::SplitOutOfBlock {
            split: u32::MAX,
            total_coeffs: 1024,
        }
    );
}

#[test]
fn partition_adaptive_and_predetermined_are_complementary() {
    let p_adapt = Partition::new(1024, 256, true).unwrap();
    assert!(p_adapt.is_adaptive());
    assert!(!p_adapt.is_predetermined());

    let p_fixed = Partition::new(1024, 256, false).unwrap();
    assert!(!p_fixed.is_adaptive());
    assert!(p_fixed.is_predetermined());
}

#[test]
fn partition_mode_for_low_index_is_level() {
    let p = Partition::new(1024, 256, false).unwrap();
    assert_eq!(p.mode_for(0), Some(EntropyMode::Level));
    assert_eq!(p.mode_for(255), Some(EntropyMode::Level));
}

#[test]
fn partition_mode_for_high_index_is_run_level() {
    let p = Partition::new(1024, 256, false).unwrap();
    assert_eq!(p.mode_for(256), Some(EntropyMode::RunLevel));
    assert_eq!(p.mode_for(1023), Some(EntropyMode::RunLevel));
}

#[test]
fn partition_mode_for_out_of_range_is_none() {
    let p = Partition::new(1024, 256, false).unwrap();
    assert_eq!(p.mode_for(1024), None);
    assert_eq!(p.mode_for(u32::MAX), None);
}

#[test]
fn partition_mode_for_split_at_zero_is_all_run_level() {
    let p = Partition::new(64, 0, false).unwrap();
    for i in 0..64 {
        assert_eq!(p.mode_for(i), Some(EntropyMode::RunLevel), "i={i}");
    }
}

#[test]
fn partition_mode_for_split_at_total_is_all_level() {
    let p = Partition::new(64, 64, false).unwrap();
    for i in 0..64 {
        assert_eq!(p.mode_for(i), Some(EntropyMode::Level), "i={i}");
    }
}

#[test]
fn partition_range_lengths_sum_to_total() {
    for split in [0u32, 1, 256, 1023, 1024] {
        let p = Partition::new(1024, split, false).unwrap();
        assert_eq!(p.level_range_len() + p.run_level_range_len(), 1024);
    }
}

#[test]
fn partition_can_be_built_for_every_patent_block_size() {
    for b in BlockSize::ALL {
        let total = b.samples() as u32;
        let p = Partition::new(total, total / 2, true).unwrap();
        assert_eq!(p.total_coeffs, total);
        assert_eq!(p.level_range_len(), total / 2);
        assert_eq!(p.run_level_range_len(), total - total / 2);
    }
}

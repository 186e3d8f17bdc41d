use oxideav_wma::exponent_bands::{
    exponent_band_boundaries, exponent_band_layout, hz_edge_to_bin, noise_band_boundaries,
    noise_band_layout, BandDeriveError,
};
use oxideav_wma::BlockSize;

const REAL_CONFIGS: [(u32, BlockSize); 6] = [
    (8_000, BlockSize::S512),
    (11_025, BlockSize::S512),
    (16_000, BlockSize::S512),
    (22_050, BlockSize::S1024),
    (32_000, BlockSize::S1024),
    (44_100, BlockSize::S2048),
];

#[test]
fn zero_sample_rate_is_rejected() {
    assert_eq!(
        hz_edge_to_bin(100, 0, BlockSize::S2048),
        Err(BandDeriveError::ZeroSampleRate)
    );
    assert_eq!(
        exponent_band_boundaries(0, BlockSize::S2048),
        Err(BandDeriveError::ZeroSampleRate)
    );
    assert!(BandDeriveError::ZeroSampleRate.message().contains("non-zero"));
}

#[test]
fn hz_scaling_pins_round_half_up_and_clamp() {
    assert_eq!(hz_edge_to_bin(100, 44_100, BlockSize::S2048), Ok(9));
    assert_eq!(hz_edge_to_bin(200, 44_100, BlockSize::S2048), Ok(19));
    assert_eq!(hz_edge_to_bin(22_050, 44_100, BlockSize::S2048), Ok(2048));
    assert_eq!(hz_edge_to_bin(24_500, 44_100, BlockSize::S2048), Ok(2048));
    assert_eq!(hz_edge_to_bin(250, 16_000, BlockSize::S512), Ok(16));
}

#[test]
fn boundaries_are_strictly_increasing_and_cover_the_block() {
    for &(sr, block) in &REAL_CONFIGS {
        for boundaries in [
            exponent_band_boundaries(sr, block).unwrap(),
            noise_band_boundaries(sr, block).unwrap(),
        ] {
            assert_eq!(boundaries[0], 0, "{sr} Hz {block:?}");
            assert_eq!(
                *boundaries.last().unwrap(),
                block.samples(),
                "{sr} Hz {block:?}"
            );
            for w in boundaries.windows(2) {
                assert!(w[0] < w[1], "{sr} Hz {block:?}: {boundaries:?}");
            }
        }
    }
}

#[test]
fn full_rate_uses_every_critical_band() {
    let b = exponent_band_boundaries(44_100, BlockSize::S2048).unwrap();
    assert_eq!(b.len(), 26);
    assert_eq!(&b[..6], &[0, 9, 19, 28, 37, 47]);
    let layout = exponent_band_layout(44_100, BlockSize::S2048).unwrap();
    assert_eq!(layout.band_count(), 25);
    assert_eq!(layout.total_coeffs(), 2048);
}

#[test]
fn low_rate_collapses_bands_above_nyquist() {
    let b = exponent_band_boundaries(8_000, BlockSize::S512).unwrap();
    assert_eq!(b.len(), 19);
    assert_eq!(b[1], 13);
    assert_eq!(b[17], 474);
    assert_eq!(*b.last().unwrap(), 512);
    let layout = exponent_band_layout(8_000, BlockSize::S512).unwrap();
    assert_eq!(layout.band_count(), 18);
}

#[test]
fn noise_bands_derive_from_the_octave_grid() {
    let b = noise_band_boundaries(44_100, BlockSize::S2048).unwrap();
    assert_eq!(b, vec![0, 5, 9, 19, 37, 74, 149, 297, 594, 1189, 2048]);
    let layout = noise_band_layout(44_100, BlockSize::S2048).unwrap();
    assert_eq!(layout.band_count(), 10);
    assert_eq!(layout.total_coeffs(), 2048);
}

#[test]
fn layouts_assign_ascending_weight_slots() {
    let layout = exponent_band_layout(22_050, BlockSize::S1024).unwrap();
    for (d, band) in layout.bands().iter().enumerate() {
        assert_eq!(usize::from(band.weight_index()), d);
    }
    let map = layout.band_map();
    assert_eq!(map.len(), 1024);
    assert_eq!(map[0], 0);
    assert_eq!(usize::from(*map.last().unwrap()), layout.band_count() - 1);
}

#[test]
fn every_block_size_partitions_cleanly_at_every_real_rate() {
    for &(sr, _) in &REAL_CONFIGS {
        for block in BlockSize::ALL {
            let exp = exponent_band_layout(sr, block).unwrap();
            assert_eq!(exp.total_coeffs(), usize::from(block.samples()));
            let noise = noise_band_layout(sr, block).unwrap();
            assert_eq!(noise.total_coeffs(), usize::from(block.samples()));
            assert!(noise.band_count() <= 10);
            assert!(exp.band_count() <= 25);
        }
    }
}

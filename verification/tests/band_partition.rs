use oxideav_wma::band_partition::{
    exponent_band_count, exponent_band_edges, HI_128, HI_256, HI_512, LO_128, LO_256, MID_128,
    MID_256, MID_512,
};

const ALL_HARD: [(&[u16], u32, u16); 8] = [
    (&HI_128, 44_100, 128),
    (&HI_256, 44_100, 256),
    (&HI_512, 44_100, 512),
    (&MID_128, 32_000, 128),
    (&MID_256, 32_000, 256),
    (&MID_512, 32_000, 512),
    (&LO_128, 22_050, 128),
    (&LO_256, 22_050, 256),
];

#[test]
fn staged_invariants_hold_for_all_eight_partitions() {
    for (edges, sr, bc) in ALL_HARD {
        assert_eq!(edges[0], 0);
        assert_eq!(*edges.last().unwrap(), bc);
        for w in edges.windows(2) {
            assert!(w[0] < w[1], "sr {sr} bc {bc}");
        }
        assert!(edges.iter().all(|e| e % 4 == 0), "sr {sr} bc {bc}");
        assert_eq!(exponent_band_edges(sr, bc), edges.to_vec());
    }
}

#[test]
fn band_counts_span_the_staged_range() {
    let counts: Vec<usize> = ALL_HARD
        .iter()
        .map(|&(_, sr, bc)| exponent_band_count(sr, bc))
        .collect();
    assert_eq!(counts.iter().min(), Some(&10));
    assert_eq!(counts.iter().max(), Some(&17));
}

#[test]
fn computed_partition_yields_25_bands_for_a_full_block_at_44100() {
    assert_eq!(exponent_band_count(44_100, 2048), 25);
    let edges = exponent_band_edges(44_100, 2048);
    assert_eq!(edges[0], 0);
    assert_eq!(*edges.last().unwrap(), 2048);
    assert!(edges.iter().all(|e| e % 4 == 0));
}

#[test]
fn sub_22050_streams_always_compute() {
    for bc in [128u16, 256, 512] {
        let edges = exponent_band_edges(8000, bc);
        assert_eq!(edges[0], 0);
        assert_eq!(*edges.last().unwrap(), bc);
        for w in edges.windows(2) {
            assert!(w[0] < w[1]);
        }
    }
}

#[test]
fn large_blocks_fall_through_to_the_computed_walk() {
    for sr in [22_050u32, 32_000, 44_100] {
        for bc in [1024u16, 2048] {
            let edges = exponent_band_edges(sr, bc);
            assert_eq!(*edges.last().unwrap(), bc, "sr {sr} bc {bc}");
            assert!(edges.len() > 2);
        }
    }
}

#[test]
fn selector_boundaries_match_the_staged_arms() {
    assert_eq!(exponent_band_edges(48_000, 128), HI_128.to_vec());
    assert_eq!(exponent_band_edges(44_100, 128), HI_128.to_vec());
    assert_eq!(exponent_band_edges(44_099, 128), MID_128.to_vec());
    assert_eq!(exponent_band_edges(32_000, 128), MID_128.to_vec());
    assert_eq!(exponent_band_edges(31_999, 128), LO_128.to_vec());
    assert_eq!(exponent_band_edges(22_050, 128), LO_128.to_vec());
    assert_ne!(exponent_band_edges(22_049, 128), LO_128.to_vec());
}

#[test]
fn computed_edges_are_the_nearest_multiples_of_four() {
    assert_eq!(
        exponent_band_edges(44_100, 2048)[..4],
        [0, 8, 20, 28]
    );
    let edges = exponent_band_edges(22_050, 1024);
    assert_eq!(
        edges,
        vec![
            0, 8, 20, 28, 36, 48, 60, 72, 84, 100, 116, 136, 160, 184, 216, 252, 292,
            344, 408, 492, 596, 716, 884, 1024
        ]
    );
    // Where the noise bands of long, middle and short blocks begin.
    assert!(edges.contains(&716));
    assert!(exponent_band_edges(22_050, 512).contains(&356));
    assert!(exponent_band_edges(22_050, 256).contains(&148));
    assert_eq!(exponent_band_edges(8000, 0), vec![0, 0]);
}

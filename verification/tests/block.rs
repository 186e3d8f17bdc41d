use oxideav_wma::{BlockSize, Error, Version, WmaHeader};

#[test]
fn all_contains_the_five_patent_disclosed_sizes() {
    let samples: Vec<u16> = BlockSize::ALL.iter().map(|b| b.samples()).collect();
    assert_eq!(samples, vec![256, 512, 1024, 2048, 4096]);
}

#[test]
fn all_is_strictly_ascending() {
    for w in BlockSize::ALL.windows(2) {
        assert!(w[0].samples() < w[1].samples(), "{:?} !< {:?}", w[0], w[1]);
    }
}

#[test]
fn samples_is_power_of_two_of_log2() {
    for b in BlockSize::ALL {
        assert_eq!(1u16 << b.log2_samples(), b.samples(), "{b:?}");
    }
}

#[test]
fn log2_set_is_8_through_12() {
    let log2s: Vec<u8> = BlockSize::ALL.iter().map(|b| b.log2_samples()).collect();
    assert_eq!(log2s, vec![8, 9, 10, 11, 12]);
}

#[test]
fn from_samples_accepts_every_patent_value() {
    for b in BlockSize::ALL {
        assert_eq!(BlockSize::from_samples(b.samples()), Ok(b));
    }
}

#[test]
fn from_samples_rejects_powers_of_two_outside_the_set() {
    assert_eq!(
        BlockSize::from_samples(128),
        Err(Error::InvalidBlockSize { samples: 128 }),
    );
    assert_eq!(
        BlockSize::from_samples(8192),
        Err(Error::InvalidBlockSize { samples: 8192 }),
    );
}

#[test]
fn from_samples_rejects_non_power_of_two() {
    assert_eq!(
        BlockSize::from_samples(1000),
        Err(Error::InvalidBlockSize { samples: 1000 }),
    );
}

#[test]
fn from_samples_rejects_zero() {
    assert_eq!(
        BlockSize::from_samples(0),
        Err(Error::InvalidBlockSize { samples: 0 }),
    );
}

#[test]
fn from_log2_accepts_every_patent_exponent() {
    for b in BlockSize::ALL {
        assert_eq!(BlockSize::from_log2(b.log2_samples()), Ok(b));
    }
}

#[test]
fn from_log2_rejects_exponent_below_set() {
    assert_eq!(
        BlockSize::from_log2(7),
        Err(Error::InvalidBlockSize { samples: 128 }),
    );
}

#[test]
fn from_log2_rejects_exponent_above_set() {
    assert_eq!(
        BlockSize::from_log2(13),
        Err(Error::InvalidBlockSize { samples: 8192 }),
    );
}

#[test]
fn from_log2_saturates_on_huge_exponents() {
    assert_eq!(
        BlockSize::from_log2(64),
        Err(Error::InvalidBlockSize { samples: u16::MAX }),
    );
}

#[test]
fn is_shortest_only_for_s256() {
    for b in BlockSize::ALL {
        assert_eq!(b.is_shortest(), b == BlockSize::S256, "{b:?}");
    }
}

#[test]
fn is_longest_only_for_s4096() {
    for b in BlockSize::ALL {
        assert_eq!(b.is_longest(), b == BlockSize::S4096, "{b:?}");
    }
}

#[test]
fn header_long_block_frame_lengths_are_patent_subset() {

    let cases = [
        (Version::V1, 11_025u32, BlockSize::S512),
        (Version::V1, 22_050, BlockSize::S1024),
        (Version::V1, 44_100, BlockSize::S2048),
        (Version::V2, 22_050, BlockSize::S1024),
        (Version::V2, 48_000, BlockSize::S2048),
    ];

    for (v, sr, want) in cases {
        let extra_len = v.extradata_len();
        let h = WmaHeader::parse(v, sr, 1, 32_000, 0, &vec![0u8; extra_len]).unwrap();
        let got = BlockSize::from_samples(h.frame_length).unwrap();
        assert_eq!(got, want, "version={v:?} sr={sr}");
    }
}

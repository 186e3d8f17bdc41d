use oxideav_wma::header::normalize_sample_rate_v2;
use oxideav_wma::{Error, Version, WmaHeader};

#[test]
fn version_extradata_lengths() {
    assert_eq!(Version::V1.extradata_len(), 4);
    assert_eq!(Version::V2.extradata_len(), 6);
}

#[test]
fn version_from_codec_id_recognises_wma_v1_v2() {
    assert_eq!(Version::from_codec_id(0x160), Some(Version::V1));
    assert_eq!(Version::from_codec_id(0x161), Some(Version::V2));
    assert_eq!(Version::from_codec_id(0x162), None);
    assert_eq!(Version::from_codec_id(0x000), None);
}

#[test]
fn parse_rejects_short_v1_extradata() {
    let err = WmaHeader::parse(Version::V1, 44_100, 2, 128_000, 0, &[0; 3]).unwrap_err();
    assert_eq!(
        err,
        Error::ExtradataTooShort {
            expected: 4,
            got: 3
        }
    );
}

#[test]
fn parse_rejects_short_v2_extradata() {
    let err = WmaHeader::parse(Version::V2, 44_100, 2, 128_000, 0, &[0; 5]).unwrap_err();
    assert_eq!(
        err,
        Error::ExtradataTooShort {
            expected: 6,
            got: 5
        }
    );
}

#[test]
fn parse_rejects_zero_sample_rate() {
    let err = WmaHeader::parse(Version::V1, 0, 2, 128_000, 0, &[0; 4]).unwrap_err();
    assert_eq!(
        err,
        Error::InvalidContainerField {
            field: "sample_rate",
        }
    );
}

#[test]
fn parse_v1_extradata_little_endian() {
    let extradata = [0x34, 0x12, 0x78, 0x56];
    let h = WmaHeader::parse(Version::V1, 44_100, 2, 128_000, 512, &extradata).unwrap();
    assert_eq!(h.version, Version::V1);
    assert_eq!(h.flags1, 0x0000_1234);
    assert_eq!(h.flags2, 0x5678);
    assert_eq!(h.sample_rate, 44_100);
    assert_eq!(h.channels, 2);
    assert_eq!(h.bit_rate, 128_000);
    assert_eq!(h.block_align, 512);
}

#[test]
fn parse_v2_extradata_little_endian() {
    let extradata = [0xEF, 0xBE, 0xAD, 0xDE, 0xFE, 0xCA];
    let h = WmaHeader::parse(Version::V2, 44_100, 2, 192_000, 1024, &extradata).unwrap();
    assert_eq!(h.version, Version::V2);
    assert_eq!(h.flags1, 0xDEAD_BEEF);
    assert_eq!(h.flags2, 0xCAFE);
}

#[test]
fn flags2_bit0_is_exp_vlc() {
    let h = WmaHeader::parse(Version::V1, 44_100, 2, 128_000, 0, &[0, 0, 0b01, 0]).unwrap();
    assert!(h.exp_vlc);
    assert!(!h.bit_reservoir);
    assert!(!h.variable_block_length);
}

#[test]
fn flags2_bit1_is_bit_reservoir() {
    let h = WmaHeader::parse(Version::V1, 44_100, 2, 128_000, 0, &[0, 0, 0b10, 0]).unwrap();
    assert!(!h.exp_vlc);
    assert!(h.bit_reservoir);
    assert!(!h.variable_block_length);
}

#[test]
fn flags2_bit2_is_variable_block_length() {
    let h = WmaHeader::parse(Version::V1, 44_100, 2, 128_000, 0, &[0, 0, 0b100, 0]).unwrap();
    assert!(!h.exp_vlc);
    assert!(!h.bit_reservoir);
    assert!(h.variable_block_length);
}

#[test]
fn flags2_all_three_bits_set_simultaneously() {
    let h = WmaHeader::parse(Version::V1, 44_100, 2, 128_000, 0, &[0, 0, 0b111, 0]).unwrap();
    assert!(h.exp_vlc);
    assert!(h.bit_reservoir);
    assert!(h.variable_block_length);
}

#[test]
fn frame_length_branch_low_rate_v2() {
    let h = WmaHeader::parse(Version::V2, 16_000, 1, 32_000, 0, &[0; 6]).unwrap();
    assert_eq!(h.frame_length_bits, 9);
    assert_eq!(h.frame_length, 512);
}

#[test]
fn frame_length_branch_low_rate_v1() {
    let h = WmaHeader::parse(Version::V1, 11_025, 1, 32_000, 0, &[0; 4]).unwrap();
    assert_eq!(h.frame_length_bits, 9);
    assert_eq!(h.frame_length, 512);
}

#[test]
fn frame_length_branch_mid_rate_v2_22050() {
    let h = WmaHeader::parse(Version::V2, 22_050, 1, 64_000, 0, &[0; 6]).unwrap();
    assert_eq!(h.sample_rate, 22_050);
    assert_eq!(h.frame_length_bits, 10);
    assert_eq!(h.frame_length, 1024);
}

#[test]
fn frame_length_branch_v1_32000_special_case() {
    let h = WmaHeader::parse(Version::V1, 32_000, 2, 96_000, 0, &[0; 4]).unwrap();
    assert_eq!(h.frame_length_bits, 10);
    assert_eq!(h.frame_length, 1024);
}

#[test]
fn frame_length_branch_v2_32000_falls_through() {
    let h = WmaHeader::parse(Version::V2, 32_000, 2, 96_000, 0, &[0; 6]).unwrap();
    assert_eq!(h.sample_rate, 22_050);
    assert_eq!(h.frame_length_bits, 10);
    assert_eq!(h.frame_length, 1024);
}

#[test]
fn frame_length_branch_high_rate_v1() {
    let h = WmaHeader::parse(Version::V1, 44_100, 2, 128_000, 0, &[0; 4]).unwrap();
    assert_eq!(h.frame_length_bits, 11);
    assert_eq!(h.frame_length, 2048);
}

#[test]
fn frame_length_branch_high_rate_v2_48k_snaps_to_44k() {
    let h = WmaHeader::parse(Version::V2, 48_000, 2, 192_000, 0, &[0; 6]).unwrap();
    assert_eq!(h.sample_rate, 44_100);
    assert_eq!(h.frame_length_bits, 11);
    assert_eq!(h.frame_length, 2048);
}

#[test]
fn normalize_v2_at_and_above_44100_snaps_to_44100() {
    assert_eq!(normalize_sample_rate_v2(44_100), 44_100);
    assert_eq!(normalize_sample_rate_v2(48_000), 44_100);
    assert_eq!(normalize_sample_rate_v2(96_000), 44_100);
}

#[test]
fn normalize_v2_under_the_lowest_cutoff_passes_through() {
    assert_eq!(normalize_sample_rate_v2(7_999), 7_999);
    assert_eq!(normalize_sample_rate_v2(1), 1);
}

#[test]
fn frame_length_is_power_of_two_of_bits() {
    for (sr, want_bits, want_len) in [
        (8_000u32, 9u8, 512u16),
        (16_000, 9, 512),
        (22_050, 10, 1024),
        (44_100, 11, 2048),
    ] {
        let h = WmaHeader::parse(Version::V1, sr, 1, 32_000, 0, &[0; 4]).unwrap();
        assert_eq!(h.frame_length_bits, want_bits, "sr={sr}");
        assert_eq!(h.frame_length, want_len, "sr={sr}");
        assert_eq!(1u16 << h.frame_length_bits, h.frame_length);
    }
}

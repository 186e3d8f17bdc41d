//! The stages around the numeric core: framing, weights, assembly, frames.
use oxideav_wma::analysis::{Analysis, InvalidSampleLen, MismatchedBlockSize};
use oxideav_wma::binary64::Binary64;
use oxideav_wma::channel_decision::{
    check_lengths, ChannelMode, InvalidStereoAnalysis, OpenLoopDecision,
};
use oxideav_wma::decode::{AssemblyError, ChannelDecoder, DecodeError, Stage};
use oxideav_wma::dequant::{DequantStage, InvalidDequant, ScaledTerm};
use oxideav_wma::encode::{
    ChannelEncoder, EncodeAssemblyError, EncodeError, EncodeStage, EncodedBlock,
};
use oxideav_wma::entropy_mode::Partition;
use oxideav_wma::frame::{BlockParams, FrameAssembly, StereoBlockParams};
use oxideav_wma::frame_encode::{
    FrameEncodeError, FrameEncoder, InvalidFrameLen, StereoFrameEncodeError, StereoFrameEncoder,
};
use oxideav_wma::gain_ladder::{band_weights, gain, gain_ratio, GainLadderError, STEP_COUNT};
use oxideav_wma::qband::{InvalidBand, QuantBand, QuantBandLayout};
use oxideav_wma::runlevel::RunLevelPair;
use oxideav_wma::BlockSize;

const BS: BlockSize = BlockSize::S256;
const M: usize = 256;

fn b(x: f64) -> Binary64 {
    Binary64::from_bits(x.to_bits())
}

fn all(x: f64, n: usize) -> Vec<Binary64> {
    vec![b(x); n]
}

fn pseudo_random(len: usize, seed: u64) -> Vec<Binary64> {
    let mut state = seed.wrapping_mul(0x9E3779B97F4A7C15).wrapping_add(1);
    (0..len)
        .map(|_| {
            state = state
                .wrapping_mul(6364136223846793005)
                .wrapping_add(1442695040888963407);
            b(((state >> 11) as f64 / (1u64 << 53) as f64) * 2.0 - 1.0)
        })
        .collect()
}

fn stage(bs: BlockSize) -> Analysis {
    Analysis::new(bs, bs).unwrap()
}

fn single_band_layout(block: BlockSize, weight_index: u16) -> QuantBandLayout {
    let m = block.samples();
    QuantBandLayout::for_block(vec![QuantBand::new(0, m, weight_index).unwrap()], block).unwrap()
}

fn channel_encoder() -> ChannelEncoder {
    let partition = Partition::new(M as u32, M as u32, false).unwrap();
    ChannelEncoder::new(stage(BS), M, partition).unwrap()
}

// Framing.

#[test]
fn new_accepts_matching_block_size() {
    let a = stage(BlockSize::S256);
    assert_eq!(a.block_size(), BlockSize::S256);
    assert_eq!(a.block_len(), 256);
    assert_eq!(a.prev().len(), 256);
    assert!(a.prev().iter().all(|&x| x == b(0.0)));
}

#[test]
fn new_rejects_mismatched_window_pair() {
    let err = Analysis::new(BlockSize::S256, BlockSize::S512).unwrap_err();
    assert_eq!(err.stage, BlockSize::S256);
    assert_eq!(err.window_pair, BlockSize::S512);
    assert_eq!(
        err,
        MismatchedBlockSize {
            stage: BlockSize::S256,
            window_pair: BlockSize::S512,
        }
    );
}

#[test]
fn analysis_block_rejects_wrong_sample_len() {
    let mut a = stage(BlockSize::S256);
    let err = a.block(&all(0.0, 255)).unwrap_err();
    assert_eq!(err.expected, 256);
    assert_eq!(err.got, 255);
    assert!(a.prev().iter().all(|&x| x == b(0.0)));
}

#[test]
fn block_frames_previous_then_fresh() {
    let mut a = stage(BlockSize::S256);
    let x = pseudo_random(512, 7);
    let f0 = a.block(&x[..256]).unwrap();
    assert_eq!(f0[..256], all(0.0, 256)[..]);
    assert_eq!(f0[256..], x[..256]);
    assert_eq!(a.prev(), &x[..256]);
    let f1 = a.block(&x[256..]).unwrap();
    assert_eq!(f1, x);
}

#[test]
fn flush_frames_the_last_block_and_zeros() {
    let mut a = stage(BlockSize::S256);
    let x = pseudo_random(256, 3);
    let _ = a.block(&x).unwrap();
    let f = a.flush();
    assert_eq!(f[..256], x[..]);
    assert_eq!(f[256..], all(0.0, 256)[..]);
    assert!(a.prev().iter().all(|&s| s == b(0.0)));
}

#[test]
fn reset_clears_buffer() {
    let mut a = stage(BlockSize::S256);
    let _ = a.block(&all(0.5, 256)).unwrap();
    assert!(a.prev().iter().any(|&s| s != b(0.0)));
    a.reset();
    assert!(a.prev().iter().all(|&s| s == b(0.0)));
    let mut fresh = stage(BlockSize::S256);
    let x = pseudo_random(256, 11);
    assert_eq!(a.block(&x).unwrap(), fresh.block(&x).unwrap());
}

#[test]
fn error_display_is_descriptive() {
    let e = InvalidSampleLen {
        expected: 256,
        got: 255,
    };
    let s = e.message();
    assert!(s.contains("256"));
    assert!(s.contains("255"));
    assert_eq!(s, "analysis block expected 256 samples, got 255");
}

// Band layouts.

#[test]
fn bands_and_layouts_are_checked() {
    assert_eq!(QuantBand::new(0, 0, 0), Err(InvalidBand::Empty));
    assert_eq!(QuantBand::new(65_000, 1_000, 0), Err(InvalidBand::TooFar));
    let first = QuantBand::new(0, 4, 0).unwrap();
    let second = QuantBand::new(4, 4, 1).unwrap();
    assert_eq!(
        QuantBandLayout::new(vec![second, first], 8),
        Err(InvalidBand::Gap { band: 0 })
    );
    assert_eq!(
        QuantBandLayout::new(vec![first, second], 9),
        Err(InvalidBand::WrongTotal {
            covered: 8,
            total: 9
        })
    );
    let layout = QuantBandLayout::new(vec![first, second], 8).unwrap();
    assert_eq!(layout.band_map(), vec![0, 0, 0, 0, 1, 1, 1, 1]);
    assert_eq!(second.end(), 8);
}

// Weights.

#[test]
fn new_accepts_single_band_layout_for_every_block_size() {
    for bs in BlockSize::ALL {
        let layout = single_band_layout(bs, 0);
        let stage = DequantStage::new(bs, &layout, 1).unwrap();
        assert_eq!(stage.block_size(), bs);
        assert_eq!(stage.block_len(), bs.samples() as usize);
        assert_eq!(stage.band_map().len(), bs.samples() as usize);
    }
}

#[test]
fn new_rejects_block_size_layout_mismatch() {
    let layout = single_band_layout(BlockSize::S256, 0);
    let err = DequantStage::new(BlockSize::S512, &layout, 1).unwrap_err();
    assert_eq!(
        err,
        InvalidDequant::BlockSizeMismatch {
            block_size: BlockSize::S512.samples() as usize,
            layout_total: BlockSize::S256.samples() as usize,
        }
    );
}

#[test]
fn new_rejects_weight_index_out_of_range() {
    let bs = BlockSize::S256;
    let layout = single_band_layout(bs, 2);
    let err = DequantStage::new(bs, &layout, 2).unwrap_err();
    assert_eq!(
        err,
        InvalidDequant::WeightIndexOutOfRange {
            weight_index: 2,
            weights_len: 2,
        }
    );
}

#[test]
fn new_rejects_empty_weights_for_nonempty_layout() {
    let bs = BlockSize::S256;
    let layout = single_band_layout(bs, 0);
    let err = DequantStage::new(bs, &layout, 0).unwrap_err();
    assert_eq!(
        err,
        InvalidDequant::WeightIndexOutOfRange {
            weight_index: 0,
            weights_len: 0,
        }
    );
}

#[test]
fn block_pairs_each_integer_with_its_weight() {
    let bs = BlockSize::S256;
    let half = bs.samples() / 2;
    let layout = QuantBandLayout::for_block(
        vec![
            QuantBand::new(0, half, 0).unwrap(),
            QuantBand::new(half, half, 1).unwrap(),
        ],
        bs,
    )
    .unwrap();
    let stage = DequantStage::new(bs, &layout, 2).unwrap();
    assert_eq!(stage.band_map()[0], 0);
    assert_eq!(stage.band_map()[(half as usize) - 1], 0);
    assert_eq!(stage.band_map()[half as usize], 1);
    let mut q = vec![0_i32; 256];
    q[1] = -4;
    q[255] = 7;
    let terms = stage.block(&q).unwrap();
    assert_eq!(terms.len(), 256);
    assert_eq!(terms[1], ScaledTerm { q: -4, slot: 0 });
    assert_eq!(terms[255], ScaledTerm { q: 7, slot: 1 });
}

#[test]
fn block_rejects_wrong_coefficient_count() {
    let bs = BlockSize::S256;
    let layout = single_band_layout(bs, 0);
    let stage = DequantStage::new(bs, &layout, 1).unwrap();
    let m = bs.samples() as usize;
    for got in [m - 1, m + 1, 0] {
        let err = stage.block(&vec![0; got]).unwrap_err();
        assert_eq!(err, InvalidDequant::CoeffLenMismatch { expected: m, got });
    }
}

#[test]
fn error_display_names_each_variant() {
    let s = InvalidDequant::BlockSizeMismatch {
        block_size: 256,
        layout_total: 128,
    }
    .message();
    assert!(s.contains("256"));
    assert!(s.contains("128"));
    assert!(s.contains("block size"));

    let s = InvalidDequant::WeightIndexOutOfRange {
        weight_index: 9,
        weights_len: 4,
    }
    .message();
    assert!(s.contains("weight index 9"));
    assert!(s.contains("4"));

    let s = InvalidDequant::CoeffLenMismatch {
        expected: 256,
        got: 7,
    }
    .message();
    assert!(s.contains("256"));
    assert!(s.contains("7"));
}

// The decoder chain.

fn decoder(spectral: u32, bs: BlockSize, synthesis: BlockSize) -> Result<ChannelDecoder, AssemblyError> {
    let layout = single_band_layout(bs, 0);
    let dequant = DequantStage::new(bs, &layout, 1).unwrap();
    ChannelDecoder::new(
        Partition::new(spectral, 0, false).unwrap(),
        dequant,
        layout,
        synthesis,
    )
}

#[test]
fn new_accepts_consistent_stages_and_accessors_agree() {
    let bs = BlockSize::from_samples(256).unwrap();
    let dec = decoder(256, bs, bs).unwrap();
    assert_eq!(dec.block_size(), bs);
    assert_eq!(dec.block_len(), 256);
    assert_eq!(dec.spectral().total_coeffs, 256);
    assert_eq!(dec.dequant().block_len(), 256);
    assert_eq!(dec.noise().total_coeffs(), 256);
}

#[test]
fn new_rejects_spectral_dequant_mismatch() {
    let bs = BlockSize::from_samples(256).unwrap();
    let err = decoder(512, bs, bs).unwrap_err();
    assert_eq!(
        err,
        AssemblyError::CoeffCountMismatch {
            stage_a: Stage::Spectral,
            count_a: 512,
            stage_b: Stage::Dequant,
            count_b: 256,
        }
    );
}

#[test]
fn new_rejects_dequant_noise_mismatch() {
    let dequant = DequantStage::new(BS, &single_band_layout(BS, 0), 1).unwrap();
    let err = ChannelDecoder::new(
        Partition::new(256, 0, false).unwrap(),
        dequant,
        single_band_layout(BlockSize::S512, 0),
        BS,
    )
    .unwrap_err();
    assert_eq!(
        err,
        AssemblyError::CoeffCountMismatch {
            stage_a: Stage::Dequant,
            count_a: 256,
            stage_b: Stage::NoiseFill,
            count_b: 512,
        }
    );
}

#[test]
fn new_rejects_noise_synthesis_mismatch() {
    let small = BlockSize::from_samples(256).unwrap();
    let big = BlockSize::from_samples(512).unwrap();
    let err = decoder(256, small, big).unwrap_err();
    assert_eq!(
        err,
        AssemblyError::CoeffCountMismatch {
            stage_a: Stage::NoiseFill,
            count_a: 256,
            stage_b: Stage::Synthesis,
            count_b: 512,
        }
    );
}

#[test]
fn assembly_error_display_names_both_stages() {
    let e = AssemblyError::CoeffCountMismatch {
        stage_a: Stage::Spectral,
        count_a: 512,
        stage_b: Stage::Dequant,
        count_b: 256,
    };
    let s = e.message();
    assert!(s.contains("entropy decode"));
    assert!(s.contains("inverse quantize"));
    assert!(s.contains("512") && s.contains("256"));
}

#[test]
fn decode_error_display_and_source() {
    let e = DecodeError::Spectral(String::from("expected 3 levels, got 2"));
    assert!(e.message().contains("entropy decode failed"));
    let e = DecodeError::Dequant(InvalidDequant::CoeffLenMismatch {
        expected: 4,
        got: 3,
    });
    assert_eq!(
        e.message(),
        "oxideav-wma::decode: inverse quantize failed: dequant stage block expected 4 coefficients, got 3"
    );
    assert!(DecodeError::NoiseFill(String::from("x"))
        .message()
        .ends_with("noise fill failed: x"));
    assert!(DecodeError::Synthesis(String::from("y"))
        .message()
        .ends_with("synthesis failed: y"));
}

#[test]
fn stage_display_covers_all_four() {
    for st in [
        Stage::Spectral,
        Stage::Dequant,
        Stage::NoiseFill,
        Stage::Synthesis,
    ] {
        assert!(!st.name().is_empty());
    }
}

// The encoder chain.

#[test]
fn new_accepts_agreeing_stages() {
    let enc = channel_encoder();
    assert_eq!(enc.block_len(), 256);
    assert_eq!(enc.block_size(), BS);
    assert_eq!(enc.analysis().block_len(), 256);
    assert_eq!(enc.spectral().total_coeffs, 256);
}

#[test]
fn new_rejects_analysis_quant_mismatch() {
    let partition = Partition::new(256, 256, false).unwrap();
    let err = ChannelEncoder::new(stage(BlockSize::S512), 256, partition).unwrap_err();
    assert_eq!(
        err,
        EncodeAssemblyError::CoeffCountMismatch {
            stage_a: EncodeStage::Analysis,
            count_a: 512,
            stage_b: EncodeStage::Quant,
            count_b: 256,
        }
    );
}

#[test]
fn new_rejects_quant_spectral_mismatch() {
    let partition = Partition::new(512, 512, false).unwrap();
    let err = ChannelEncoder::new(stage(BlockSize::S256), 256, partition).unwrap_err();
    assert_eq!(
        err,
        EncodeAssemblyError::CoeffCountMismatch {
            stage_a: EncodeStage::Quant,
            count_a: 256,
            stage_b: EncodeStage::Spectral,
            count_b: 512,
        }
    );
}

#[test]
fn encode_block_rejects_wrong_sample_len() {
    let mut enc = channel_encoder();
    let err = enc.block(&all(0.0, 255)).unwrap_err();
    assert_eq!(
        err,
        EncodeError::Analysis(InvalidSampleLen {
            expected: 256,
            got: 255,
        })
    );
}

#[test]
fn flush_matches_zero_block_encode() {
    let mut a = channel_encoder();
    let mut c = channel_encoder();
    let x = pseudo_random(256, 51);
    let _ = a.block(&x).unwrap();
    let _ = c.block(&x).unwrap();
    let via_flush = a.flush();
    let via_zero = c.block(&all(0.0, 256)).unwrap();
    assert_eq!(via_flush, via_zero);
}

#[test]
fn reset_restores_fresh_behaviour() {
    let mut used = channel_encoder();
    let mut fresh = channel_encoder();
    let x = pseudo_random(256, 52);
    let _ = used.block(&pseudo_random(256, 53)).unwrap();
    used.reset();
    assert_eq!(used.block(&x).unwrap(), fresh.block(&x).unwrap());
}

#[test]
fn into_block_params_carries_symbols_and_empty_patterns() {
    let eb = EncodedBlock {
        levels: vec![1, -2, 3],
        pairs: vec![RunLevelPair::new(1, 4).unwrap()],
    };
    let bp = eb.clone().into_block_params(3);
    assert_eq!(bp.levels, eb.levels);
    assert_eq!(bp.pairs, eb.pairs);
    assert_eq!(bp.patterns.len(), 3);
    assert!(bp.patterns.iter().all(|p| p.is_empty()));
}

#[test]
fn error_displays_name_stages() {
    let e = EncodeAssemblyError::CoeffCountMismatch {
        stage_a: EncodeStage::Analysis,
        count_a: 512,
        stage_b: EncodeStage::Quant,
        count_b: 256,
    };
    let s = e.message();
    assert!(s.contains("analysis"));
    assert!(s.contains("quant"));

    let e = EncodeError::Analysis(InvalidSampleLen {
        expected: 256,
        got: 255,
    });
    assert!(e.message().contains("analysis stage"));
    assert!(EncodeError::Quant(String::from("q"))
        .message()
        .ends_with("quant stage: q"));
    assert!(EncodeError::Spectral(String::from("s"))
        .message()
        .ends_with("spectral stage: s"));
}

// Frames.

#[test]
fn block_params_new_round_trips_fields() {
    let p = BlockParams::new(vec![1, 2, 3], Vec::new(), vec![vec![b(0.5)]]);
    assert_eq!(p.levels, vec![1, 2, 3]);
    assert!(p.pairs.is_empty());
    assert_eq!(p.patterns, vec![vec![b(0.5)]]);
}

#[test]
fn block_params_default_is_empty() {
    let p = BlockParams::default();
    assert!(p.levels.is_empty());
    assert!(p.pairs.is_empty());
    assert!(p.patterns.is_empty());
}

#[test]
fn stereo_block_params_round_trip() {
    let ch = |fill: i32| BlockParams::new(vec![fill; 256], Vec::new(), vec![Vec::new()]);
    let p = StereoBlockParams::new(ch(1), ch(2), ChannelMode::Independent);
    assert_eq!(p.ch0.levels, vec![1; 256]);
    assert_eq!(p.ch1.levels, vec![2; 256]);
    assert_eq!(p.mode, ChannelMode::Independent);
}

#[test]
fn frame_assembly_joins_blocks_in_order() {
    let x = pseudo_random(6, 9);
    let mut whole = FrameAssembly::new();
    whole.push(&x[..2]);
    whole.push(&x[2..2]);
    whole.push(&x[2..]);
    assert_eq!(whole.finish(), x);
    assert!(FrameAssembly::new().finish().is_empty());
}

#[test]
fn mono_accessors_and_empty_frame() {
    let mut fe = FrameEncoder::new(channel_encoder());
    assert_eq!(fe.block_len(), M);
    assert_eq!(fe.encoder().block_len(), M);
    assert!(fe.encode_frame(&[]).unwrap().is_empty());
}

#[test]
fn mono_rejects_unaligned_frame_without_advancing() {
    let mut fe = FrameEncoder::new(channel_encoder());
    let err = fe.encode_frame(&all(0.0, M + 1)).unwrap_err();
    assert_eq!(
        err,
        FrameEncodeError::FrameLen(InvalidFrameLen::NotBlockAligned {
            block_len: M,
            got: M + 1,
        })
    );
    assert!(fe.encoder().analysis().prev().iter().all(|&s| s == b(0.0)));
}

#[test]
fn mono_frame_equals_manual_block_loop() {
    let x = pseudo_random(3 * M, 101);
    let mut fe = FrameEncoder::new(channel_encoder());
    let via_frame = fe.encode_frame(&x).unwrap();

    let mut enc = channel_encoder();
    for (t, block) in via_frame.iter().enumerate() {
        let manual = enc.block(&x[t * M..(t + 1) * M]).unwrap();
        assert_eq!(*block, manual, "t={t}");
    }
    assert_eq!(via_frame.len(), 3);
}

#[test]
fn mono_two_frames_equal_one_concatenated_frame() {
    let x = pseudo_random(4 * M, 102);
    let mut split_enc = FrameEncoder::new(channel_encoder());
    let mut a = split_enc.encode_frame(&x[..2 * M]).unwrap();
    a.extend(split_enc.encode_frame(&x[2 * M..]).unwrap());

    let mut whole_enc = FrameEncoder::new(channel_encoder());
    let c = whole_enc.encode_frame(&x).unwrap();
    assert_eq!(a, c);
}

#[test]
fn mono_reset_restores_fresh_behaviour() {
    let x = pseudo_random(M, 104);
    let mut used = FrameEncoder::new(channel_encoder());
    let _ = used.encode_frame(&pseudo_random(M, 105)).unwrap();
    used.reset();
    let mut fresh = FrameEncoder::new(channel_encoder());
    assert_eq!(
        used.encode_frame(&x).unwrap(),
        fresh.encode_frame(&x).unwrap()
    );
    let tail = used.flush();
    assert_eq!(tail[..M], x[..]);
    assert_eq!(tail[M..], all(0.0, M)[..]);
}

#[test]
fn stereo_rejects_channel_len_mismatch() {
    let fe = StereoFrameEncoder::new(BS);
    let err = fe
        .encode_frame(&all(0.0, M), &all(0.0, 2 * M), &[ChannelMode::Independent])
        .unwrap_err();
    assert_eq!(
        err,
        StereoFrameEncodeError::FrameLen(InvalidFrameLen::ChannelLenMismatch {
            left: M,
            right: 2 * M,
        })
    );
}

#[test]
fn stereo_rejects_mode_count_mismatch() {
    let fe = StereoFrameEncoder::new(BS);
    let err = fe
        .encode_frame(
            &all(0.0, 2 * M),
            &all(0.0, 2 * M),
            &[ChannelMode::Independent],
        )
        .unwrap_err();
    assert_eq!(
        err,
        StereoFrameEncodeError::FrameLen(InvalidFrameLen::ModeCountMismatch {
            expected_blocks: 2,
            got_modes: 1,
        })
    );
}

#[test]
fn stereo_rejects_unaligned_frame() {
    let fe = StereoFrameEncoder::new(BS);
    let err = fe
        .encode_frame(&all(0.0, M - 1), &all(0.0, M - 1), &[])
        .unwrap_err();
    assert_eq!(
        err,
        StereoFrameEncodeError::FrameLen(InvalidFrameLen::NotBlockAligned {
            block_len: M,
            got: M - 1,
        })
    );
}

#[test]
fn stereo_frame_cuts_both_channels_with_their_modes() {
    let l = pseudo_random(2 * M, 106);
    let r = pseudo_random(2 * M, 107);
    let modes = [ChannelMode::Independent, ChannelMode::SumDifference];
    let fe = StereoFrameEncoder::new(BS);
    assert_eq!(fe.block_len(), M);
    let blocks = fe.encode_frame(&l, &r, &modes).unwrap();
    assert_eq!(blocks.len(), 2);
    for (t, block) in blocks.iter().enumerate() {
        assert_eq!(block.left[..], l[t * M..(t + 1) * M]);
        assert_eq!(block.right[..], r[t * M..(t + 1) * M]);
        assert_eq!(block.mode, modes[t]);
    }
    assert!(fe.encode_frame(&[], &[], &[]).unwrap().is_empty());
}

#[test]
fn error_displays_and_sources() {
    let e = FrameEncodeError::FrameLen(InvalidFrameLen::NotBlockAligned {
        block_len: 256,
        got: 257,
    });
    assert!(e.message().contains("257"));

    let e = StereoFrameEncodeError::FrameLen(InvalidFrameLen::ChannelLenMismatch {
        left: 1,
        right: 2,
    });
    assert!(e.message().contains("disagree"));
    assert_eq!(
        InvalidFrameLen::ModeCountMismatch {
            expected_blocks: 2,
            got_modes: 1
        }
        .message(),
        "oxideav-wma::frame_encode: stereo frame has 2 blocks but 1 channel-mode entries"
    );
    assert_eq!(
        StereoFrameEncodeError::Block(String::from("left channel")).message(),
        "oxideav-wma::frame_encode: left channel"
    );
    let e = FrameEncodeError::Block(EncodeError::Quant(String::from("q")));
    assert_eq!(
        e.message(),
        "oxideav-wma::frame_encode: oxideav-wma::encode: quant stage: q"
    );
}

// The gain ladder.

/// A stand-in ladder, computed with the ends and the step that the tests pin: the tests are of
/// the lookups, and of nothing of any ladder in use.
fn ladder() -> [u32; STEP_COUNT] {
    let mut steps = [0u32; STEP_COUNT];
    for (i, step) in steps.iter_mut().enumerate() {
        let g = 0.575_837_5 * 10f64.powf(i as f64 / 16.0);
        *step = (g.round() as u32).max(1);
    }
    steps
}

#[test]
fn raw_lookups_match_the_staged_table() {
    assert_eq!(STEP_COUNT, 113);
    assert_eq!(gain(&ladder(), 0), Some(1));
    assert_eq!(gain(&ladder(), 112), Some(5_758_375));
    assert_eq!(gain(&ladder(), 113), None);
}

#[test]
fn sixteen_steps_are_one_decade() {
    let ratio = |a: usize, c: usize| -> f64 {
        let (over, under) = gain_ratio(&ladder(), a, c).unwrap();
        f64::from(over) / f64::from(under)
    };
    for a in (46..96).step_by(7) {
        let r = ratio(a + 16, a);
        assert!((r - 10.0).abs() < 0.01, "index {a}: decade ratio {r}");
    }
    for a in 60..80 {
        let db = 20.0 * ratio(a + 1, a).log10();
        assert!((db - 1.25).abs() < 0.01, "index {a}: {db} dB");
    }
}

#[test]
fn out_of_range_and_empty_are_typed_errors() {
    assert_eq!(
        gain_ratio(&ladder(), 113, 0),
        Err(GainLadderError::IndexOutOfRange { index: 113 })
    );
    assert_eq!(
        gain_ratio(&ladder(), 0, 114),
        Err(GainLadderError::IndexOutOfRange { index: 114 })
    );
    assert_eq!(
        band_weights(&ladder(), &[]),
        Err(GainLadderError::EmptyBands)
    );
    assert_eq!(
        band_weights(&ladder(), &[5, 200]),
        Err(GainLadderError::IndexOutOfRange { index: 200 })
    );
    assert!(GainLadderError::IndexOutOfRange { index: 113 }
        .message()
        .contains("113-step ladder"));
    assert!(GainLadderError::EmptyBands.message().contains("empty"));
}

#[test]
fn band_weights_normalize_to_the_loudest_band() {
    let bands = band_weights(&ladder(), &[96, 80, 64]).unwrap();
    let w: Vec<f64> = bands
        .gains
        .iter()
        .map(|&g| f64::from(g) / f64::from(bands.greatest))
        .collect();
    assert_eq!(w[0], 1.0);
    assert!((w[1] - 0.1).abs() < 1e-3, "{w:?}");
    assert!((w[2] - 0.01).abs() < 1e-4, "{w:?}");
}

// The channel decision.

#[test]
fn mode_all_order_is_independent_first() {
    assert_eq!(
        ChannelMode::ALL,
        [ChannelMode::Independent, ChannelMode::SumDifference]
    );
}

#[test]
fn mode_opposite_is_involutive() {
    for m in ChannelMode::ALL {
        assert_eq!(m.opposite().opposite(), m);
        assert_ne!(m.opposite(), m);
    }
}

#[test]
fn mode_is_joint_only_for_sum_difference() {
    assert!(ChannelMode::SumDifference.is_joint());
    assert!(!ChannelMode::Independent.is_joint());
}

#[test]
fn mode_display_names() {
    assert_eq!(ChannelMode::Independent.name(), "independent");
    assert_eq!(ChannelMode::SumDifference.name(), "sum/difference");
}

#[test]
fn decide_joint_when_both_criteria_favourable() {
    let dec = OpenLoopDecision::new(b(0.2), b(0.3));
    assert_eq!(dec.decide(b(0.1), b(0.1)), ChannelMode::SumDifference);
    assert_eq!(dec.decide(b(0.2), b(0.3)), ChannelMode::SumDifference);
}

#[test]
fn decide_independent_when_energy_criterion_fails() {
    let dec = OpenLoopDecision::new(b(0.2), b(0.3));
    assert_eq!(dec.decide(b(0.5), b(0.1)), ChannelMode::Independent);
}

#[test]
fn decide_independent_when_excitation_criterion_fails() {
    let dec = OpenLoopDecision::new(b(0.2), b(0.3));
    assert_eq!(dec.decide(b(0.1), b(0.9)), ChannelMode::Independent);
}

#[test]
fn decide_independent_when_both_criteria_fail() {
    let dec = OpenLoopDecision::new(b(0.2), b(0.3));
    assert_eq!(dec.decide(b(0.9), b(0.9)), ChannelMode::Independent);
}

#[test]
fn decide_treats_no_number_as_unfavourable() {
    let dec = OpenLoopDecision::new(b(0.2), b(0.3));
    assert_eq!(dec.decide(b(f64::NAN), b(0.1)), ChannelMode::Independent);
    let dec = OpenLoopDecision::new(b(f64::NAN), b(0.3));
    assert_eq!(dec.decide(b(-1.0), b(0.1)), ChannelMode::Independent);
}

#[test]
fn decision_carrier_fields_round_trip() {
    let dec = OpenLoopDecision::new(b(0.4), b(0.6));
    assert_eq!(dec.max_energy_separation, b(0.4));
    assert_eq!(dec.max_excitation_disparity, b(0.6));
}

#[test]
fn decide_blocks_reports_the_first_failure() {
    let dec = OpenLoopDecision::new(b(0.5), b(0.5));
    let mismatch = InvalidStereoAnalysis::LengthMismatch { left: 4, right: 2 };
    assert_eq!(check_lengths(4, 2), Err(mismatch));
    assert_eq!(check_lengths(4, 4), Ok(()));
    assert_eq!(
        dec.decide_blocks(Err(mismatch), Err(InvalidStereoAnalysis::NoEnergy)),
        Err(mismatch)
    );
    assert_eq!(
        dec.decide_blocks(Ok(b(0.0)), Err(InvalidStereoAnalysis::NoEnergy)),
        Err(InvalidStereoAnalysis::NoEnergy)
    );
    assert_eq!(
        dec.decide_blocks(Ok(b(0.0)), Ok(b(0.0))),
        Ok(ChannelMode::SumDifference)
    );
    assert_eq!(
        dec.decide_blocks(Ok(b(1.0)), Ok(b(0.0))),
        Ok(ChannelMode::Independent)
    );
}

#[test]
fn error_display_names_the_cause() {
    let m = InvalidStereoAnalysis::LengthMismatch { left: 4, right: 2 };
    assert!(m.message().contains("differ in length"));
    let n = InvalidStereoAnalysis::NoEnergy;
    assert!(n.message().contains("zero total energy"));
}

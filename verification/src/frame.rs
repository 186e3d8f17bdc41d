//! What a decoder is handed for each block of a frame.
use crate::binary64::Binary64;
use crate::channel_decision::ChannelMode;
use crate::runlevel::RunLevelPair;
use vstd::prelude::*;

verus! {

/// The symbols and the noise patterns of a block.
#[derive(Debug, Clone, PartialEq, Eq)]
pub struct BlockParams {
    /// Levels of the low coefficients.
    pub levels: Vec<i32>,
    /// Pairs of the high coefficients.
    pub pairs: Vec<RunLevelPair>,
    /// A noise pattern for each band; empty for a band without noise.
    pub patterns: Vec<Vec<Binary64>>,
}

impl BlockParams {
    /// The parameters with the given parts.
    pub fn new(
        levels: Vec<i32>,
        pairs: Vec<RunLevelPair>,
        patterns: Vec<Vec<Binary64>>,
    ) -> (p: Self)
        ensures
            p.levels@ == levels@,
            p.pairs@ == pairs@,
            p.patterns@ == patterns@,
    {
        BlockParams { levels, pairs, patterns }
    }
}

impl Default for BlockParams {
    /// No symbol and no pattern.
    fn default() -> (p: Self)
        ensures
            p.levels@.len() == 0,
            p.pairs@.len() == 0,
            p.patterns@.len() == 0,
    {
        BlockParams { levels: Vec::new(), pairs: Vec::new(), patterns: Vec::new() }
    }
}

/// The parameters of both channels of a block and how the channels are coded.
#[derive(Debug, Clone, PartialEq, Eq)]
pub struct StereoBlockParams {
    /// The first channel; the sum, where the mode is joint.
    pub ch0: BlockParams,
    /// The second channel; the difference, where the mode is joint.
    pub ch1: BlockParams,
    /// How the channels are coded.
    pub mode: ChannelMode,
}

impl StereoBlockParams {
    /// The parameters with the given parts.
    pub fn new(ch0: BlockParams, ch1: BlockParams, mode: ChannelMode) -> (p: Self)
        ensures
            p == (StereoBlockParams { ch0, ch1, mode }),
    {
        StereoBlockParams { ch0, ch1, mode }
    }
}

/// The samples of a frame: those of its blocks, one after another.
pub open spec fn joined(blocks: Seq<Seq<Binary64>>) -> Seq<Binary64>
    decreases blocks.len(),
{
    if blocks.len() == 0 {
        seq![]
    } else {
        joined(blocks.drop_last()) + blocks.last()
    }
}

/// Gathers the samples of a frame's blocks, up to the first block that fails.
#[derive(Debug, Clone, PartialEq, Eq)]
pub struct FrameAssembly {
    pcm: Vec<Binary64>,
}

impl FrameAssembly {
    /// The samples so far.
    pub closed spec fn samples(&self) -> Seq<Binary64> {
        self.pcm@
    }

    /// A frame without blocks.
    pub fn new() -> (frame: Self)
        ensures
            frame.samples() == joined(seq![]),
    {
        FrameAssembly { pcm: Vec::new() }
    }

    /// Append a block's samples.
    pub fn push(&mut self, block: &[Binary64])
        ensures
            final(self).samples() == old(self).samples() + block@,
            forall|blocks: Seq<Seq<Binary64>>|
                old(self).samples() == #[trigger] joined(blocks) ==> final(self).samples()
                    == joined(blocks.push(block@)),
    {
        let mut i: usize = 0;
        while i < block.len()
            invariant
                i <= block@.len(),
                self.pcm@ == old(self).pcm@ + block@.take(i as int),
            decreases block@.len() - i,
        {
            self.pcm.push(block[i]);
            assert(block@.take(i as int).push(block@[i as int]) =~= block@.take(i + 1));
            i = i + 1;
        }
        assert(block@.take(i as int) =~= block@);
        proof {
            assert forall|blocks: Seq<Seq<Binary64>>|
                old(self).samples() == #[trigger] joined(blocks) implies self.samples() == joined(
                blocks.push(block@),
            ) by {
                assert(blocks.push(block@).drop_last() =~= blocks);
            }
        }
    }

    /// The frame's samples.
    pub fn finish(self) -> (pcm: Vec<Binary64>)
        ensures
            pcm@ == self.samples(),
    {
        self.pcm
    }
}

/// Frames of blocks gathered apart are the frame of all the blocks: where a
/// frame ends makes no difference to the samples.
pub proof fn frames_join(a: Seq<Seq<Binary64>>, b: Seq<Seq<Binary64>>)
    ensures
        joined(a + b) == joined(a) + joined(b),
    decreases b.len(),
{
    if b.len() == 0 {
        assert(a + b =~= a);
        assert(joined(a) + joined(b) =~= joined(a));
    } else {
        assert((a + b).drop_last() =~= a + b.drop_last());
        assert((a + b).last() == b.last());
        frames_join(a, b.drop_last());
        assert(joined(a + b) =~= joined(a) + joined(b));
    }
}

} // verus!

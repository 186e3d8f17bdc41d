//! The encoder chain of one channel: its stages, whether they fit together, and
//! the frames that it hands to the transform.
use crate::analysis::{silence, Analysis, InvalidSampleLen};
use crate::binary64::Binary64;
use crate::block::BlockSize;
use crate::entropy_mode::Partition;
use crate::frame::BlockParams;
use crate::runlevel::RunLevelPair;
use crate::text::{append_decimal, decimal};
use vstd::prelude::*;
use vstd::string::*;

verus! {

/// The symbols of a block.
#[derive(Debug, Clone, PartialEq, Eq)]
pub struct EncodedBlock {
    /// Levels of the low coefficients.
    pub levels: Vec<i32>,
    /// Pairs of the high coefficients.
    pub pairs: Vec<RunLevelPair>,
}

impl EncodedBlock {
    /// The parameters that a decoder takes: the symbols, and an empty noise
    /// pattern for each band, for no band is filled with noise.
    pub fn into_block_params(self, band_count: usize) -> (params: BlockParams)
        ensures
            params.levels@ == self.levels@,
            params.pairs@ == self.pairs@,
            params.patterns@.len() == band_count,
            forall|d: int| 0 <= d < band_count ==> (#[trigger] params.patterns@[d])@.len() == 0,
    {
        let mut patterns: Vec<Vec<Binary64>> = Vec::new();
        let mut d: usize = 0;
        while d < band_count
            invariant
                d <= band_count,
                patterns@.len() == d,
                forall|j: int| 0 <= j < d ==> (#[trigger] patterns@[j])@.len() == 0,
            decreases band_count - d,
        {
            patterns.push(Vec::new());
            d = d + 1;
        }
        BlockParams::new(self.levels, self.pairs, patterns)
    }
}

/// A stage of the chain.
#[derive(Debug, Clone, Copy, PartialEq, Eq, Hash, Structural)]
pub enum EncodeStage {
    /// Framing and forward transform.
    Analysis,
    /// Quantization.
    Quant,
    /// Entropy coding.
    Spectral,
}

impl EncodeStage {
    /// What `name` says.
    pub open spec fn text(self) -> Seq<char> {
        match self {
            EncodeStage::Analysis => "analysis"@,
            EncodeStage::Quant => "quant"@,
            EncodeStage::Spectral => "spectral"@,
        }
    }

    /// The stage's name.
    pub fn name(self) -> (s: &'static str)
        ensures
            s@ == self.text(),
    {
        match self {
            EncodeStage::Analysis => "analysis",
            EncodeStage::Quant => "quant",
            EncodeStage::Spectral => "spectral",
        }
    }
}

/// Why the stages do not fit together.
#[derive(Debug, Clone, Copy, PartialEq, Eq, Hash, Structural)]
pub enum EncodeAssemblyError {
    /// Two neighbouring stages differ in the coefficients of a block.
    CoeffCountMismatch {
        /// The earlier stage.
        stage_a: EncodeStage,
        /// Its coefficients.
        count_a: usize,
        /// The later stage.
        stage_b: EncodeStage,
        /// Its coefficients.
        count_b: usize,
    },
}

impl EncodeAssemblyError {
    /// What `message` says.
    pub open spec fn text(self) -> Seq<char> {
        let EncodeAssemblyError::CoeffCountMismatch { stage_a, count_a, stage_b, count_b } = self;
        "oxideav-wma::encode: "@ + stage_a.text() + " stage covers "@ + decimal(count_a as nat)
            + " coefficients but "@ + stage_b.text() + " stage covers "@ + decimal(count_b as nat)
    }

    /// A description for people.
    pub fn message(self) -> (s: String)
        ensures
            s@ == self.text(),
    {
        let EncodeAssemblyError::CoeffCountMismatch { stage_a, count_a, stage_b, count_b } = self;
        let mut s = String::from_str("oxideav-wma::encode: ");
        s.append(stage_a.name());
        s.append(" stage covers ");
        append_decimal(&mut s, count_a as u64);
        s.append(" coefficients but ");
        s.append(stage_b.name());
        s.append(" stage covers ");
        append_decimal(&mut s, count_b as u64);
        s
    }
}

/// Why a block could not be encoded: the stage that refused it, with its own
/// error or, for a stage outside the library, what that stage said.
#[derive(Debug, Clone, PartialEq, Eq)]
pub enum EncodeError {
    /// Framing.
    Analysis(InvalidSampleLen),
    /// Quantization.
    Quant(String),
    /// Entropy coding.
    Spectral(String),
}

impl EncodeError {
    /// What `message` says.
    pub open spec fn text(&self) -> Seq<char> {
        match self {
            EncodeError::Analysis(e) => "oxideav-wma::encode: analysis stage: "@ + e.text(),
            EncodeError::Quant(e) => "oxideav-wma::encode: quant stage: "@ + e@,
            EncodeError::Spectral(e) => "oxideav-wma::encode: spectral stage: "@ + e@,
        }
    }

    /// A description for people.
    pub fn message(&self) -> (s: String)
        ensures
            s@ == self.text(),
    {
        match self {
            EncodeError::Analysis(e) => {
                let mut s = String::from_str("oxideav-wma::encode: analysis stage: ");
                let tail: String = e.message();
                s.append(tail.as_str());
                s
            },
            EncodeError::Quant(e) => {
                let mut s = String::from_str("oxideav-wma::encode: quant stage: ");
                s.append(e.as_str());
                s
            },
            EncodeError::Spectral(e) => {
                let mut s = String::from_str("oxideav-wma::encode: spectral stage: ");
                s.append(e.as_str());
                s
            },
        }
    }
}

/// Stages that fit together: the framing, the coefficients that the quantizer
/// takes, and where the entropy coder changes.
#[derive(Debug, Clone, PartialEq, Eq)]
pub struct ChannelEncoder {
    analysis: Analysis,
    quant: usize,
    spectral: Partition,
}

impl ChannelEncoder {
    /// The framing stage.
    pub closed spec fn framing(&self) -> Analysis {
        self.analysis
    }

    /// The coefficients that the quantizer takes.
    pub closed spec fn quant_len(&self) -> nat {
        self.quant as nat
    }

    /// The partition of the entropy coder.
    pub closed spec fn partition(&self) -> Partition {
        self.spectral
    }

    /// The invariant: all stages have the coefficients of one block.
    pub open spec fn wf(&self) -> bool {
        &&& self.framing().wf()
        &&& self.quant_len() == self.framing().block_of().sample_count()
        &&& self.partition().total_coeffs == self.quant_len()
    }

    /// The chain of three stages. Of the pairs of neighbours that differ in the
    /// coefficients of a block, the first is reported.
    pub fn new(analysis: Analysis, quant_len: usize, spectral: Partition) -> (chain: Result<
        Self,
        EncodeAssemblyError,
    >)
        requires
            analysis.wf(),
        ensures
            match chain {
                Ok(c) => {
                    &&& c.wf()
                    &&& c.framing() == analysis
                    &&& c.quant_len() == quant_len
                    &&& c.partition() == spectral
                },
                Err(EncodeAssemblyError::CoeffCountMismatch {
                    stage_a,
                    count_a,
                    stage_b,
                    count_b,
                }) => {
                    let m = analysis.block_of().sample_count();
                    &&& count_a != count_b
                    &&& match stage_a {
                        EncodeStage::Analysis => {
                            &&& stage_b is Quant
                            &&& count_a == m
                            &&& count_b == quant_len
                        },
                        EncodeStage::Quant => {
                            &&& stage_b is Spectral
                            &&& m == quant_len
                            &&& count_a == quant_len
                            &&& count_b == spectral.total_coeffs
                        },
                        EncodeStage::Spectral => false,
                    }
                },
            },
    {
        let m_analysis: usize = analysis.block_len();
        let m_spectral: usize = spectral.total_coeffs as usize;
        if m_analysis != quant_len {
            return Err(
                EncodeAssemblyError::CoeffCountMismatch {
                    stage_a: EncodeStage::Analysis,
                    count_a: m_analysis,
                    stage_b: EncodeStage::Quant,
                    count_b: quant_len,
                },
            );
        }
        if quant_len != m_spectral {
            return Err(
                EncodeAssemblyError::CoeffCountMismatch {
                    stage_a: EncodeStage::Quant,
                    count_a: quant_len,
                    stage_b: EncodeStage::Spectral,
                    count_b: m_spectral,
                },
            );
        }
        Ok(ChannelEncoder { analysis, quant: quant_len, spectral })
    }

    /// The block size.
    pub fn block_size(&self) -> (size: BlockSize)
        ensures
            size == self.framing().block_of(),
    {
        self.analysis.block_size()
    }

    /// Samples in a block.
    pub fn block_len(&self) -> (m: usize)
        requires
            self.wf(),
        ensures
            m == self.framing().block_of().sample_count(),
    {
        self.analysis.block_len()
    }

    /// The framing stage.
    pub fn analysis(&self) -> (stage: &Analysis)
        ensures
            *stage == self.framing(),
    {
        &self.analysis
    }

    /// The partition of the entropy coder.
    pub fn spectral(&self) -> (p: &Partition)
        ensures
            *p == self.partition(),
    {
        &self.spectral
    }

    /// Take a block of samples and give the frame for the transform. A block of
    /// another length is refused and changes nothing.
    pub fn block(&mut self, samples: &[Binary64]) -> (frame: Result<Vec<Binary64>, EncodeError>)
        requires
            old(self).wf(),
        ensures
            final(self).wf(),
            final(self).framing().block_of() == old(self).framing().block_of(),
            final(self).partition() == old(self).partition(),
            match frame {
                Ok(f) => {
                    &&& samples@.len() == old(self).framing().block_of().sample_count()
                    &&& f@ == old(self).framing().carried() + samples@
                    &&& final(self).framing().carried() == samples@
                },
                Err(EncodeError::Analysis(e)) => {
                    &&& samples@.len() != old(self).framing().block_of().sample_count()
                    &&& e.expected == old(self).framing().block_of().sample_count()
                    &&& e.got == samples@.len()
                    &&& final(self).framing().carried() == old(self).framing().carried()
                },
                Err(_) => false,
            },
    {
        match self.analysis.block(samples) {
            Ok(frame) => Ok(frame),
            Err(e) => Err(EncodeError::Analysis(e)),
        }
    }

    /// The last frame of a stream: that of a block of zeros.
    pub fn flush(&mut self) -> (frame: Vec<Binary64>)
        requires
            old(self).wf(),
        ensures
            final(self).wf(),
            final(self).framing().block_of() == old(self).framing().block_of(),
            final(self).partition() == old(self).partition(),
            frame@ == old(self).framing().carried() + silence(
                old(self).framing().block_of().sample_count(),
            ),
            final(self).framing().carried() == silence(
                old(self).framing().block_of().sample_count(),
            ),
    {
        self.analysis.flush()
    }

    /// Forget the previous block, as at a seek.
    pub fn reset(&mut self)
        requires
            old(self).wf(),
        ensures
            final(self).wf(),
            final(self).framing().block_of() == old(self).framing().block_of(),
            final(self).partition() == old(self).partition(),
            final(self).framing().carried() == silence(
                old(self).framing().block_of().sample_count(),
            ),
    {
        self.analysis.reset();
    }
}

} // verus!

//! The decoder chain of one channel: its stages and whether they fit together.
//!
//! A block passes entropy decoding, dequantization, noise filling and synthesis.
//! The last three compute in floating point outside the library.
use crate::block::BlockSize;
use crate::dequant::{DequantStage, InvalidDequant};
use crate::entropy_mode::Partition;
use crate::qband::QuantBandLayout;
use crate::text::{append_decimal, decimal};
use vstd::prelude::*;
use vstd::string::*;

verus! {

/// A stage of the chain.
#[derive(Debug, Clone, Copy, PartialEq, Eq, Hash, Structural)]
pub enum Stage {
    /// Entropy decoding.
    Spectral,
    /// Dequantization.
    Dequant,
    /// Noise filling.
    NoiseFill,
    /// Inverse transform and overlap-add.
    Synthesis,
}

impl Stage {
    /// What `name` says.
    pub open spec fn text(self) -> Seq<char> {
        match self {
            Stage::Spectral => "spectral (entropy decode)"@,
            Stage::Dequant => "dequant (inverse quantize/weight)"@,
            Stage::NoiseFill => "noise-fill (band substitution/truncation)"@,
            Stage::Synthesis => "synthesis (inverse MLT/overlap-add)"@,
        }
    }

    /// The stage's name.
    pub fn name(self) -> (s: &'static str)
        ensures
            s@ == self.text(),
    {
        match self {
            Stage::Spectral => "spectral (entropy decode)",
            Stage::Dequant => "dequant (inverse quantize/weight)",
            Stage::NoiseFill => "noise-fill (band substitution/truncation)",
            Stage::Synthesis => "synthesis (inverse MLT/overlap-add)",
        }
    }
}

/// Why the stages do not fit together.
#[derive(Debug, Clone, Copy, PartialEq, Eq, Hash, Structural)]
pub enum AssemblyError {
    /// Two neighbouring stages differ in the coefficients of a block.
    CoeffCountMismatch {
        /// The earlier stage.
        stage_a: Stage,
        /// Its coefficients.
        count_a: usize,
        /// The later stage.
        stage_b: Stage,
        /// Its coefficients.
        count_b: usize,
    },
}

impl AssemblyError {
    /// What `message` says.
    pub open spec fn text(self) -> Seq<char> {
        let AssemblyError::CoeffCountMismatch { stage_a, count_a, stage_b, count_b } = self;
        "oxideav-wma::decode: stage "@ + stage_a.text() + " declares "@ + decimal(count_a as nat)
            + " coefficients but stage "@ + stage_b.text() + " declares "@ + decimal(count_b as nat)
    }

    /// A description for people.
    pub fn message(self) -> (s: String)
        ensures
            s@ == self.text(),
    {
        let AssemblyError::CoeffCountMismatch { stage_a, count_a, stage_b, count_b } = self;
        let mut s = String::from_str("oxideav-wma::decode: stage ");
        s.append(stage_a.name());
        s.append(" declares ");
        append_decimal(&mut s, count_a as u64);
        s.append(" coefficients but stage ");
        s.append(stage_b.name());
        s.append(" declares ");
        append_decimal(&mut s, count_b as u64);
        s
    }
}

/// Why a block could not be decoded: the stage that refused it, with its own
/// error or, for a stage outside the library, what that stage said.
#[derive(Debug, Clone, PartialEq, Eq)]
pub enum DecodeError {
    /// Entropy decoding.
    Spectral(String),
    /// Dequantization.
    Dequant(InvalidDequant),
    /// Noise filling.
    NoiseFill(String),
    /// Synthesis.
    Synthesis(String),
}

impl DecodeError {
    /// What `message` says.
    pub open spec fn text(&self) -> Seq<char> {
        match self {
            DecodeError::Spectral(e) => "oxideav-wma::decode: entropy decode failed: "@ + e@,
            DecodeError::Dequant(e) => "oxideav-wma::decode: inverse quantize failed: "@ + e.text(),
            DecodeError::NoiseFill(e) => "oxideav-wma::decode: noise fill failed: "@ + e@,
            DecodeError::Synthesis(e) => "oxideav-wma::decode: synthesis failed: "@ + e@,
        }
    }

    /// A description for people.
    pub fn message(&self) -> (s: String)
        ensures
            s@ == self.text(),
    {
        match self {
            DecodeError::Spectral(e) => {
                let mut s = String::from_str("oxideav-wma::decode: entropy decode failed: ");
                s.append(e.as_str());
                s
            },
            DecodeError::Dequant(e) => {
                let mut s = String::from_str("oxideav-wma::decode: inverse quantize failed: ");
                let tail: String = e.message();
                s.append(tail.as_str());
                s
            },
            DecodeError::NoiseFill(e) => {
                let mut s = String::from_str("oxideav-wma::decode: noise fill failed: ");
                s.append(e.as_str());
                s
            },
            DecodeError::Synthesis(e) => {
                let mut s = String::from_str("oxideav-wma::decode: synthesis failed: ");
                s.append(e.as_str());
                s
            },
        }
    }
}

/// Stages that fit together: where the entropy coder changes, the weights of the
/// coefficients, the bands that noise fills, and the block size of the synthesis.
#[derive(Debug, Clone, PartialEq, Eq)]
pub struct ChannelDecoder {
    spectral: Partition,
    dequant: DequantStage,
    noise: QuantBandLayout,
    synthesis: BlockSize,
}

impl ChannelDecoder {
    /// Coefficients of each stage, in order.
    pub closed spec fn counts(&self) -> (nat, nat, nat, nat) {
        (
            self.spectral.total_coeffs as nat,
            self.dequant.slots().len(),
            self.noise.size(),
            self.synthesis.sample_count(),
        )
    }

    /// The block size of the synthesis.
    pub closed spec fn size(&self) -> BlockSize {
        self.synthesis
    }

    /// The partition of the entropy decoder.
    pub closed spec fn partition(&self) -> Partition {
        self.spectral
    }

    /// The dequantization stage.
    pub closed spec fn weights(&self) -> DequantStage {
        self.dequant
    }

    /// The bands that noise fills.
    pub closed spec fn noise_bands(&self) -> QuantBandLayout {
        self.noise
    }

    /// The invariant: all stages have the coefficients of one block.
    pub open spec fn wf(&self) -> bool {
        let m = self.size().sample_count();
        self.counts() == (m, m, m, m)
    }

    /// The chain of four stages. Of the pairs of neighbours that differ in the
    /// coefficients of a block, the first is reported.
    pub fn new(
        spectral: Partition,
        dequant: DequantStage,
        noise: QuantBandLayout,
        synthesis: BlockSize,
    ) -> (chain: Result<Self, AssemblyError>)
        ensures
            match chain {
                Ok(c) => {
                    &&& c.wf()
                    &&& c.partition() == spectral
                    &&& c.weights() == dequant
                    &&& c.noise_bands() == noise
                    &&& c.size() == synthesis
                    &&& spectral.total_coeffs == synthesis.sample_count()
                },
                Err(AssemblyError::CoeffCountMismatch { stage_a, count_a, stage_b, count_b }) => {
                    let a = spectral.total_coeffs;
                    let b = dequant.slots().len();
                    let c = noise.size();
                    let d = synthesis.sample_count();
                    &&& count_a != count_b
                    &&& match stage_a {
                        Stage::Spectral => stage_b is Dequant && count_a == a && count_b == b,
                        Stage::Dequant => {
                            &&& stage_b is NoiseFill
                            &&& a == b
                            &&& count_a == b
                            &&& count_b == c
                        },
                        Stage::NoiseFill => {
                            &&& stage_b is Synthesis
                            &&& a == b
                            &&& b == c
                            &&& count_a == c
                            &&& count_b == d
                        },
                        Stage::Synthesis => false,
                    }
                },
            },
    {
        let m_spectral: usize = spectral.total_coeffs as usize;
        let m_dequant: usize = dequant.block_len();
        let m_noise: usize = noise.total_coeffs();
        let m_synthesis: usize = synthesis.samples() as usize;
        if m_spectral != m_dequant {
            return Err(
                AssemblyError::CoeffCountMismatch {
                    stage_a: Stage::Spectral,
                    count_a: m_spectral,
                    stage_b: Stage::Dequant,
                    count_b: m_dequant,
                },
            );
        }
        if m_dequant != m_noise {
            return Err(
                AssemblyError::CoeffCountMismatch {
                    stage_a: Stage::Dequant,
                    count_a: m_dequant,
                    stage_b: Stage::NoiseFill,
                    count_b: m_noise,
                },
            );
        }
        if m_noise != m_synthesis {
            return Err(
                AssemblyError::CoeffCountMismatch {
                    stage_a: Stage::NoiseFill,
                    count_a: m_noise,
                    stage_b: Stage::Synthesis,
                    count_b: m_synthesis,
                },
            );
        }
        Ok(ChannelDecoder { spectral, dequant, noise, synthesis })
    }

    /// The block size.
    pub fn block_size(&self) -> (size: BlockSize)
        ensures
            size == self.size(),
    {
        self.synthesis
    }

    /// Samples in a block.
    pub fn block_len(&self) -> (m: usize)
        ensures
            m == self.size().sample_count(),
    {
        self.synthesis.samples() as usize
    }

    /// The partition of the entropy decoder.
    pub fn spectral(&self) -> (p: &Partition)
        ensures
            *p == self.partition(),
    {
        &self.spectral
    }

    /// The dequantization stage.
    pub fn dequant(&self) -> (stage: &DequantStage)
        ensures
            *stage == self.weights(),
    {
        &self.dequant
    }

    /// The bands that noise fills.
    pub fn noise(&self) -> (layout: &QuantBandLayout)
        ensures
            *layout == self.noise_bands(),
    {
        &self.noise
    }
}

} // verus!

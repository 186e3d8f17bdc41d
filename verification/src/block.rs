//! The codec's transform block sizes.
use crate::Error;
use vstd::arithmetic::power2::{lemma2_to64, pow2};
use vstd::prelude::*;

verus! {

/// One of the five transform block sizes.
#[derive(Debug, Clone, Copy, PartialEq, Eq, Hash, PartialOrd, Ord, Structural)]
pub enum BlockSize {
    /// 256 samples.
    S256,
    /// 512 samples.
    S512,
    /// 1024 samples.
    S1024,
    /// 2048 samples.
    S2048,
    /// 4096 samples.
    S4096,
}

impl BlockSize {
    /// Every block size, shortest first.
    pub const ALL: [BlockSize; 5] = [
        BlockSize::S256,
        BlockSize::S512,
        BlockSize::S1024,
        BlockSize::S2048,
        BlockSize::S4096,
    ];

    /// The binary logarithm of the block length.
    pub open spec fn exponent(self) -> nat {
        match self {
            BlockSize::S256 => 8,
            BlockSize::S512 => 9,
            BlockSize::S1024 => 10,
            BlockSize::S2048 => 11,
            BlockSize::S4096 => 12,
        }
    }

    /// The block length in samples.
    pub open spec fn sample_count(self) -> nat {
        match self {
            BlockSize::S256 => 256,
            BlockSize::S512 => 512,
            BlockSize::S1024 => 1024,
            BlockSize::S2048 => 2048,
            BlockSize::S4096 => 4096,
        }
    }

    /// Block length in samples.
    pub fn samples(self) -> (n: u16)
        ensures
            n == self.sample_count(),
    {
        match self {
            BlockSize::S256 => 256,
            BlockSize::S512 => 512,
            BlockSize::S1024 => 1024,
            BlockSize::S2048 => 2048,
            BlockSize::S4096 => 4096,
        }
    }

    /// Binary logarithm of the block length.
    pub fn log2_samples(self) -> (e: u8)
        ensures
            e == self.exponent(),
    {
        match self {
            BlockSize::S256 => 8,
            BlockSize::S512 => 9,
            BlockSize::S1024 => 10,
            BlockSize::S2048 => 11,
            BlockSize::S4096 => 12,
        }
    }

    /// The block size of a length in samples.
    pub fn from_samples(samples: u16) -> (size: Result<Self, Error>)
        ensures
            match size {
                Ok(b) => b.sample_count() == samples,
                Err(e) => {
                    &&& e == (Error::InvalidBlockSize { samples })
                    &&& forall|b: BlockSize| b.sample_count() != samples
                },
            },
    {
        match samples {
            256 => Ok(BlockSize::S256),
            512 => Ok(BlockSize::S512),
            1024 => Ok(BlockSize::S1024),
            2048 => Ok(BlockSize::S2048),
            4096 => Ok(BlockSize::S4096),
            other => Err(Error::InvalidBlockSize { samples: other }),
        }
    }

    /// The block size whose length is two to `log2_samples`. A refused exponent
    /// is reported as the length it stands for, or `u16::MAX` where that length
    /// needs more than 16 bits.
    pub fn from_log2(log2_samples: u8) -> (size: Result<Self, Error>)
        ensures
            match size {
                Ok(b) => b.exponent() == log2_samples,
                Err(e) => {
                    &&& forall|b: BlockSize| b.exponent() != log2_samples
                    &&& e matches Error::InvalidBlockSize { samples } && samples == (
                    if log2_samples >= 16 {
                        u16::MAX as nat
                    } else {
                        pow2(log2_samples as nat)
                    })
                },
            },
    {
        match log2_samples {
            8 => Ok(BlockSize::S256),
            9 => Ok(BlockSize::S512),
            10 => Ok(BlockSize::S1024),
            11 => Ok(BlockSize::S2048),
            12 => Ok(BlockSize::S4096),
            other => {
                let samples: u16 = if other >= 16 {
                    u16::MAX
                } else {
                    proof {
                        lemma2_to64();
                        vstd::bits::lemma_u16_shl_is_mul(1, other as u16);
                        assert(pow2(other as nat) <= 32768) by {
                            if other < 15 {
                                vstd::arithmetic::power2::lemma_pow2_strictly_increases(
                                    other as nat,
                                    15,
                                );
                            }
                        }
                    }
                    1u16 << (other as u16)
                };
                Err(Error::InvalidBlockSize { samples })
            },
        }
    }

    /// Whether this is the shortest block.
    pub fn is_shortest(self) -> (b: bool)
        ensures
            b == (self.sample_count() == 256),
    {
        matches!(self, BlockSize::S256)
    }

    /// Whether this is the longest block.
    pub fn is_longest(self) -> (b: bool)
        ensures
            b == (self.sample_count() == 4096),
    {
        matches!(self, BlockSize::S4096)
    }
}

/// A block's length is two to its exponent.
pub proof fn sample_count_is_power_of_two(b: BlockSize)
    ensures
        b.sample_count() == pow2(b.exponent()),
{
    lemma2_to64();
}

/// The length, and likewise the exponent, determines the block size.
pub proof fn block_size_is_determined(a: BlockSize, b: BlockSize)
    ensures
        a.sample_count() == b.sample_count() ==> a == b,
        a.exponent() == b.exponent() ==> a == b,
{
}

/// `ALL` lists every block size, each once, in strictly ascending order of
/// length.
pub proof fn all_is_complete_and_ascending()
    ensures
        forall|b: BlockSize| #[trigger] BlockSize::ALL@.contains(b),
        forall|i: int, j: int|
            0 <= i < j < 5 ==> (#[trigger] BlockSize::ALL@[i]).sample_count()
                < (#[trigger] BlockSize::ALL@[j]).sample_count(),
{
    let all = BlockSize::ALL@;
    assert(all[0] == BlockSize::S256);
    assert(all[1] == BlockSize::S512);
    assert(all[2] == BlockSize::S1024);
    assert(all[3] == BlockSize::S2048);
    assert(all[4] == BlockSize::S4096);
    assert forall|b: BlockSize| #[trigger] BlockSize::ALL@.contains(b) by {
        match b {
            BlockSize::S256 => assert(all[0] == b),
            BlockSize::S512 => assert(all[1] == b),
            BlockSize::S1024 => assert(all[2] == b),
            BlockSize::S2048 => assert(all[3] == b),
            BlockSize::S4096 => assert(all[4] == b),
        }
    }
}

} // verus!

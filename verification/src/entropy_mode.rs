//! Which of the two entropy coders takes a coefficient.
//!
//! Low coefficients are mostly non-zero and are coded level by level; high ones
//! are mostly zero and are coded as run-level pairs. A partition names the place
//! where the coder changes.
use crate::text::{append_decimal, decimal};
use vstd::prelude::*;
use vstd::string::*;

verus! {

/// An entropy coder.
#[derive(Debug, Clone, Copy, PartialEq, Eq, Hash, Structural)]
pub enum EntropyMode {
    /// Symbols are levels.
    Level,
    /// Symbols are pairs of a run and a level.
    RunLevel,
}

impl EntropyMode {
    /// Both coders, that of the low coefficients first.
    pub const ALL: [EntropyMode; 2] = [EntropyMode::Level, EntropyMode::RunLevel];

    /// The other coder.
    pub open spec fn other(self) -> EntropyMode {
        match self {
            EntropyMode::Level => EntropyMode::RunLevel,
            EntropyMode::RunLevel => EntropyMode::Level,
        }
    }

    /// The other coder.
    pub fn opposite(self) -> (mode: EntropyMode)
        ensures
            mode == self.other(),
    {
        match self {
            EntropyMode::Level => EntropyMode::RunLevel,
            EntropyMode::RunLevel => EntropyMode::Level,
        }
    }

    /// Whether this is the coder of the low coefficients.
    pub fn is_level(self) -> (b: bool)
        ensures
            b == (self is Level),
    {
        matches!(self, EntropyMode::Level)
    }

    /// Whether this is the coder of the high coefficients.
    pub fn is_run_level(self) -> (b: bool)
        ensures
            b == (self is RunLevel),
    {
        matches!(self, EntropyMode::RunLevel)
    }
}

/// The other coder of the other coder is the coder itself, and no coder is its
/// own other.
pub proof fn opposite_is_involutive(mode: EntropyMode)
    ensures
        mode.other().other() == mode,
        mode.other() != mode,
{
}

/// The place in a block where the coder changes.
#[derive(Debug, Clone, Copy, PartialEq, Eq, Hash, Structural)]
pub struct Partition {
    /// Coefficients in the block.
    pub total_coeffs: u32,
    /// First coefficient of the high range.
    pub split: u32,
    /// Whether the place is signalled with the block, not fixed beforehand.
    pub adaptive: bool,
}

/// Why a partition could not be made.
#[derive(Debug, Clone, Copy, PartialEq, Eq, Hash, Structural)]
pub enum InvalidPartition {
    /// The split lies past the block.
    SplitOutOfBlock {
        /// The split.
        split: u32,
        /// Coefficients in the block.
        total_coeffs: u32,
    },
}

impl InvalidPartition {
    /// What `message` says.
    pub open spec fn text(self) -> Seq<char> {
        let InvalidPartition::SplitOutOfBlock { split, total_coeffs } = self;
        "oxideav-wma::entropy_mode: partition split "@ + decimal(split as nat)
            + " is outside block of "@ + decimal(total_coeffs as nat) + " coefficients"@
    }

    /// A description for people.
    pub fn message(self) -> (s: String)
        ensures
            s@ == self.text(),
    {
        let InvalidPartition::SplitOutOfBlock { split, total_coeffs } = self;
        let mut s = String::from_str("oxideav-wma::entropy_mode: partition split ");
        append_decimal(&mut s, split as u64);
        s.append(" is outside block of ");
        append_decimal(&mut s, total_coeffs as u64);
        s.append(" coefficients");
        s
    }
}

impl Partition {
    /// The invariant: the split lies in the block or at its end.
    pub open spec fn wf(self) -> bool {
        self.split <= self.total_coeffs
    }

    /// The coder of coefficient `index`, where the block has it.
    pub open spec fn mode_at(self, index: u32) -> Option<EntropyMode> {
        if index >= self.total_coeffs {
            None
        } else if index < self.split {
            Some(EntropyMode::Level)
        } else {
            Some(EntropyMode::RunLevel)
        }
    }

    /// The partition of a block at `split`, which may be either end of the block.
    pub fn new(total_coeffs: u32, split: u32, adaptive: bool) -> (partition: Result<
        Self,
        InvalidPartition,
    >)
        ensures
            partition == (if split > total_coeffs {
                Err(InvalidPartition::SplitOutOfBlock { split, total_coeffs })
            } else {
                Ok(Partition { total_coeffs, split, adaptive })
            }),
    {
        if split > total_coeffs {
            return Err(InvalidPartition::SplitOutOfBlock { split, total_coeffs });
        }
        Ok(Partition { total_coeffs, split, adaptive })
    }

    /// Whether the split is signalled with the block.
    pub fn is_adaptive(self) -> (b: bool)
        ensures
            b == self.adaptive,
    {
        self.adaptive
    }

    /// Whether the split is fixed beforehand.
    pub fn is_predetermined(self) -> (b: bool)
        ensures
            b == !self.adaptive,
    {
        !self.adaptive
    }

    /// The coder of coefficient `index`; none past the block.
    pub fn mode_for(self, index: u32) -> (mode: Option<EntropyMode>)
        ensures
            mode == self.mode_at(index),
    {
        if index >= self.total_coeffs {
            None
        } else if index < self.split {
            Some(EntropyMode::Level)
        } else {
            Some(EntropyMode::RunLevel)
        }
    }

    /// Number of coefficients below the split.
    pub fn level_range_len(self) -> (n: u32)
        ensures
            n == self.split,
    {
        self.split
    }

    /// Number of coefficients from the split on.
    pub fn run_level_range_len(self) -> (n: u32)
        requires
            self.wf(),
        ensures
            n == self.total_coeffs - self.split,
    {
        self.total_coeffs - self.split
    }
}

/// Every coefficient of a block has one coder, the coder changes at most once,
/// from levels to pairs, and it changes at the split.
pub proof fn coder_changes_at_split(p: Partition, i: u32, j: u32)
    requires
        p.wf(),
        i <= j < p.total_coeffs,
    ensures
        p.mode_at(i) is Some,
        p.mode_at(i) == Some(EntropyMode::RunLevel) ==> p.mode_at(j) == Some(EntropyMode::RunLevel),
        p.mode_at(i) == Some(EntropyMode::Level) <==> i < p.split,
{
}

} // verus!

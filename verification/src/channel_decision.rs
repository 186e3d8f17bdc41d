//! Whether the two channels of a block are coded apart or as sum and difference.
//!
//! The choice is made from two measures of the input: how much of the energy the
//! difference channel would carry, and how unlike the channels' excitation
//! patterns are. Both are computed in floating point outside the library.
use crate::binary64::Binary64;
use crate::text::{append_decimal, decimal};
use vstd::prelude::*;
use vstd::string::*;

verus! {

/// How the two channels are coded.
#[derive(Debug, Clone, Copy, PartialEq, Eq, Hash, Structural)]
pub enum ChannelMode {
    /// Each on its own.
    Independent,
    /// As their sum and their difference.
    SumDifference,
}

impl ChannelMode {
    /// Both modes.
    pub const ALL: [ChannelMode; 2] = [ChannelMode::Independent, ChannelMode::SumDifference];

    /// The other mode.
    pub open spec fn other(self) -> ChannelMode {
        match self {
            ChannelMode::Independent => ChannelMode::SumDifference,
            ChannelMode::SumDifference => ChannelMode::Independent,
        }
    }

    /// The other mode.
    pub fn opposite(self) -> (mode: ChannelMode)
        ensures
            mode == self.other(),
    {
        match self {
            ChannelMode::Independent => ChannelMode::SumDifference,
            ChannelMode::SumDifference => ChannelMode::Independent,
        }
    }

    /// Whether the channels are coded as sum and difference.
    pub fn is_joint(self) -> (b: bool)
        ensures
            b == (self is SumDifference),
    {
        matches!(self, ChannelMode::SumDifference)
    }

    /// What `name` says.
    pub open spec fn text(self) -> Seq<char> {
        match self {
            ChannelMode::Independent => "independent"@,
            ChannelMode::SumDifference => "sum/difference"@,
        }
    }

    /// The mode's name.
    pub fn name(self) -> (s: &'static str)
        ensures
            s@ == self.text(),
    {
        match self {
            ChannelMode::Independent => "independent",
            ChannelMode::SumDifference => "sum/difference",
        }
    }
}

/// The other mode of the other mode is the mode itself, and no mode is its own
/// other.
pub proof fn opposite_is_involutive(mode: ChannelMode)
    ensures
        mode.other().other() == mode,
        mode.other() != mode,
{
}

/// Why the channels could not be compared.
#[derive(Debug, Clone, Copy, PartialEq, Eq, Structural)]
pub enum InvalidStereoAnalysis {
    /// The channels differ in length.
    LengthMismatch {
        /// Length of the left channel.
        left: usize,
        /// Length of the right channel.
        right: usize,
    },
    /// There is no energy to compare.
    NoEnergy,
}

impl InvalidStereoAnalysis {
    /// What `message` says.
    pub open spec fn text(self) -> Seq<char> {
        match self {
            InvalidStereoAnalysis::LengthMismatch { left, right } =>
                "oxideav-wma::channel_decision: channel slices differ in length (left "@ + decimal(
                left as nat,
            ) + ", right "@ + decimal(right as nat) + ")"@,
            InvalidStereoAnalysis::NoEnergy =>
                "oxideav-wma::channel_decision: inter-channel energy separation is undefined for a pair with zero total energy"@,
        }
    }

    /// A description for people.
    pub fn message(self) -> (s: String)
        ensures
            s@ == self.text(),
    {
        match self {
            InvalidStereoAnalysis::LengthMismatch { left, right } => {
                let mut s = String::from_str(
                    "oxideav-wma::channel_decision: channel slices differ in length (left ",
                );
                append_decimal(&mut s, left as u64);
                s.append(", right ");
                append_decimal(&mut s, right as u64);
                s.append(")");
                s
            },
            InvalidStereoAnalysis::NoEnergy => String::from_str(
                "oxideav-wma::channel_decision: inter-channel energy separation is undefined for a pair with zero total energy",
            ),
        }
    }
}

/// That two channels of these lengths can be compared.
pub fn check_lengths(left: usize, right: usize) -> (r: Result<(), InvalidStereoAnalysis>)
    ensures
        r == (if left != right {
            Err(InvalidStereoAnalysis::LengthMismatch { left, right })
        } else {
            Ok(())
        }),
{
    if left != right {
        return Err(InvalidStereoAnalysis::LengthMismatch { left, right });
    }
    Ok(())
}

/// The bounds up to which each measure favours sum and difference.
#[derive(Debug, Clone, Copy, PartialEq, Eq, Structural)]
pub struct OpenLoopDecision {
    /// Bound of the energy separation.
    pub max_energy_separation: Binary64,
    /// Bound of the excitation disparity.
    pub max_excitation_disparity: Binary64,
}

impl OpenLoopDecision {
    /// Sum and difference where both measures are within their bounds. A measure
    /// or a bound that is no number favours nothing.
    pub open spec fn choice(self, separation: Binary64, disparity: Binary64) -> ChannelMode {
        if separation.at_most(self.max_energy_separation) && disparity.at_most(
            self.max_excitation_disparity,
        ) {
            ChannelMode::SumDifference
        } else {
            ChannelMode::Independent
        }
    }

    /// The decision with the given bounds, which may be any numbers.
    pub fn new(max_energy_separation: Binary64, max_excitation_disparity: Binary64) -> (d: Self)
        ensures
            d == (OpenLoopDecision { max_energy_separation, max_excitation_disparity }),
    {
        OpenLoopDecision { max_energy_separation, max_excitation_disparity }
    }

    /// The mode for the two measures.
    pub fn decide(&self, energy_separation: Binary64, excitation_disparity: Binary64) -> (mode:
        ChannelMode)
        ensures
            mode == self.choice(energy_separation, excitation_disparity),
    {
        let energy_favours_joint: bool = energy_separation.le(self.max_energy_separation);
        let excitation_favours_joint: bool = excitation_disparity.le(
            self.max_excitation_disparity,
        );
        if energy_favours_joint && excitation_favours_joint {
            ChannelMode::SumDifference
        } else {
            ChannelMode::Independent
        }
    }

    /// The mode for what came of measuring a block: the first failure, the
    /// separation's before the disparity's, or the mode for both measures.
    pub fn decide_blocks(
        &self,
        separation: Result<Binary64, InvalidStereoAnalysis>,
        disparity: Result<Binary64, InvalidStereoAnalysis>,
    ) -> (mode: Result<ChannelMode, InvalidStereoAnalysis>)
        ensures
            mode == (match (separation, disparity) {
                (Err(e), _) => Err(e),
                (Ok(_), Err(e)) => Err(e),
                (Ok(s), Ok(d)) => Ok(self.choice(s, d)),
            }),
    {
        match separation {
            Err(e) => Err(e),
            Ok(s) => match disparity {
                Err(e) => Err(e),
                Ok(d) => Ok(self.decide(s, d)),
            },
        }
    }
}

/// Lower measures never lose sum and difference.
pub proof fn decision_is_monotone(
    d: OpenLoopDecision,
    s1: Binary64,
    e1: Binary64,
    s2: Binary64,
    e2: Binary64,
)
    requires
        d.choice(s1, e1) == ChannelMode::SumDifference,
        s2.at_most(s1),
        e2.at_most(e1),
    ensures
        d.choice(s2, e2) == ChannelMode::SumDifference,
{
}

/// The bounds are inclusive: measures at both bounds choose sum and difference, and a
/// measure above its bound, or one that is no number, never does.
pub proof fn bounds_are_inclusive(d: OpenLoopDecision, s: Binary64, e: Binary64)
    ensures
        !d.max_energy_separation.nan() && !d.max_excitation_disparity.nan() ==> d.choice(
            d.max_energy_separation,
            d.max_excitation_disparity,
        ) == ChannelMode::SumDifference,
        d.max_energy_separation.below(s) ==> d.choice(s, e) == ChannelMode::Independent,
        d.max_excitation_disparity.below(e) ==> d.choice(s, e) == ChannelMode::Independent,
        s.nan() || e.nan() ==> d.choice(s, e) == ChannelMode::Independent,
        s.below(d.max_energy_separation) && e.below(d.max_excitation_disparity) ==> d.choice(s, e)
            == ChannelMode::SumDifference,
{
}

} // verus!

//! Run-level pairs: a run of zeros and the magnitude that ends it.
use vstd::prelude::*;
use vstd::string::*;

verus! {

/// A magnitude, which is never zero.
#[derive(Debug, Clone, Copy, PartialEq, Eq, Hash, PartialOrd, Ord, Structural)]
pub struct NonZeroLevel {
    value: u32,
}

impl NonZeroLevel {
    /// The magnitude as a number.
    pub closed spec fn number(&self) -> nat {
        self.value as nat
    }

    /// The invariant: a level is not zero.
    pub open spec fn wf(&self) -> bool {
        self.number() > 0
    }

    /// The level of a number that is not zero.
    pub fn new(value: u32) -> (level: Option<Self>)
        ensures
            match level {
                Some(l) => value != 0 && l.number() == value && l.wf(),
                None => value == 0,
            },
    {
        if value == 0 {
            None
        } else {
            Some(NonZeroLevel { value })
        }
    }

    /// The number.
    pub fn get(self) -> (value: u32)
        ensures
            value == self.number(),
    {
        self.value
    }
}

/// Levels of equal number are equal.
pub proof fn level_is_its_number(a: NonZeroLevel, b: NonZeroLevel)
    requires
        a.number() == b.number(),
    ensures
        a == b,
{
}

/// A run of zeros and the magnitude after it.
#[derive(Debug, Clone, Copy, PartialEq, Eq, Hash, Structural)]
pub struct RunLevelPair {
    /// Length of the run.
    pub run: u32,
    /// Magnitude after the run.
    pub level: NonZeroLevel,
}

/// Why a pair could not be made.
#[derive(Debug, Clone, Copy, PartialEq, Eq, Hash, Structural)]
pub enum InvalidPair {
    /// The run is zero.
    ZeroRun,
    /// The level is zero.
    ZeroLevel,
}

impl InvalidPair {
    /// What `message` says.
    pub open spec fn text(&self) -> Seq<char> {
        match self {
            InvalidPair::ZeroRun => "run must be at least 1"@,
            InvalidPair::ZeroLevel => "level must be at least 1"@,
        }
    }

    /// A description for people.
    pub fn message(&self) -> (s: String)
        ensures
            s@ == self.text(),
    {
        match self {
            InvalidPair::ZeroRun => String::from_str("run must be at least 1"),
            InvalidPair::ZeroLevel => String::from_str("level must be at least 1"),
        }
    }
}

impl RunLevelPair {
    /// The pair of a run and a level, neither zero; a zero run is reported
    /// first.
    pub fn new(run: u32, level: u32) -> (pair: Result<Self, InvalidPair>)
        ensures
            match pair {
                Ok(p) => {
                    &&& run != 0
                    &&& level != 0
                    &&& p.run == run
                    &&& p.level.number() == level
                    &&& p.level.wf()
                },
                Err(InvalidPair::ZeroRun) => run == 0,
                Err(InvalidPair::ZeroLevel) => run != 0 && level == 0,
            },
    {
        if run == 0 {
            return Err(InvalidPair::ZeroRun);
        }
        match NonZeroLevel::new(level) {
            Some(level) => Ok(RunLevelPair { run, level }),
            None => Err(InvalidPair::ZeroLevel),
        }
    }

    /// Whether the pair ends a block of `block_len` coefficients: a run as long
    /// as the block, closed by a level of one that the block has no place for.
    pub fn is_implicit_terminator_for(&self, block_len: u32) -> (b: bool)
        ensures
            b == (self.run == block_len && self.level.number() == 1),
    {
        self.run == block_len && self.level.get() == 1
    }
}

} // verus!

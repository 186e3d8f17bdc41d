//! The literal that follows an escape symbol.
//!
//! A pair outside the codebook is sent as an escape symbol and a literal from
//! which its run and its level can be read back.
use crate::codebook::{CodebookGrid, Disposition};
use crate::runlevel::{InvalidPair, NonZeroLevel, RunLevelPair};
use vstd::prelude::*;
use vstd::string::*;

verus! {

/// The run and the level of an escaped pair.
#[derive(Debug, Clone, Copy, PartialEq, Eq, Hash, Structural)]
pub struct EscapeLiteral {
    run: u32,
    level: NonZeroLevel,
}

impl EscapeLiteral {
    /// The pair that the literal stands for.
    pub closed spec fn pair(self) -> RunLevelPair {
        RunLevelPair { run: self.run, level: self.level }
    }

    /// The literal of a run and a level, neither zero.
    pub fn new(run: u32, level: u32) -> (literal: Result<Self, EscapeError>)
        ensures
            match literal {
                Ok(l) => {
                    &&& run != 0
                    &&& level != 0
                    &&& l.pair().run == run
                    &&& l.pair().level.number() == level
                },
                Err(EscapeError::InvalidPair(InvalidPair::ZeroRun)) => run == 0,
                Err(EscapeError::InvalidPair(InvalidPair::ZeroLevel)) => run != 0 && level == 0,
                Err(EscapeError::InCodebook) => false,
            },
    {
        match RunLevelPair::new(run, level) {
            Ok(pair) => Ok(EscapeLiteral { run: pair.run, level: pair.level }),
            Err(e) => Err(EscapeError::InvalidPair(e)),
        }
    }

    /// The literal of a pair that the codebook does not hold.
    pub fn for_pair(grid: &CodebookGrid, pair: RunLevelPair) -> (literal: Result<
        Self,
        EscapeError,
    >)
        requires
            grid.wf(),
        ensures
            match literal {
                Ok(l) => {
                    &&& !grid.in_book(pair.run as int, pair.level.number() as int)
                    &&& l.pair() == pair
                },
                Err(e) => {
                    &&& grid.in_book(pair.run as int, pair.level.number() as int)
                    &&& e == EscapeError::InCodebook
                },
            },
    {
        match grid.disposition(pair) {
            Disposition::Escape => Ok(EscapeLiteral { run: pair.run, level: pair.level }),
            Disposition::InCodebook => Err(EscapeError::InCodebook),
        }
    }

    /// The run.
    pub fn run(self) -> (run: u32)
        ensures
            run == self.pair().run,
    {
        self.run
    }

    /// The level.
    pub fn level(self) -> (level: NonZeroLevel)
        ensures
            level == self.pair().level,
    {
        self.level
    }

    /// The level as a number.
    pub fn level_raw(self) -> (level: u32)
        ensures
            level == self.pair().level.number(),
    {
        self.level.get()
    }

    /// The pair that the literal stands for.
    pub fn as_run_level_pair(self) -> (pair: RunLevelPair)
        ensures
            pair == self.pair(),
    {
        RunLevelPair { run: self.run, level: self.level }
    }
}

/// Literals of equal pairs are equal.
pub proof fn literal_is_its_pair(a: EscapeLiteral, b: EscapeLiteral)
    requires
        a.pair() == b.pair(),
    ensures
        a == b,
{
}

/// Why a literal could not be made.
#[derive(Debug, Clone, Copy, PartialEq, Eq, Hash, Structural)]
pub enum EscapeError {
    /// The run or the level is zero.
    InvalidPair(InvalidPair),
    /// The codebook holds the pair.
    InCodebook,
}

impl EscapeError {
    /// What `message` says.
    pub open spec fn text(&self) -> Seq<char> {
        match self {
            EscapeError::InvalidPair(inner) => "oxideav-wma: invalid escape literal — "@
                + inner.text(),
            EscapeError::InCodebook =>
                "oxideav-wma: pair is in the codebook — the escape branch does not apply (US6,223,162 Claim 4)"@,
        }
    }

    /// A description for people.
    pub fn message(&self) -> (s: String)
        ensures
            s@ == self.text(),
    {
        match self {
            EscapeError::InvalidPair(inner) => {
                let mut s = String::from_str("oxideav-wma: invalid escape literal — ");
                let tail: String = inner.message();
                s.append(tail.as_str());
                s
            },
            EscapeError::InCodebook => String::from_str(
                "oxideav-wma: pair is in the codebook — the escape branch does not apply (US6,223,162 Claim 4)",
            ),
        }
    }
}

} // verus!

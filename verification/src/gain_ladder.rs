//! The ladder of dequantization gains.
//!
//! A decoded exponent indexes a ladder of integer multipliers. The ladder's
//! values are the caller's; the library looks them up.
use crate::text::{append_decimal, decimal};
use vstd::prelude::*;
use vstd::string::*;

verus! {

/// Number of steps of the ladder.
pub const STEP_COUNT: usize = 113;

/// Why gains could not be looked up.
#[derive(Debug, Clone, Copy, PartialEq, Eq, Structural)]
pub enum GainLadderError {
    /// An index lies past the ladder.
    IndexOutOfRange {
        /// The index.
        index: usize,
    },
    /// There is no band.
    EmptyBands,
}

impl GainLadderError {
    /// What `message` says.
    pub open spec fn text(self) -> Seq<char> {
        match self {
            GainLadderError::IndexOutOfRange { index } =>
                "oxideav-wma::gain_ladder: exponent index "@ + decimal(index as nat)
                    + " outside the 113-step ladder"@,
            GainLadderError::EmptyBands => "oxideav-wma::gain_ladder: empty band index vector"@,
        }
    }

    /// A description for people.
    pub fn message(self) -> (s: String)
        ensures
            s@ == self.text(),
    {
        match self {
            GainLadderError::IndexOutOfRange { index } => {
                let mut s = String::from_str("oxideav-wma::gain_ladder: exponent index ");
                append_decimal(&mut s, index as u64);
                s.append(" outside the 113-step ladder");
                s
            },
            GainLadderError::EmptyBands => String::from_str(
                "oxideav-wma::gain_ladder: empty band index vector",
            ),
        }
    }
}

/// The gain at an index; none past the ladder.
pub fn gain(ladder: &[u32; STEP_COUNT], index: usize) -> (g: Option<u32>)
    ensures
        g == (if index < STEP_COUNT {
            Some(ladder@[index as int])
        } else {
            None
        }),
{
    if index < STEP_COUNT {
        Some(ladder[index])
    } else {
        None
    }
}

/// The two gains whose ratio is the relative amplitude of `a` to `b`. An index
/// past the ladder is reported, `a` before `b`.
pub fn gain_ratio(ladder: &[u32; STEP_COUNT], a: usize, b: usize) -> (ratio: Result<
    (u32, u32),
    GainLadderError,
>)
    ensures
        ratio == (if a >= STEP_COUNT {
            Err(GainLadderError::IndexOutOfRange { index: a })
        } else if b >= STEP_COUNT {
            Err(GainLadderError::IndexOutOfRange { index: b })
        } else {
            Ok((ladder@[a as int], ladder@[b as int]))
        }),
{
    match gain(ladder, a) {
        None => Err(GainLadderError::IndexOutOfRange { index: a }),
        Some(over) => match gain(ladder, b) {
            None => Err(GainLadderError::IndexOutOfRange { index: b }),
            Some(under) => Ok((over, under)),
        },
    }
}

/// The gains of a block's bands and the greatest of them.
#[derive(Debug, Clone, PartialEq, Eq)]
pub struct BandGains {
    /// The gain of each band.
    pub gains: Vec<u32>,
    /// The greatest gain.
    pub greatest: u32,
}

/// Whether `i` is the first index past the ladder.
pub open spec fn first_past(indices: Seq<u8>, i: int) -> bool {
    &&& 0 <= i < indices.len()
    &&& indices[i] >= STEP_COUNT
    &&& forall|j: int| 0 <= j < i ==> (#[trigger] indices[j]) < STEP_COUNT
}

/// The gain of each band and the greatest, by which the bands' weights are the
/// gains divided, so that the loudest band weighs one.
pub fn band_weights(ladder: &[u32; STEP_COUNT], indices: &[u8]) -> (bands: Result<
    BandGains,
    GainLadderError,
>)
    ensures
        match bands {
            Ok(b) => {
                &&& indices@.len() > 0
                &&& b.gains@.len() == indices@.len()
                &&& forall|d: int| 0 <= d < indices@.len() ==> (#[trigger] indices@[d]) < STEP_COUNT
                &&& forall|d: int|
                    0 <= d < indices@.len() ==> #[trigger] b.gains@[d] == ladder@[indices@[d] as int]
                &&& b.gains@.contains(b.greatest)
                &&& forall|d: int| 0 <= d < b.gains@.len() ==> #[trigger] b.gains@[d] <= b.greatest
            },
            Err(GainLadderError::EmptyBands) => indices@.len() == 0,
            Err(GainLadderError::IndexOutOfRange { index }) => exists|i: int| #[trigger]
                first_past(indices@, i) && index == indices@[i],
        },
{
    if indices.len() == 0 {
        return Err(GainLadderError::EmptyBands);
    }
    let mut gains: Vec<u32> = Vec::new();
    let mut greatest: u32 = 0;
    let mut d: usize = 0;
    while d < indices.len()
        invariant
            indices@.len() > 0,
            d <= indices@.len(),
            gains@.len() == d,
            forall|j: int| 0 <= j < d ==> (#[trigger] indices@[j]) < STEP_COUNT,
            forall|j: int| 0 <= j < d ==> #[trigger] gains@[j] == ladder@[indices@[j] as int],
            forall|j: int| 0 <= j < d ==> #[trigger] gains@[j] <= greatest,
            d > 0 ==> gains@.contains(greatest),
            d == 0 ==> greatest == 0,
        decreases indices@.len() - d,
    {
        let index: usize = indices[d] as usize;
        match gain(ladder, index) {
            None => {
                proof {
                    assert(first_past(indices@, d as int));
                }
                return Err(GainLadderError::IndexOutOfRange { index });
            },
            Some(g) => {
                let ghost before = gains@;
                let ghost top = greatest;
                gains.push(g);
                if g > greatest {
                    greatest = g;
                }
                proof {
                    if greatest == g {
                        assert(gains@[d as int] == greatest);
                    } else if d > 0 {
                        let k = choose|k: int| 0 <= k < before.len() && before[k] == top;
                        assert(gains@[k] == greatest);
                    }
                }
            },
        }
        d = d + 1;
    }
    Ok(BandGains { gains, greatest })
}

} // verus!

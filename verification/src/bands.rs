//! What is sent for each band of a block: coefficients, a noise energy, or
//! nothing.
use crate::binary64::Binary64;
use crate::text::{append_decimal, decimal};
use vstd::prelude::*;
use vstd::string::*;

verus! {

/// What is sent for a band.
#[derive(Debug, Clone, Copy, PartialEq, Eq, Structural)]
pub enum BandPolicy {
    /// The coefficients.
    Coded,
    /// The energy of the noise that stands in for them.
    NoiseSubstituted {
        /// The energy.
        energy: Binary64,
    },
    /// Nothing: the coefficients are zero.
    Truncated,
}

impl BandPolicy {
    /// Whether the coefficients are sent.
    pub fn is_coded(&self) -> (b: bool)
        ensures
            b == (self is Coded),
    {
        matches!(self, BandPolicy::Coded)
    }

    /// Whether noise stands in for the coefficients.
    pub fn is_noise_substituted(&self) -> (b: bool)
        ensures
            b == (self is NoiseSubstituted),
    {
        matches!(self, BandPolicy::NoiseSubstituted { .. })
    }

    /// Whether nothing is sent.
    pub fn is_truncated(&self) -> (b: bool)
        ensures
            b == (self is Truncated),
    {
        matches!(self, BandPolicy::Truncated)
    }

    /// The energy of the noise, where noise stands in.
    pub fn noise_energy(&self) -> (energy: Option<Binary64>)
        ensures
            energy == (match self {
                BandPolicy::NoiseSubstituted { energy } => Some(*energy),
                _ => None,
            }),
    {
        match self {
            BandPolicy::NoiseSubstituted { energy } => Some(*energy),
            _ => None,
        }
    }
}

/// A policy for each band of a block.
#[derive(Debug, Clone, PartialEq, Eq)]
pub struct BandPlan {
    /// The policies in order.
    pub policies: Vec<BandPolicy>,
    /// Where the truncated tail starts, where the plan was made with one.
    pub cutoff: Option<usize>,
}

/// Why a plan could not be made.
#[derive(Debug, Clone, Copy, PartialEq, Eq, Structural)]
pub enum InvalidBandPlan {
    /// A band after a truncated one is not truncated.
    TruncatedNotContiguousTail {
        /// The first truncated band whose successor is not.
        at_band: usize,
    },
}

impl InvalidBandPlan {
    /// What `message` says.
    pub open spec fn text(self) -> Seq<char> {
        let InvalidBandPlan::TruncatedNotContiguousTail { at_band } = self;
        "oxideav-wma::bands: truncated bands do not form a contiguous tail (band "@ + decimal(
            at_band as nat,
        ) + " is Truncated but its successor is not)"@
    }

    /// A description for people.
    pub fn message(self) -> (s: String)
        ensures
            s@ == self.text(),
    {
        let InvalidBandPlan::TruncatedNotContiguousTail { at_band } = self;
        let mut s = String::from_str(
            "oxideav-wma::bands: truncated bands do not form a contiguous tail (band ",
        );
        append_decimal(&mut s, at_band as u64);
        s.append(" is Truncated but its successor is not)");
        s
    }
}

/// Whether the bands before `c` are not truncated and those from `c` on are.
pub open spec fn tail_from(policies: Seq<BandPolicy>, c: int) -> bool {
    &&& 0 <= c <= policies.len()
    &&& forall|d: int| 0 <= d < c ==> !(#[trigger] policies[d] is Truncated)
    &&& forall|d: int| c <= d < policies.len() ==> (#[trigger] policies[d] is Truncated)
}

/// Whether band `d` is truncated and the next is not.
pub open spec fn breaks_at(policies: Seq<BandPolicy>, d: int) -> bool {
    &&& 0 <= d < policies.len() - 1
    &&& policies[d] is Truncated
    &&& !(policies[d + 1] is Truncated)
}

/// Number of the first `n` bands that a test picks.
pub open spec fn picked(
    policies: Seq<BandPolicy>,
    n: int,
    test: spec_fn(BandPolicy) -> bool,
) -> nat
    decreases n,
{
    if n <= 0 {
        0
    } else if test(policies[n - 1]) {
        picked(policies, n - 1, test) + 1
    } else {
        picked(policies, n - 1, test)
    }
}

/// Number of bands whose coefficients are sent.
pub open spec fn coded_bands(policies: Seq<BandPolicy>) -> nat {
    picked(policies, policies.len() as int, |p: BandPolicy| p is Coded)
}

/// Number of bands that noise stands in for.
pub open spec fn noise_bands(policies: Seq<BandPolicy>) -> nat {
    picked(policies, policies.len() as int, |p: BandPolicy| p is NoiseSubstituted)
}

/// Number of bands for which nothing is sent.
pub open spec fn truncated_bands(policies: Seq<BandPolicy>) -> nat {
    picked(policies, policies.len() as int, |p: BandPolicy| p is Truncated)
}

impl BandPlan {
    /// A plan of any shape.
    pub fn new(policies: Vec<BandPolicy>) -> (plan: Self)
        ensures
            plan.policies@ == policies@,
            plan.cutoff is None,
    {
        BandPlan { policies, cutoff: None }
    }

    /// A plan whose truncated bands are the last ones.
    pub fn new_with_cutoff(policies: Vec<BandPolicy>) -> (plan: Result<Self, InvalidBandPlan>)
        ensures
            match plan {
                Ok(p) => {
                    &&& p.policies@ == policies@
                    &&& match p.cutoff {
                        Some(c) => c < policies@.len() && tail_from(policies@, c as int),
                        None => tail_from(policies@, policies@.len() as int),
                    }
                },
                Err(InvalidBandPlan::TruncatedNotContiguousTail { at_band }) => {
                    &&& breaks_at(policies@, at_band as int)
                    &&& forall|d: int| 0 <= d < at_band ==> !#[trigger] breaks_at(policies@, d)
                },
            },
    {
        let mut cutoff: Option<usize> = None;
        let mut d: usize = 0;
        while d < policies.len()
            invariant
                d <= policies@.len(),
                match cutoff {
                    Some(c) => {
                        &&& c < d
                        &&& forall|j: int| 0 <= j < c ==> !(#[trigger] policies@[j] is Truncated)
                        &&& forall|j: int| c <= j < d ==> (#[trigger] policies@[j] is Truncated)
                    },
                    None => forall|j: int|
                        0 <= j < d ==> !(#[trigger] policies@[j] is Truncated),
                },
            decreases policies@.len() - d,
        {
            let truncated: bool = policies[d].is_truncated();
            match cutoff {
                None => {
                    if truncated {
                        cutoff = Some(d);
                    }
                },
                Some(_) => {
                    if !truncated {
                        assert(breaks_at(policies@, d - 1));
                        return Err(
                            InvalidBandPlan::TruncatedNotContiguousTail { at_band: d - 1 },
                        );
                    }
                },
            }
            d = d + 1;
        }
        Ok(BandPlan { policies, cutoff })
    }

    /// Number of bands.
    pub fn len(&self) -> (n: usize)
        ensures
            n == self.policies@.len(),
    {
        self.policies.len()
    }

    /// Whether the plan has no band.
    pub fn is_empty(&self) -> (b: bool)
        ensures
            b == (self.policies@.len() == 0),
    {
        self.policies.len() == 0
    }

    /// The policy of band `d`; none past the plan.
    pub fn policy_of(&self, d: usize) -> (policy: Option<BandPolicy>)
        ensures
            policy == (if d < self.policies@.len() {
                Some(self.policies@[d as int])
            } else {
                None
            }),
    {
        if d < self.policies.len() {
            Some(self.policies[d])
        } else {
            None
        }
    }

    /// Where the truncated tail starts, where the plan was made with one and
    /// truncates a band.
    pub fn cutoff_index(&self) -> (c: Option<usize>)
        ensures
            c == self.cutoff,
    {
        self.cutoff
    }

    /// Number of bands whose coefficients are sent.
    pub fn coded_band_count(&self) -> (n: usize)
        ensures
            n == coded_bands(self.policies@),
    {
        let mut n: usize = 0;
        let mut d: usize = 0;
        while d < self.policies.len()
            invariant
                n <= d <= self.policies@.len(),
                n == picked(self.policies@, d as int, |p: BandPolicy| p is Coded),
            decreases self.policies@.len() - d,
        {
            if self.policies[d].is_coded() {
                n = n + 1;
            }
            d = d + 1;
        }
        n
    }

    /// Number of bands that noise stands in for.
    pub fn noise_band_count(&self) -> (n: usize)
        ensures
            n == noise_bands(self.policies@),
    {
        let mut n: usize = 0;
        let mut d: usize = 0;
        while d < self.policies.len()
            invariant
                n <= d <= self.policies@.len(),
                n == picked(self.policies@, d as int, |p: BandPolicy| p is NoiseSubstituted),
            decreases self.policies@.len() - d,
        {
            if self.policies[d].is_noise_substituted() {
                n = n + 1;
            }
            d = d + 1;
        }
        n
    }

    /// Number of bands for which nothing is sent.
    pub fn truncated_band_count(&self) -> (n: usize)
        ensures
            n == truncated_bands(self.policies@),
    {
        let mut n: usize = 0;
        let mut d: usize = 0;
        while d < self.policies.len()
            invariant
                n <= d <= self.policies@.len(),
                n == picked(self.policies@, d as int, |p: BandPolicy| p is Truncated),
            decreases self.policies@.len() - d,
        {
            if self.policies[d].is_truncated() {
                n = n + 1;
            }
            d = d + 1;
        }
        n
    }
}

proof fn lemma_counts(policies: Seq<BandPolicy>, n: int)
    requires
        0 <= n <= policies.len(),
    ensures
        picked(policies, n, |p: BandPolicy| p is Coded) + picked(
            policies,
            n,
            |p: BandPolicy| p is NoiseSubstituted,
        ) + picked(policies, n, |p: BandPolicy| p is Truncated) == n,
    decreases n,
{
    if n > 0 {
        lemma_counts(policies, n - 1);
    }
}

/// Each band counts once: the three counts add up to the number of bands.
pub proof fn counts_cover_the_plan(policies: Seq<BandPolicy>)
    ensures
        coded_bands(policies) + noise_bands(policies) + truncated_bands(policies) == policies.len(),
{
    lemma_counts(policies, policies.len() as int);
}

/// Another band raises just the count of its own kind, by one.
pub proof fn bands_count_by_their_kind(policies: Seq<BandPolicy>, p: BandPolicy)
    ensures
        coded_bands(policies.push(p)) == coded_bands(policies) + (if p is Coded {
            1int
        } else {
            0
        }),
        noise_bands(policies.push(p)) == noise_bands(policies) + (if p is NoiseSubstituted {
            1int
        } else {
            0
        }),
        truncated_bands(policies.push(p)) == truncated_bands(policies) + (if p is Truncated {
            1int
        } else {
            0
        }),
        coded_bands(Seq::empty()) == 0,
        noise_bands(Seq::empty()) == 0,
        truncated_bands(Seq::empty()) == 0,
{
    let n = policies.len() as int;
    let all = policies.push(p);
    lemma_same_start(policies, all, n, |p: BandPolicy| p is Coded);
    lemma_same_start(policies, all, n, |p: BandPolicy| p is NoiseSubstituted);
    lemma_same_start(policies, all, n, |p: BandPolicy| p is Truncated);
}

proof fn lemma_same_start(
    a: Seq<BandPolicy>,
    b: Seq<BandPolicy>,
    n: int,
    test: spec_fn(BandPolicy) -> bool,
)
    requires
        n <= a.len(),
        n <= b.len(),
        forall|i: int| 0 <= i < n ==> #[trigger] a[i] == b[i],
    ensures
        picked(a, n, test) == picked(b, n, test),
    decreases n,
{
    if n > 0 {
        lemma_same_start(a, b, n - 1, test);
        assert(a[n - 1] == b[n - 1]);
    }
}

} // verus!

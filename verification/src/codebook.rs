//! The run-level codebook: which pairs have a codeword, and which are escaped.
//!
//! A grid holds a probability for each run and level up to two bounds. Pairs at
//! or above a threshold are in the codebook; all others are escaped.
use crate::binary64::{Binary64, ONE};
use crate::runlevel::{NonZeroLevel, RunLevelPair};
use crate::text::{append_decimal, decimal};
use vstd::prelude::*;
use vstd::string::*;

verus! {

/// A probability for each pair of a run and a level, and the least one that
/// earns a codeword.
#[derive(Debug, Clone, PartialEq, Eq)]
pub struct CodebookGrid {
    rm: u32,
    ln: u32,
    threshold: Binary64,
    probabilities: Vec<Binary64>,
}

/// Whether a number is a probability.
pub open spec fn is_probability(p: Binary64) -> bool {
    (Binary64 { bits: 0 }).at_most(p) && p.at_most(Binary64 { bits: ONE })
}

/// Whether a number is a probability.
fn probable(p: Binary64) -> (b: bool)
    ensures
        b == is_probability(p),
{
    Binary64::from_bits(0).le(p) && p.le(Binary64::from_bits(ONE))
}

/// Whether `i` is the first place that holds no probability.
pub open spec fn first_improbable(probabilities: Seq<Binary64>, i: int) -> bool {
    &&& 0 <= i < probabilities.len()
    &&& !is_probability(probabilities[i])
    &&& forall|j: int| 0 <= j < i ==> is_probability(#[trigger] probabilities[j])
}

impl CodebookGrid {
    /// Greatest run of the grid.
    pub closed spec fn runs(&self) -> nat {
        self.rm as nat
    }

    /// Greatest level of the grid.
    pub closed spec fn levels(&self) -> nat {
        self.ln as nat
    }

    /// The least probability of a pair in the codebook.
    pub closed spec fn cutoff(&self) -> Binary64 {
        self.threshold
    }

    /// The probabilities: all levels of the first run, then of the next.
    pub closed spec fn cells(&self) -> Seq<Binary64> {
        self.probabilities@
    }

    /// The invariant.
    pub open spec fn wf(&self) -> bool {
        &&& 0 < self.runs() <= u32::MAX
        &&& 0 < self.levels() <= u32::MAX
        &&& is_probability(self.cutoff())
        &&& self.cells().len() == self.runs() * self.levels()
        &&& self.cells().len() <= usize::MAX
        &&& forall|i: int|
            0 <= i < self.cells().len() ==> is_probability(#[trigger] self.cells()[i])
    }

    /// Whether the grid holds a probability for the pair.
    pub open spec fn holds(&self, run: int, level: int) -> bool {
        1 <= run <= self.runs() && 1 <= level <= self.levels()
    }

    /// The probability of a pair that the grid holds.
    pub open spec fn cell(&self, run: int, level: int) -> Binary64 {
        self.cells()[(run - 1) * self.levels() + (level - 1)]
    }

    /// Whether the pair is in the codebook.
    pub open spec fn in_book(&self, run: int, level: int) -> bool {
        self.holds(run, level) && self.cutoff().at_most(self.cell(run, level))
    }

    /// The run and the level of place `i`.
    pub open spec fn pair_at(&self, i: int) -> (int, int) {
        (i / self.levels() as int + 1, i % self.levels() as int + 1)
    }

    /// The pairs in the codebook among the first `n` places, in order.
    pub open spec fn listed(&self, n: int) -> Seq<(int, int)>
        decreases n,
    {
        if n <= 0 {
            seq![]
        } else if self.cutoff().at_most(self.cells()[n - 1]) {
            self.listed(n - 1).push(self.pair_at(n - 1))
        } else {
            self.listed(n - 1)
        }
    }

    /// The grid with `rm` runs, `ln` levels and the given probabilities, those of
    /// one run after another.
    pub fn from_probabilities(
        rm: u32,
        ln: u32,
        threshold: Binary64,
        probabilities: Vec<Binary64>,
    ) -> (grid: Result<Self, InvalidGrid>)
        ensures
            match grid {
                Ok(g) => {
                    &&& g.wf()
                    &&& g.runs() == rm
                    &&& g.levels() == ln
                    &&& g.cutoff() == threshold
                    &&& g.cells() == probabilities@
                },
                Err(InvalidGrid::ZeroRm) => rm == 0,
                Err(InvalidGrid::ZeroLn) => rm > 0 && ln == 0,
                Err(InvalidGrid::ThresholdOutOfRange { threshold: t }) => {
                    &&& rm > 0
                    &&& ln > 0
                    &&& t == threshold
                    &&& !is_probability(threshold)
                },
                Err(InvalidGrid::DimensionsOverflow { rm: r, ln: l }) => {
                    &&& r == rm
                    &&& l == ln
                    &&& is_probability(threshold)
                    &&& rm * ln > usize::MAX
                },
                Err(InvalidGrid::ProbabilityLengthMismatch { expected, got }) => {
                    &&& is_probability(threshold)
                    &&& rm > 0
                    &&& ln > 0
                    &&& expected == rm * ln
                    &&& got == probabilities@.len()
                    &&& expected != got
                },
                Err(InvalidGrid::ProbabilityOutOfRange { probability }) => {
                    &&& is_probability(threshold)
                    &&& rm > 0
                    &&& ln > 0
                    &&& probabilities@.len() == rm * ln
                    &&& exists|i: int| #[trigger]
                        first_improbable(probabilities@, i) && probability == probabilities@[i]
                },
            },
    {
        if rm == 0 {
            return Err(InvalidGrid::ZeroRm);
        }
        if ln == 0 {
            return Err(InvalidGrid::ZeroLn);
        }
        if !probable(threshold) {
            return Err(InvalidGrid::ThresholdOutOfRange { threshold });
        }
        let expected: usize = match (rm as usize).checked_mul(ln as usize) {
            Some(n) => n,
            None => {
                return Err(InvalidGrid::DimensionsOverflow { rm, ln });
            },
        };
        if probabilities.len() != expected {
            return Err(
                InvalidGrid::ProbabilityLengthMismatch { expected, got: probabilities.len() },
            );
        }
        let mut i: usize = 0;
        while i < expected
            invariant
                rm > 0,
                ln > 0,
                is_probability(threshold),
                expected == rm * ln,
                probabilities@.len() == expected,
                i <= expected,
                forall|j: int| 0 <= j < i ==> is_probability(#[trigger] probabilities@[j]),
            decreases expected - i,
        {
            if !probable(probabilities[i]) {
                assert(first_improbable(probabilities@, i as int));
                return Err(InvalidGrid::ProbabilityOutOfRange { probability: probabilities[i] });
            }
            i = i + 1;
        }
        Ok(CodebookGrid { rm, ln, threshold, probabilities })
    }

    /// Greatest run of the grid.
    pub fn rm(&self) -> (n: u32)
        ensures
            n == self.runs(),
    {
        self.rm
    }

    /// Greatest level of the grid.
    pub fn ln(&self) -> (n: u32)
        ensures
            n == self.levels(),
    {
        self.ln
    }

    /// The least probability of a pair in the codebook.
    pub fn threshold(&self) -> (p: Binary64)
        ensures
            p == self.cutoff(),
    {
        self.threshold
    }

    /// The probability of a pair; none where the grid does not hold the pair.
    pub fn probability_of(&self, run: u32, level: u32) -> (p: Option<Binary64>)
        requires
            self.wf(),
        ensures
            p == (if self.holds(run as int, level as int) {
                Some(self.cell(run as int, level as int))
            } else {
                None
            }),
    {
        if run == 0 || level == 0 || run > self.rm || level > self.ln {
            return None;
        }
        proof {
            lemma_place(self.rm as int, self.ln as int, run as int, level as int);
        }
        let place: usize = (run as usize - 1) * (self.ln as usize) + (level as usize - 1);
        Some(self.probabilities[place])
    }

    /// Whether a pair has a codeword or is escaped.
    pub fn disposition(&self, pair: RunLevelPair) -> (d: Disposition)
        requires
            self.wf(),
        ensures
            d == (if self.in_book(pair.run as int, pair.level.number() as int) {
                Disposition::InCodebook
            } else {
                Disposition::Escape
            }),
    {
        match self.probability_of(pair.run, pair.level.get()) {
            Some(p) => if self.threshold.le(p) {
                Disposition::InCodebook
            } else {
                Disposition::Escape
            },
            None => Disposition::Escape,
        }
    }

    /// Whether a pair has a codeword.
    pub fn is_in_codebook(&self, pair: RunLevelPair) -> (b: bool)
        requires
            self.wf(),
        ensures
            b == self.in_book(pair.run as int, pair.level.number() as int),
    {
        self.disposition(pair).is_in_codebook()
    }

    /// Whether a pair is escaped.
    pub fn is_escape(&self, pair: RunLevelPair) -> (b: bool)
        requires
            self.wf(),
        ensures
            b == !self.in_book(pair.run as int, pair.level.number() as int),
    {
        self.disposition(pair).is_escape()
    }

    /// Number of pairs in the codebook.
    pub fn in_codebook_count(&self) -> (n: usize)
        requires
            self.wf(),
        ensures
            n == self.listed(self.cells().len() as int).len(),
    {
        let mut n: usize = 0;
        let mut i: usize = 0;
        while i < self.probabilities.len()
            invariant
                i <= self.probabilities@.len(),
                n == self.listed(i as int).len(),
                n <= i,
            decreases self.probabilities@.len() - i,
        {
            if self.threshold.le(self.probabilities[i]) {
                n = n + 1;
            }
            i = i + 1;
        }
        n
    }

    /// Number of pairs that the grid holds and the codebook does not.
    pub fn escape_count_in_rectangle(&self) -> (n: usize)
        requires
            self.wf(),
        ensures
            n == self.runs() * self.levels() - self.listed(self.cells().len() as int).len(),
    {
        let inside: usize = self.in_codebook_count();
        proof {
            lemma_listed_len(*self, self.cells().len() as int);
        }
        self.probabilities.len() - inside
    }

    /// The pairs in the codebook: by run, then by level.
    pub fn in_codebook_pairs(&self) -> (pairs: Vec<RunLevelPair>)
        requires
            self.wf(),
        ensures
            pairs@.len() == self.listed(self.cells().len() as int).len(),
            forall|i: int|
                0 <= i < pairs@.len() ==> (#[trigger] pairs@[i]).level.wf() && (
                    pairs@[i].run as int,
                    pairs@[i].level.number() as int,
                ) == self.listed(self.cells().len() as int)[i],
    {
        let mut pairs: Vec<RunLevelPair> = Vec::new();
        let mut i: usize = 0;
        while i < self.probabilities.len()
            invariant
                self.wf(),
                i <= self.probabilities@.len(),
                pairs@.len() == self.listed(i as int).len(),
                forall|k: int|
                    0 <= k < pairs@.len() ==> (#[trigger] pairs@[k]).level.wf() && (
                        pairs@[k].run as int,
                        pairs@[k].level.number() as int,
                    ) == self.listed(i as int)[k],
            decreases self.probabilities@.len() - i,
        {
            proof {
                lemma_split(self.rm as int, self.ln as int, i as int);
            }
            if self.threshold.le(self.probabilities[i]) {
                let run: u32 = (i / self.ln as usize) as u32 + 1;
                let level: u32 = (i % self.ln as usize) as u32 + 1;
                match NonZeroLevel::new(level) {
                    Some(level) => {
                        pairs.push(RunLevelPair { run, level });
                    },
                    None => {},
                }
            }
            i = i + 1;
        }
        pairs
    }
}

proof fn lemma_place(rm: int, ln: int, run: int, level: int)
    requires
        1 <= run <= rm,
        1 <= level <= ln,
    ensures
        0 <= (run - 1) * ln,
        0 <= (run - 1) * ln + (level - 1) < rm * ln,
{
    assert((run - 1) * ln >= 0) by (nonlinear_arith)
        requires
            run >= 1,
            ln >= 1,
    ;
    assert(run * ln <= rm * ln) by (nonlinear_arith)
        requires
            run <= rm,
            ln >= 1,
    ;
    assert((run - 1) * ln == run * ln - ln) by (nonlinear_arith);
}

proof fn lemma_split(rm: int, ln: int, i: int)
    requires
        0 <= i < rm * ln,
        ln > 0,
    ensures
        0 <= i / ln < rm,
        0 <= i % ln < ln,
        (i / ln) * ln + i % ln == i,
{
    vstd::arithmetic::div_mod::lemma_fundamental_div_mod(i, ln);
    vstd::arithmetic::div_mod::lemma_div_pos_is_pos(i, ln);
    vstd::arithmetic::mul::lemma_mul_is_commutative(ln, i / ln);
    assert(i / ln < rm) by (nonlinear_arith)
        requires
            (i / ln) * ln <= i,
            i < rm * ln,
            ln > 0,
    ;
}

proof fn lemma_listed_len(grid: CodebookGrid, n: int)
    ensures
        grid.listed(n).len() <= (if n < 0 { 0 } else { n }),
    decreases n,
{
    if n > 0 {
        lemma_listed_len(grid, n - 1);
    }
}

proof fn lemma_listed_contains(grid: CodebookGrid, n: int, i: int)
    requires
        0 <= i < n,
        grid.cutoff().at_most(grid.cells()[i]),
    ensures
        grid.listed(n).contains(grid.pair_at(i)),
    decreases n,
{
    let prior = grid.listed(n - 1);
    if i == n - 1 {
        assert(grid.listed(n)[prior.len() as int] == grid.pair_at(i));
    } else {
        lemma_listed_contains(grid, n - 1, i);
        let k = choose|k: int| 0 <= k < prior.len() && prior[k] == grid.pair_at(i);
        assert(grid.listed(n)[k] == grid.pair_at(i));
    }
}

proof fn lemma_listed_from(grid: CodebookGrid, n: int, pair: (int, int)) -> (i: int)
    requires
        grid.listed(n).contains(pair),
    ensures
        0 <= i < n,
        grid.cutoff().at_most(grid.cells()[i]),
        grid.pair_at(i) == pair,
    decreases n,
{
    let k = choose|k: int| 0 <= k < grid.listed(n).len() && grid.listed(n)[k] == pair;
    let prior = grid.listed(n - 1);
    if grid.cutoff().at_most(grid.cells()[n - 1]) && k == prior.len() {
        n - 1
    } else {
        assert(prior[k] == pair);
        lemma_listed_from(grid, n - 1, pair)
    }
}

/// The listed pairs are exactly those in the codebook.
pub proof fn listed_pairs_are_the_codebook(grid: CodebookGrid, run: int, level: int)
    requires
        grid.wf(),
    ensures
        grid.listed(grid.cells().len() as int).contains((run, level)) <==> grid.in_book(run, level),
{
    let n = grid.cells().len() as int;
    let ln = grid.levels() as int;
    let rm = grid.runs() as int;
    if grid.in_book(run, level) {
        lemma_place(rm, ln, run, level);
        let i = (run - 1) * ln + (level - 1);
        vstd::arithmetic::div_mod::lemma_fundamental_div_mod_converse(i, ln, run - 1, level - 1);
        lemma_listed_contains(grid, n, i);
    }
    if grid.listed(n).contains((run, level)) {
        let i = lemma_listed_from(grid, n, (run, level));
        lemma_split(rm, ln, i);
    }
}

/// No pair is listed twice: the places that the listed pairs come from ascend.
pub proof fn listed_pairs_ascend(grid: CodebookGrid, n: int, a: int, b: int)
    requires
        grid.wf(),
        n <= grid.cells().len(),
        0 <= a < b < grid.listed(n).len(),
    ensures
        grid.listed(n)[a].0 <= grid.listed(n)[b].0,
        grid.listed(n)[a].0 == grid.listed(n)[b].0 ==> grid.listed(n)[a].1 < grid.listed(n)[b].1,
    decreases n,
{
    let prior = grid.listed(n - 1);
    if b < prior.len() {
        listed_pairs_ascend(grid, n - 1, a, b);
    } else {
        assert(prior.contains(prior[a]));
        let i = lemma_listed_from(grid, n - 1, prior[a]);
        let j = n - 1;
        let ln = grid.levels() as int;
        vstd::arithmetic::div_mod::lemma_div_is_ordered(i, j, ln);
        vstd::arithmetic::div_mod::lemma_fundamental_div_mod(i, ln);
        vstd::arithmetic::div_mod::lemma_fundamental_div_mod(j, ln);
    }
}

/// What the entropy stage does with a pair.
#[derive(Debug, Clone, Copy, PartialEq, Eq, Hash, Structural)]
pub enum Disposition {
    /// The pair has a codeword.
    InCodebook,
    /// The pair is escaped.
    Escape,
}

impl Disposition {
    /// Whether the pair has a codeword.
    pub fn is_in_codebook(self) -> (b: bool)
        ensures
            b == (self is InCodebook),
    {
        matches!(self, Disposition::InCodebook)
    }

    /// Whether the pair is escaped.
    pub fn is_escape(self) -> (b: bool)
        ensures
            b == (self is Escape),
    {
        matches!(self, Disposition::Escape)
    }
}

/// Why a grid could not be made.
#[derive(Debug, Clone, Copy, PartialEq, Eq, Structural)]
pub enum InvalidGrid {
    /// The grid has no run.
    ZeroRm,
    /// The grid has no level.
    ZeroLn,
    /// The threshold is no probability.
    ThresholdOutOfRange {
        /// The threshold.
        threshold: Binary64,
    },
    /// The grid has more places than a list can hold.
    DimensionsOverflow {
        /// Greatest run.
        rm: u32,
        /// Greatest level.
        ln: u32,
    },
    /// The number of probabilities is not the number of places.
    ProbabilityLengthMismatch {
        /// Number of places.
        expected: usize,
        /// Number of probabilities.
        got: usize,
    },
    /// One of the probabilities is none.
    ProbabilityOutOfRange {
        /// The first such.
        probability: Binary64,
    },
}

impl InvalidGrid {
    /// The number that the error shows.
    pub open spec fn number(self) -> Option<Binary64> {
        match self {
            InvalidGrid::ThresholdOutOfRange { threshold } => Some(threshold),
            InvalidGrid::ProbabilityOutOfRange { probability } => Some(probability),
            _ => None,
        }
    }

    /// What `message` says, where `numeral` is how the number that the error shows reads
    /// in decimal.
    pub open spec fn text(self, numeral: Seq<char>) -> Seq<char> {
        match self {
            InvalidGrid::ZeroRm =>
                "oxideav-wma::codebook: rm == 0; the patent's run range is {1..Rm} with Rm >= 1"@,
            InvalidGrid::ZeroLn =>
                "oxideav-wma::codebook: ln == 0; the patent's level range is {1..Ln} with Ln >= 1"@,
            InvalidGrid::ThresholdOutOfRange { threshold: _ } =>
                "oxideav-wma::codebook: threshold "@ + numeral
                    + " is not a probability in [0.0, 1.0]"@,
            InvalidGrid::DimensionsOverflow { rm, ln } => "oxideav-wma::codebook: rm ("@ + decimal(
                rm as nat,
            ) + ") * ln ("@ + decimal(ln as nat) + ") overflows usize"@,
            InvalidGrid::ProbabilityLengthMismatch { expected, got } =>
                "oxideav-wma::codebook: probability slice length mismatch (expected "@ + decimal(
                expected as nat,
            ) + " entries, got "@ + decimal(got as nat) + ")"@,
            InvalidGrid::ProbabilityOutOfRange { probability: _ } =>
                "oxideav-wma::codebook: probability "@ + numeral + " is not in [0.0, 1.0]"@,
        }
    }

    /// The number that the error shows.
    pub fn shown_number(self) -> (number: Option<Binary64>)
        ensures
            number == self.number(),
    {
        match self {
            InvalidGrid::ThresholdOutOfRange { threshold } => Some(threshold),
            InvalidGrid::ProbabilityOutOfRange { probability } => Some(probability),
            _ => None,
        }
    }

    /// A description for people. `numeral` is how the number that `shown_number` gives
    /// reads in decimal; where there is none it is left unused.
    pub fn message(self, numeral: &str) -> (s: String)
        ensures
            s@ == self.text(numeral@),
    {
        match self {
            InvalidGrid::ZeroRm => String::from_str(
                "oxideav-wma::codebook: rm == 0; the patent's run range is {1..Rm} with Rm >= 1",
            ),
            InvalidGrid::ZeroLn => String::from_str(
                "oxideav-wma::codebook: ln == 0; the patent's level range is {1..Ln} with Ln >= 1",
            ),
            InvalidGrid::ThresholdOutOfRange { threshold: _ } => {
                let mut s = String::from_str("oxideav-wma::codebook: threshold ");
                s.append(numeral);
                s.append(" is not a probability in [0.0, 1.0]");
                s
            },
            InvalidGrid::DimensionsOverflow { rm, ln } => {
                let mut s = String::from_str("oxideav-wma::codebook: rm (");
                append_decimal(&mut s, rm as u64);
                s.append(") * ln (");
                append_decimal(&mut s, ln as u64);
                s.append(") overflows usize");
                s
            },
            InvalidGrid::ProbabilityLengthMismatch { expected, got } => {
                let mut s = String::from_str(
                    "oxideav-wma::codebook: probability slice length mismatch (expected ",
                );
                append_decimal(&mut s, expected as u64);
                s.append(" entries, got ");
                append_decimal(&mut s, got as u64);
                s.append(")");
                s
            },
            InvalidGrid::ProbabilityOutOfRange { probability: _ } => {
                let mut s = String::from_str("oxideav-wma::codebook: probability ");
                s.append(numeral);
                s.append(" is not in [0.0, 1.0]");
                s
            },
        }
    }
}

/// The probabilities are listed run by run, and in each run by level: the first is that of
/// run one and level one, the next that of the next level, and as many places on as there
/// are levels that of the next run.
pub proof fn cells_are_listed_run_by_run(grid: CodebookGrid, i: int)
    requires
        grid.wf(),
        0 <= i < grid.cells().len(),
    ensures
        grid.holds(grid.pair_at(i).0, grid.pair_at(i).1),
        grid.cell(grid.pair_at(i).0, grid.pair_at(i).1) == grid.cells()[i],
        grid.pair_at(0) == (1int, 1int),
        grid.pair_at(i).1 < grid.levels() ==> grid.pair_at(i + 1) == (
            grid.pair_at(i).0,
            grid.pair_at(i).1 + 1,
        ),
        grid.pair_at(i).1 == grid.levels() ==> grid.pair_at(i + 1) == (
            grid.pair_at(i).0 + 1,
            1int,
        ),
        grid.pair_at(i + grid.levels()) == (grid.pair_at(i).0 + 1, grid.pair_at(i).1),
{
    let ln = grid.levels() as int;
    let rm = grid.runs() as int;
    lemma_split(rm, ln, i);
    vstd::arithmetic::div_mod::lemma_basic_div(0, ln);
    vstd::arithmetic::div_mod::lemma_small_mod(0, ln as nat);
    let q = i / ln;
    let r = i % ln;
    assert((q + 1) * ln + r == i + ln) by (nonlinear_arith)
        requires
            q * ln + r == i,
    ;
    assert(ln * (q + 1) == (q + 1) * ln) by (nonlinear_arith);
    vstd::arithmetic::div_mod::lemma_fundamental_div_mod_converse(i + ln, ln, q + 1, r);
    if r + 1 < ln {
        assert(ln * q == q * ln) by (nonlinear_arith);
        vstd::arithmetic::div_mod::lemma_fundamental_div_mod_converse(i + 1, ln, q, r + 1);
    } else {
        vstd::arithmetic::div_mod::lemma_fundamental_div_mod_converse(i + 1, ln, q + 1, 0);
    }
}

/// A pair as probable as the cutoff is in the codebook, one less probable is not, and
/// neither is one that the grid does not hold.
pub proof fn cutoff_is_inclusive(grid: CodebookGrid, run: int, level: int)
    requires
        grid.wf(),
    ensures
        grid.holds(run, level) && grid.cell(run, level) == grid.cutoff() ==> grid.in_book(
            run,
            level,
        ),
        grid.cell(run, level).below(grid.cutoff()) ==> !grid.in_book(run, level),
        run < 1 || run > grid.runs() || level < 1 || level > grid.levels() ==> !grid.in_book(
            run,
            level,
        ),
{
}

/// Zero and one are probabilities, and so is every number between two of them. No number
/// below zero or above one is, nor a pattern that stands for no number.
pub proof fn probabilities_run_from_zero_to_one(a: Binary64, b: Binary64, p: Binary64)
    ensures
        is_probability(Binary64 { bits: 0 }),
        is_probability(Binary64 { bits: 0x3FF0_0000_0000_0000 }),
        is_probability(a) && is_probability(b) && a.at_most(p) && p.at_most(b) ==> is_probability(p),
        p.below(Binary64 { bits: 0 }) ==> !is_probability(p),
        (Binary64 { bits: 0x3FF0_0000_0000_0000 }).below(p) ==> !is_probability(p),
        p.nan() ==> !is_probability(p),
{
}

} // verus!

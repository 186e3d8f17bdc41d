//! The search for the indices of a line-spectral envelope.
//!
//! An envelope is named by ten codebook indices. The search starts from given
//! indices and tries neighbours of one index at a time, keeping a trial where its
//! envelope lies nearer to the target. How far an envelope lies from the target
//! is computed in floating point outside the library, one trial at a time.
use crate::binary64::Binary64;
use vstd::arithmetic::power2::{lemma2_to64, lemma_pow2_pos, lemma_pow2_strictly_increases, pow2};
use vstd::prelude::*;

verus! {

/// Number of indices.
pub const LSP_ORDER: usize = 10;

/// Passes over the indices.
pub const PASSES: u8 = 3;

/// Whether the widths of the indices can be used: none over eight bits.
pub open spec fn widths_ok(widths: Seq<u8>) -> bool {
    widths.len() == LSP_ORDER && forall|i: int| 0 <= i < LSP_ORDER ==> #[trigger] widths[i] <= 8
}

/// Number of entries that an index of `width` bits reaches.
pub open spec fn reachable(width: u8) -> nat {
    pow2(width as nat)
}

/// Number of entries that an index of `width` bits reaches.
pub fn reach(width: u8) -> (n: usize)
    requires
        width <= 8,
    ensures
        n == reachable(width),
        1 <= n <= 256,
{
    proof {
        lemma2_to64();
        lemma_pow2_pos(width as nat);
        if width < 8 {
            lemma_pow2_strictly_increases(width as nat, 8);
        }
        vstd::bits::lemma_usize_shl_is_mul(1, width as usize);
    }
    1usize << (width as usize)
}

/// The indices from which the search starts where nothing better is known: each
/// in the middle of its reach.
pub fn default_indices(widths: &[u8; LSP_ORDER]) -> (indices: [u8; LSP_ORDER])
    requires
        widths_ok(widths@),
    ensures
        forall|i: int|
            0 <= i < LSP_ORDER ==> #[trigger] indices@[i] == reachable(widths@[i]) / 2,
{
    let mut indices: [u8; LSP_ORDER] = [0; LSP_ORDER];
    let mut i: usize = 0;
    while i < LSP_ORDER
        invariant
            i <= LSP_ORDER,
            widths_ok(widths@),
            forall|j: int| 0 <= j < i ==> #[trigger] indices@[j] == reachable(widths@[j]) / 2,
        decreases LSP_ORDER - i,
    {
        let half: usize = reach(widths[i]) / 2;
        indices[i] = half as u8;
        i = i + 1;
    }
    indices
}

/// The nearest of the first `n` entries: a later entry only where it is strictly
/// nearer. A distance that is no number is nearer than nothing.
pub open spec fn nearest_of(distances: Seq<Binary64>, n: int) -> int
    decreases n,
{
    if n <= 1 {
        0
    } else {
        let best = nearest_of(distances, n - 1);
        if distances[n - 1].below(distances[best]) {
            n - 1
        } else {
            best
        }
    }
}

/// The entry of a codebook row at the least distance, the first of equals.
pub fn quantise_row(distances: &[Binary64]) -> (entry: usize)
    ensures
        entry == nearest_of(distances@, distances@.len() as int),
        distances@.len() > 0 ==> entry < distances@.len(),
{
    let mut best: usize = 0;
    let mut n: usize = 1;
    while n < distances.len()
        invariant
            1 <= n,
            distances@.len() > 0 ==> n <= distances@.len() && best < n,
            distances@.len() == 0 ==> best == 0,
            best == nearest_of(distances@, if distances@.len() == 0 {
                0
            } else {
                n as int
            }),
        decreases distances@.len() - n,
    {
        if distances[n].lt(distances[best]) {
            best = n;
        }
        n = n + 1;
    }
    best
}

/// Among numbers, the nearest entry is the first at the least distance.
pub proof fn nearest_is_first_minimum(distances: Seq<Binary64>, n: int, j: int)
    requires
        0 <= j < n <= distances.len(),
        forall|i: int| 0 <= i < n ==> !(#[trigger] distances[i]).nan(),
    ensures
        0 <= nearest_of(distances, n) < n,
        distances[nearest_of(distances, n)].at_most(distances[j]),
        j < nearest_of(distances, n) ==> distances[nearest_of(distances, n)].below(distances[j]),
    decreases n,
{
    assert(!distances[n - 1].nan());
    assert(!distances[j].nan());
    if n > 1 {
        let prior = nearest_of(distances, n - 1);
        if j < n - 1 {
            nearest_is_first_minimum(distances, n - 1, j);
        } else {
            nearest_is_first_minimum(distances, n - 1, 0);
        }
        assert(!distances[prior].nan());
    }
}

/// The bins that count: those of `coded_lo..coded_hi` that a target of `n` bins
/// has.
pub fn coded_bins(n: usize, coded_lo: usize, coded_hi: usize) -> (range: (usize, usize))
    ensures
        range.1 == (if coded_hi <= n {
            coded_hi
        } else {
            n
        }),
        range.0 == (if coded_lo <= range.1 {
            coded_lo
        } else {
            range.1
        }),
        range.0 <= range.1 <= n,
{
    let hi: usize = if coded_hi <= n {
        coded_hi
    } else {
        n
    };
    let lo: usize = if coded_lo <= hi {
        coded_lo
    } else {
        hi
    };
    (lo, hi)
}

/// Where a search stands.
pub struct Standing {
    /// The best indices so far.
    pub best: Seq<u8>,
    /// Their distance.
    pub distance: Binary64,
    /// Passes done.
    pub pass: int,
    /// The index being varied.
    pub row: int,
    /// Its value when its turn came.
    pub centre: int,
    /// The variation being tried, of four.
    pub variation: int,
    /// Whether this pass has kept a trial.
    pub improved: bool,
}

/// How far each variation moves an index.
pub open spec fn offset(variation: int) -> int {
    if variation == 0 {
        -2
    } else if variation == 1 {
        -1
    } else if variation == 2 {
        1
    } else {
        2
    }
}

impl Standing {
    /// Whether the search is over.
    pub open spec fn done(self) -> bool {
        self.pass >= PASSES
    }

    /// The value that the varied index would take.
    pub open spec fn candidate(self) -> int {
        self.centre + offset(self.variation)
    }

    /// Whether the varied index can take that value.
    pub open spec fn in_reach(self, widths: Seq<u8>) -> bool {
        0 <= self.candidate() < reachable(widths[self.row])
    }

    /// The indices to try.
    pub open spec fn trial(self) -> Seq<u8> {
        self.best.update(self.row, self.candidate() as u8)
    }

    /// Keep the trial where it is nearer.
    pub open spec fn judged(self, distance: Binary64) -> Standing {
        if distance.below(self.distance) {
            Standing { best: self.trial(), distance, improved: true, ..self }
        } else {
            self
        }
    }

    /// The next variation: of this index, else of the next, else of the first in
    /// a further pass, if this one kept a trial and passes are left.
    pub open spec fn moved(self) -> Standing {
        if self.variation < 3 {
            Standing { variation: self.variation + 1, ..self }
        } else if self.row < LSP_ORDER - 1 {
            Standing {
                row: self.row + 1,
                centre: self.best[self.row + 1] as int,
                variation: 0,
                ..self
            }
        } else if self.improved && self.pass < PASSES - 1 {
            Standing {
                pass: self.pass + 1,
                row: 0,
                centre: self.best[0] as int,
                variation: 0,
                improved: false,
                ..self
            }
        } else {
            Standing { pass: PASSES as int, ..self }
        }
    }

    /// Variations that are left at most.
    pub open spec fn left(self) -> nat {
        if self.done() {
            0
        } else {
            ((PASSES - self.pass) * 40 - self.row * 4 - self.variation) as nat
        }
    }

    /// Whether the counters are in range.
    pub open spec fn placed(self) -> bool {
        &&& self.best.len() == LSP_ORDER
        &&& 0 <= self.pass <= PASSES
        &&& 0 <= self.row < LSP_ORDER
        &&& 0 <= self.variation < 4
        &&& 0 <= self.centre <= 255
    }

    /// The standing with the variations out of reach passed over.
    pub open spec fn settled(self, widths: Seq<u8>) -> Standing
        decreases self.left(),
    {
        if !self.placed() || self.done() || self.in_reach(widths) {
            self
        } else {
            self.moved().settled(widths)
        }
    }

    /// What the search ends with, for distances given by `f`.
    pub open spec fn outcome(self, widths: Seq<u8>, f: spec_fn(Seq<u8>) -> Binary64) -> Seq<u8>
        decreases self.left(),
    {
        if !self.placed() || self.done() {
            self.best
        } else if self.in_reach(widths) {
            self.judged(f(self.trial())).moved().outcome(widths, f)
        } else {
            self.moved().outcome(widths, f)
        }
    }
}

/// Where a search over `start` begins.
pub open spec fn begun(start: Seq<u8>, distance: Binary64) -> Standing {
    Standing {
        best: start,
        distance,
        pass: 0,
        row: 0,
        centre: start[0] as int,
        variation: 0,
        improved: false,
    }
}

/// Whether each index is within its reach.
pub open spec fn within_reach(indices: Seq<u8>, widths: Seq<u8>) -> bool {
    &&& indices.len() == LSP_ORDER
    &&& forall|i: int| 0 <= i < LSP_ORDER ==> (#[trigger] indices[i]) < reachable(widths[i])
}

/// A search under way: it gives a trial at a time and takes the trial's distance.
#[derive(Debug, Clone, Copy, PartialEq, Eq)]
pub struct LspSearch {
    widths: [u8; LSP_ORDER],
    best: [u8; LSP_ORDER],
    distance: Binary64,
    pass: u8,
    row: usize,
    centre: u8,
    variation: u8,
    improved: bool,
}

impl LspSearch {
    /// Where the search stands.
    pub closed spec fn standing(&self) -> Standing {
        Standing {
            best: self.best@,
            distance: self.distance,
            pass: self.pass as int,
            row: self.row as int,
            centre: self.centre as int,
            variation: self.variation as int,
            improved: self.improved,
        }
    }

    /// The widths of the indices.
    pub closed spec fn bits(&self) -> Seq<u8> {
        self.widths@
    }

    /// The invariant: the search is over or its trial is in reach, and so are the
    /// best indices.
    pub open spec fn wf(&self) -> bool {
        &&& widths_ok(self.bits())
        &&& self.standing().placed()
        &&& within_reach(self.standing().best, self.bits())
        &&& self.standing().done() || self.standing().in_reach(self.bits())
    }

    /// The search from `start`, whose distance is given.
    pub fn new(widths: [u8; LSP_ORDER], start: [u8; LSP_ORDER], distance: Binary64) -> (search: Self)
        requires
            widths_ok(widths@),
            within_reach(start@, widths@),
        ensures
            search.wf(),
            search.bits() == widths@,
            search.standing() == begun(start@, distance).settled(widths@),
    {
        let mut search = LspSearch {
            widths,
            best: start,
            distance,
            pass: 0,
            row: 0,
            centre: start[0],
            variation: 0,
            improved: false,
        };
        assert(search.standing() == begun(start@, distance));
        search.settle();
        search
    }

    /// Pass over the variations out of reach.
    fn settle(&mut self)
        requires
            widths_ok(old(self).bits()),
            old(self).standing().placed(),
            within_reach(old(self).standing().best, old(self).bits()),
        ensures
            final(self).wf(),
            final(self).bits() == old(self).bits(),
            final(self).standing() == old(self).standing().settled(old(self).bits()),
    {
        let ghost goal = self.standing().settled(self.bits());
        let mut landed: bool = false;
        while !landed
            invariant
                widths_ok(self.bits()),
                self.bits() == old(self).bits(),
                self.standing().placed(),
                within_reach(self.standing().best, self.bits()),
                self.standing().settled(self.bits()) == goal,
                goal == old(self).standing().settled(old(self).bits()),
                landed ==> self.standing().done() || self.standing().in_reach(self.bits()),
            decreases self.standing().left(), (if landed { 0int } else { 1int }),
        {
            if self.pass >= PASSES || self.reachable_now() {
                landed = true;
            } else {
                self.step();
            }
        }
    }

    /// Whether the trial is in reach.
    fn reachable_now(&self) -> (b: bool)
        requires
            widths_ok(self.bits()),
            self.standing().placed(),
        ensures
            b == self.standing().in_reach(self.bits()),
    {
        let limit: usize = reach(self.widths[self.row]);
        let centre: usize = self.centre as usize;
        if self.variation == 0 {
            centre >= 2 && centre - 2 < limit
        } else if self.variation == 1 {
            centre >= 1 && centre - 1 < limit
        } else if self.variation == 2 {
            centre + 1 < limit
        } else {
            centre + 2 < limit
        }
    }

    /// Go on to the next variation.
    fn step(&mut self)
        requires
            widths_ok(old(self).bits()),
            old(self).standing().placed(),
            !old(self).standing().done(),
        ensures
            final(self).bits() == old(self).bits(),
            final(self).standing() == old(self).standing().moved(),
            final(self).standing().placed(),
            final(self).standing().left() < old(self).standing().left(),
    {
        if self.variation < 3 {
            self.variation = self.variation + 1;
        } else if self.row < LSP_ORDER - 1 {
            self.row = self.row + 1;
            self.centre = self.best[self.row];
            self.variation = 0;
        } else if self.improved && self.pass < PASSES - 1 {
            self.pass = self.pass + 1;
            self.row = 0;
            self.centre = self.best[0];
            self.variation = 0;
            self.improved = false;
        } else {
            self.pass = PASSES;
        }
    }

    /// The indices whose distance is wanted next; none where the search is over.
    pub fn trial(&self) -> (trial: Option<[u8; LSP_ORDER]>)
        requires
            self.wf(),
        ensures
            match trial {
                Some(t) => !self.standing().done() && t@ == self.standing().trial(),
                None => self.standing().done(),
            },
    {
        if self.pass >= PASSES {
            return None;
        }
        proof {
            lemma_reach_bound(self.bits()[self.row as int]);
        }
        let mut trial: [u8; LSP_ORDER] = self.best;
        trial[self.row] = self.value();
        Some(trial)
    }

    /// The value that the varied index would take.
    fn value(&self) -> (v: u8)
        requires
            self.wf(),
            !self.standing().done(),
        ensures
            v == self.standing().candidate(),
    {
        proof {
            lemma_reach_bound(self.bits()[self.row as int]);
        }
        if self.variation == 0 {
            self.centre - 2
        } else if self.variation == 1 {
            self.centre - 1
        } else if self.variation == 2 {
            self.centre + 1
        } else {
            self.centre + 2
        }
    }

    /// Take the trial's distance: keep the trial where it is nearer, and go on.
    pub fn record(&mut self, distance: Binary64)
        requires
            old(self).wf(),
            !old(self).standing().done(),
        ensures
            final(self).wf(),
            final(self).bits() == old(self).bits(),
            final(self).standing() == old(self).standing().judged(distance).moved().settled(
                old(self).bits(),
            ),
    {
        let ghost before = self.standing();
        if distance.lt(self.distance) {
            let v: u8 = self.value();
            self.best[self.row] = v;
            self.distance = distance;
            self.improved = true;
        }
        assert(self.standing().best =~= before.judged(distance).best);
        assert(self.standing() == before.judged(distance));
        self.step();
        self.settle();
    }

    /// The best indices so far.
    pub fn best(&self) -> (indices: [u8; LSP_ORDER])
        ensures
            indices@ == self.standing().best,
    {
        self.best
    }
}

proof fn lemma_reach_bound(width: u8)
    requires
        width <= 8,
    ensures
        reachable(width) <= 256,
{
    lemma2_to64();
    if width < 8 {
        lemma_pow2_strictly_increases(width as nat, 8);
    }
}

proof fn lemma_settled_outcome(s: Standing, widths: Seq<u8>, f: spec_fn(Seq<u8>) -> Binary64)
    ensures
        s.settled(widths).outcome(widths, f) == s.outcome(widths, f),
    decreases s.left(),
{
    if s.placed() && !s.done() && !s.in_reach(widths) {
        lemma_settled_outcome(s.moved(), widths, f);
    }
}

/// Taking the distance of a trial does not change what the search ends with: a
/// search that is handed `f` of each trial ends with the outcome for `f`.
pub proof fn recording_keeps_outcome(
    s: Standing,
    widths: Seq<u8>,
    f: spec_fn(Seq<u8>) -> Binary64,
)
    requires
        s.placed(),
        !s.done(),
        s.in_reach(widths),
    ensures
        s.judged(f(s.trial())).moved().settled(widths).outcome(widths, f) == s.outcome(widths, f),
{
    lemma_settled_outcome(s.judged(f(s.trial())).moved(), widths, f);
}

/// The search never ends with indices that lie farther from the target than
/// those it starts from.
pub proof fn search_never_loses(
    s: Standing,
    widths: Seq<u8>,
    f: spec_fn(Seq<u8>) -> Binary64,
)
    requires
        s.distance == f(s.best),
        !s.distance.nan(),
    ensures
        f(s.outcome(widths, f)).at_most(f(s.best)),
    decreases s.left(),
{
    if s.placed() && !s.done() {
        if s.in_reach(widths) {
            search_never_loses(s.judged(f(s.trial())).moved(), widths, f);
        } else {
            search_never_loses(s.moved(), widths, f);
        }
    }
}

/// The search ends with indices within their reach.
pub proof fn search_stays_within_reach(
    s: Standing,
    widths: Seq<u8>,
    f: spec_fn(Seq<u8>) -> Binary64,
)
    requires
        widths_ok(widths),
        within_reach(s.best, widths),
    ensures
        within_reach(s.outcome(widths, f), widths),
    decreases s.left(),
{
    if s.placed() && !s.done() {
        if s.in_reach(widths) {
            lemma_reach_bound(widths[s.row]);
            let next = s.judged(f(s.trial())).moved();
            assert(within_reach(s.trial(), widths));
            search_stays_within_reach(next, widths, f);
        } else {
            search_stays_within_reach(s.moved(), widths, f);
        }
    }
}

/// A search tries at most 120 variations.
pub proof fn search_is_bounded(start: Seq<u8>, distance: Binary64)
    ensures
        begun(start, distance).left() == 120,
{
}

/// The variations of an index move it down by two, down by one, up by one and up by two,
/// in this order.
pub proof fn variations_are_one_and_two_each_way(v: int)
    requires
        0 <= v < 4,
    ensures
        offset(v) + offset(3 - v) == 0,
        offset(v) != 0,
        -2 <= offset(v) <= 2,
        v < 3 ==> offset(v) < offset(v + 1),
{
}

/// From a standing that holds the start, a search that ends with the start has found none
/// of the variations that are left nearer.
proof fn lemma_unmoved(
    s: Standing,
    start: Seq<u8>,
    widths: Seq<u8>,
    f: spec_fn(Seq<u8>) -> Binary64,
    row: int,
    v: int,
)
    requires
        s.placed(),
        !s.done(),
        s.best == start,
        s.distance == f(start),
        !f(start).nan(),
        s.centre == start[s.row],
        s.outcome(widths, f) == start,
        0 <= row < LSP_ORDER,
        0 <= v < 4,
        s.row < row || (s.row == row && s.variation <= v),
        0 <= start[row] + offset(v) < reachable(widths[row]),
    ensures
        !f(start.update(row, (start[row] + offset(v)) as u8)).below(f(start)),
    decreases s.left(),
{
    let trial = s.trial();
    let tried = s.in_reach(widths);
    if tried && f(trial).below(s.distance) {
        let next = s.judged(f(trial)).moved();
        assert(next.best == trial && next.distance == f(trial));
        search_never_loses(next, widths, f);
    }
    assert(tried ==> s.judged(f(trial)) == s);
    if !(s.row == row && s.variation == v) {
        let next = s.moved();
        assert(next.centre == start[next.row]);
        lemma_unmoved(next, start, widths, f, row, v);
    }
}

/// A search that ends where it starts has tried each index one and two places down and up,
/// as far as its reach goes, and found none of these nearer.
pub proof fn unmoved_searches_are_at_a_local_best(
    start: Seq<u8>,
    widths: Seq<u8>,
    f: spec_fn(Seq<u8>) -> Binary64,
    row: int,
    change: int,
)
    requires
        widths_ok(widths),
        within_reach(start, widths),
        !f(start).nan(),
        begun(start, f(start)).outcome(widths, f) == start,
        0 <= row < 10,
        change == -2 || change == -1 || change == 1 || change == 2,
        0 <= start[row] + change < pow2(widths[row] as nat),
    ensures
        !f(start.update(row, (start[row] + change) as u8)).below(f(start)),
{
    let v = if change < 0 {
        change + 2
    } else {
        change + 1
    };
    assert(offset(v) == change);
    lemma_unmoved(begun(start, f(start)), start, widths, f, row, v);
}

/// After the last variation of the last index a search starts over with the first index,
/// where the pass kept a trial and was not the third; else it is over.
pub proof fn passes_follow_improvements(s: Standing)
    requires
        s.placed(),
        s.row == 9,
        s.variation == 3,
        s.pass < 3,
    ensures
        s.moved().best == s.best,
        s.moved().distance == s.distance,
        s.moved().done() <==> !s.improved || s.pass == 2,
        !s.moved().done() ==> {
            &&& s.moved().pass == s.pass + 1
            &&& s.moved().row == 0
            &&& s.moved().variation == 0
            &&& s.moved().centre == s.best[0]
            &&& !s.moved().improved
        },
{
}

/// A trial is kept just where it is nearer, and then the pass counts as improved.
pub proof fn nearer_trials_are_kept(s: Standing, distance: Binary64)
    ensures
        distance.below(s.distance) ==> s.judged(distance).best == s.trial() && s.judged(
            distance,
        ).distance == distance && s.judged(distance).improved,
        !distance.below(s.distance) ==> s.judged(distance) == s,
{
}

} // verus!

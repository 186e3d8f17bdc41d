//! Band boundaries of a block, derived from frequency tables.
//!
//! A table of band edges in hertz is scaled to the block's bins. Edges past the
//! block fall on its end, and edges that fall on one bin are one boundary.
use crate::block::BlockSize;
use crate::qband::{covered, tiles, QuantBand, QuantBandLayout};
use crate::wire_tables::{CRITICAL_BAND_FREQS_HZ, SUBBAND_FREQS_HZ};
use vstd::prelude::*;

verus! {

/// Why no bands could be derived.
#[derive(Debug, Clone, Copy, PartialEq, Eq, Structural)]
pub enum BandDeriveError {
    /// The sample rate is zero.
    ZeroSampleRate,
}

impl BandDeriveError {
    /// What `message` says.
    pub open spec fn text(self) -> Seq<char> {
        "oxideav-wma::exponent_bands: sample_rate must be non-zero"@
    }

    /// A description for people.
    pub fn message(self) -> (s: &'static str)
        ensures
            s@ == self.text(),
    {
        "oxideav-wma::exponent_bands: sample_rate must be non-zero"
    }
}

/// The bin of a frequency in a block of `m` bins: the nearest, a half rounded
/// up, and none past the block.
pub open spec fn bin_of(freq: nat, rate: nat, m: nat) -> nat {
    let bin = (freq * 2 * m + rate / 2) / rate;
    if bin <= m {
        bin
    } else {
        m
    }
}

/// Whether `b` is strictly ascending.
pub open spec fn ascending(b: Seq<u16>) -> bool {
    forall|i: int, j: int| 0 <= i < j < b.len() ==> #[trigger] b[i] < #[trigger] b[j]
}

/// Whether `x` is among the first `n` edges.
pub open spec fn is_edge(edge: spec_fn(int) -> nat, n: int, x: int) -> bool {
    exists|k: int| 0 <= k < n && #[trigger] edge(k) == x
}

/// Whether `b` lists in strictly ascending order exactly zero, `m` and the first
/// `n` edges.
pub open spec fn is_grid(b: Seq<u16>, m: nat, edge: spec_fn(int) -> nat, n: int) -> bool {
    &&& ascending(b)
    &&& forall|x: u16| #[trigger] b.contains(x) <==> x == 0 || x == m || is_edge(edge, n, x as int)
}

/// The bin of each critical band edge.
pub open spec fn critical_bins(rate: nat, m: nat) -> spec_fn(int) -> nat {
    |k: int| bin_of(CRITICAL_BAND_FREQS_HZ@[k] as nat, rate, m)
}

/// The bin of each octave band edge, the leading zero left out.
pub open spec fn octave_bins(rate: nat, m: nat) -> spec_fn(int) -> nat {
    |k: int| bin_of(SUBBAND_FREQS_HZ@[k + 1] as nat, rate, m)
}

proof fn lemma_bin_ascends(f: nat, g: nat, rate: nat, m: nat)
    requires
        f <= g,
        rate > 0,
    ensures
        bin_of(f, rate, m) <= bin_of(g, rate, m),
{
    let c = (rate / 2) as int;
    assert(f * 2 * m <= g * 2 * m) by (nonlinear_arith)
        requires
            0 <= f <= g,
            0 <= m,
    ;
    vstd::arithmetic::div_mod::lemma_div_is_ordered(f * 2 * m + c, g * 2 * m + c, rate as int);
}

/// The bin of a frequency.
pub fn hz_edge_to_bin(freq_hz: u16, sample_rate: u32, block: BlockSize) -> (bin: Result<
    u16,
    BandDeriveError,
>)
    ensures
        match bin {
            Ok(b) => {
                &&& sample_rate != 0
                &&& b == bin_of(freq_hz as nat, sample_rate as nat, block.sample_count())
            },
            Err(e) => sample_rate == 0 && e == BandDeriveError::ZeroSampleRate,
        },
{
    if sample_rate == 0 {
        return Err(BandDeriveError::ZeroSampleRate);
    }
    let m: u64 = block.samples() as u64;
    let sr: u64 = sample_rate as u64;
    assert(freq_hz * 2 * m <= 65535 * 2 * 4096) by (nonlinear_arith)
        requires
            0 <= freq_hz <= 65535,
            0 <= m <= 4096,
    ;
    let bin: u64 = (freq_hz as u64 * 2 * m + sr / 2) / sr;
    if bin <= m {
        Ok(bin as u16)
    } else {
        Ok(m as u16)
    }
}

/// The grid of ascending edges, none past `m`.
pub(crate) fn grid_of(
    edges: &Vec<u16>,
    m: u16,
    Ghost(edge): Ghost<spec_fn(int) -> nat>,
) -> (grid: Vec<u16>)
    requires
        m > 0,
        forall|i: int, j: int|
            0 <= i <= j < edges@.len() ==> #[trigger] edges@[i] <= #[trigger] edges@[j],
        forall|k: int| 0 <= k < edges@.len() ==> #[trigger] edge(k) == edges@[k],
        forall|k: int| 0 <= k < edges@.len() ==> #[trigger] edges@[k] <= m,
    ensures
        is_grid(grid@, m as nat, edge, edges@.len() as int),
{
    let mut grid: Vec<u16> = Vec::new();
    grid.push(0);
    proof {
        assert forall|x: u16| #[trigger] grid@.contains(x) <==> x == 0 || is_edge(
            edge,
            0,
            x as int,
        ) by {
            if x == 0 {
                assert(grid@[0] == x);
            }
        }
    }
    let mut k: usize = 0;
    while k < edges.len()
        invariant
            k <= edges@.len(),
            grid@.len() > 0,
            forall|i: int, j: int|
                0 <= i <= j < edges@.len() ==> #[trigger] edges@[i] <= #[trigger] edges@[j],
            forall|j: int| 0 <= j < edges@.len() ==> #[trigger] edge(j) == edges@[j],
            forall|j: int| 0 <= j < edges@.len() ==> #[trigger] edges@[j] <= m,
            ascending(grid@),
            forall|x: u16|
                #[trigger] grid@.contains(x) <==> x == 0 || is_edge(edge, k as int, x as int),
            forall|j: int| 0 <= j < k ==> #[trigger] edge(j) <= grid@.last(),
            grid@.last() <= m,
        decreases edges@.len() - k,
    {
        let bin: u16 = edges[k];
        let last: u16 = grid[grid.len() - 1];
        let ghost before = grid@;
        let ghost walked = k as int;
        proof {
            assert(edge(walked) == bin);
            assert(before[before.len() - 1] == last);
            assert(before.contains(last));
            if bin <= last {
                if last != 0 {
                    let w = choose|w: int| 0 <= w < walked && #[trigger] edge(w) == last as int;
                    assert(edges@[w] <= edges@[walked]);
                }
                assert(bin == last);
            }
        }
        if bin > last {
            grid.push(bin);
        }
        proof {
            let now = grid@;
            assert forall|x: u16| #[trigger] now.contains(x) <==> x == 0 || is_edge(
                edge,
                walked + 1,
                x as int,
            ) by {
                if now.contains(x) {
                    let i = choose|i: int| 0 <= i < now.len() && now[i] == x;
                    if i < before.len() {
                        assert(before[i] == x);
                        assert(before.contains(x));
                        if x != 0 {
                            let w = choose|w: int|
                                0 <= w < walked && #[trigger] edge(w) == x as int;
                            assert(edge(w) == x);
                        }
                    } else {
                        assert(edge(walked) == x);
                    }
                }
                if x == 0 || is_edge(edge, walked + 1, x as int) {
                    if x == 0 || is_edge(edge, walked, x as int) {
                        assert(before.contains(x));
                        let i = choose|i: int| 0 <= i < before.len() && before[i] == x;
                        assert(now[i] == x);
                    } else {
                        let w = choose|w: int|
                            0 <= w < walked + 1 && #[trigger] edge(w) == x as int;
                        assert(w == walked);
                        assert(now[now.len() - 1] == x);
                    }
                }
            }
            assert forall|i: int, j: int| 0 <= i < j < now.len() implies #[trigger] now[i]
                < #[trigger] now[j] by {
                if j == before.len() && i < before.len() - 1 {
                    assert(before[i] < before[before.len() - 1]);
                }
            }
            assert forall|j: int| 0 <= j < walked + 1 implies #[trigger] edge(j) <= now.last() by {
                if j < walked {
                    assert(edge(j) <= before.last());
                }
            }
        }
        k = k + 1;
    }
    let last: u16 = grid[grid.len() - 1];
    let ghost before = grid@;
    if last < m {
        grid.push(m);
    }
    proof {
        let now = grid@;
        let n = edges@.len() as int;
        assert(before[before.len() - 1] == last);
        assert forall|i: int, j: int| 0 <= i < j < now.len() implies #[trigger] now[i]
            < #[trigger] now[j] by {
            if j == before.len() && i < before.len() - 1 {
                assert(before[i] < before[before.len() - 1]);
            }
        }
        assert forall|x: u16| #[trigger] now.contains(x) <==> x == 0 || x == m || is_edge(
            edge,
            n,
            x as int,
        ) by {
            if now.contains(x) {
                let i = choose|i: int| 0 <= i < now.len() && now[i] == x;
                if i < before.len() {
                    assert(before[i] == x);
                    assert(before.contains(x));
                }
            }
            if x == m {
                assert(now[now.len() - 1] == m);
            } else if x == 0 || is_edge(edge, n, x as int) {
                assert(before.contains(x));
                let i = choose|i: int| 0 <= i < before.len() && before[i] == x;
                assert(now[i] == x);
            }
        }
    }
    grid
}

/// The boundaries that a table of ascending edges gives.
fn derive_boundaries(
    seed: &[u16],
    sample_rate: u32,
    block: BlockSize,
    Ghost(edge): Ghost<spec_fn(int) -> nat>,
) -> (boundaries: Result<Vec<u16>, BandDeriveError>)
    requires
        forall|i: int, j: int|
            0 <= i <= j < seed@.len() ==> #[trigger] seed@[i] <= #[trigger] seed@[j],
        forall|k: int|
            0 <= k < seed@.len() ==> #[trigger] edge(k) == bin_of(
                seed@[k] as nat,
                sample_rate as nat,
                block.sample_count(),
            ),
    ensures
        match boundaries {
            Ok(b) => {
                &&& sample_rate != 0
                &&& is_grid(b@, block.sample_count(), edge, seed@.len() as int)
            },
            Err(e) => sample_rate == 0 && e == BandDeriveError::ZeroSampleRate,
        },
{
    if sample_rate == 0 {
        return Err(BandDeriveError::ZeroSampleRate);
    }
    let m: u16 = block.samples();
    let mut bins: Vec<u16> = Vec::new();
    let mut k: usize = 0;
    while k < seed.len()
        invariant
            k <= seed@.len(),
            sample_rate != 0,
            bins@.len() == k,
            forall|j: int|
                0 <= j < k ==> #[trigger] bins@[j] == bin_of(
                    seed@[j] as nat,
                    sample_rate as nat,
                    block.sample_count(),
                ),
        decreases seed@.len() - k,
    {
        match hz_edge_to_bin(seed[k], sample_rate, block) {
            Ok(bin) => {
                bins.push(bin);
            },
            Err(e) => {
                return Err(e);
            },
        }
        k = k + 1;
    }
    proof {
        assert forall|i: int, j: int| 0 <= i <= j < bins@.len() implies #[trigger] bins@[i]
            <= #[trigger] bins@[j] by {
            lemma_bin_ascends(
                seed@[i] as nat,
                seed@[j] as nat,
                sample_rate as nat,
                block.sample_count(),
            );
        }
    }
    Ok(grid_of(&bins, m, Ghost(edge)))
}

/// The boundaries of a block's exponent bands.
pub fn exponent_band_boundaries(sample_rate: u32, block: BlockSize) -> (boundaries: Result<
    Vec<u16>,
    BandDeriveError,
>)
    ensures
        match boundaries {
            Ok(b) => {
                &&& sample_rate != 0
                &&& is_grid(
                    b@,
                    block.sample_count(),
                    critical_bins(sample_rate as nat, block.sample_count()),
                    25,
                )
            },
            Err(e) => sample_rate == 0 && e == BandDeriveError::ZeroSampleRate,
        },
{
    proof {
        crate::wire_tables::lemma_critical_bands();
    }
    let seed: [u16; 25] = CRITICAL_BAND_FREQS_HZ;
    derive_boundaries(
        seed.as_slice(),
        sample_rate,
        block,
        Ghost(critical_bins(sample_rate as nat, block.sample_count())),
    )
}

/// The boundaries of a block's noise bands.
pub fn noise_band_boundaries(sample_rate: u32, block: BlockSize) -> (boundaries: Result<
    Vec<u16>,
    BandDeriveError,
>)
    ensures
        match boundaries {
            Ok(b) => {
                &&& sample_rate != 0
                &&& is_grid(
                    b@,
                    block.sample_count(),
                    octave_bins(sample_rate as nat, block.sample_count()),
                    10,
                )
            },
            Err(e) => sample_rate == 0 && e == BandDeriveError::ZeroSampleRate,
        },
{
    proof {
        crate::wire_tables::lemma_subbands();
    }
    let table: [u16; 11] = SUBBAND_FREQS_HZ;
    let seed = vstd::slice::slice_subrange(table.as_slice(), 1, 11);
    derive_boundaries(
        seed,
        sample_rate,
        block,
        Ghost(octave_bins(sample_rate as nat, block.sample_count())),
    )
}

/// A grid starts at zero and ends at `m`.
pub proof fn grid_spans(b: Seq<u16>, m: nat, edge: spec_fn(int) -> nat, n: int)
    requires
        is_grid(b, m, edge, n),
        0 < m <= u16::MAX,
        forall|k: int| 0 <= k < n ==> #[trigger] edge(k) <= m,
    ensures
        b.len() >= 2,
        b[0] == 0,
        b.last() == m,
{
    assert(b.contains(0));
    assert(b.contains(m as u16));
    let i = choose|i: int| 0 <= i < b.len() && b[i] == 0;
    let j = choose|j: int| 0 <= j < b.len() && b[j] == m as u16;
    if i > 0 {
        assert(b[0] < b[i]);
    }
    if j < b.len() - 1 {
        let last = b[b.len() - 1];
        assert(b[j] < last);
        assert(b.contains(last));
        let w = choose|w: int| 0 <= w < n && #[trigger] edge(w) == last as int;
        assert(edge(w) <= m);
    }
}

/// Zero, `m` and the edges determine a grid.
pub proof fn grid_is_unique(
    a: Seq<u16>,
    b: Seq<u16>,
    m: nat,
    edge: spec_fn(int) -> nat,
    n: int,
)
    requires
        is_grid(a, m, edge, n),
        is_grid(b, m, edge, n),
    ensures
        a == b,
{
    assert forall|x: u16| a.contains(x) <==> b.contains(x) by {}
    lemma_ascending_unique(a, b);
}

proof fn lemma_ascending_unique(a: Seq<u16>, b: Seq<u16>)
    requires
        ascending(a),
        ascending(b),
        forall|x: u16| a.contains(x) <==> b.contains(x),
    ensures
        a == b,
    decreases a.len(),
{
    if a.len() == 0 {
        if b.len() > 0 {
            assert(b.contains(b[0]));
        }
        assert(a =~= b);
    } else {
        let p = a.last();
        assert(a.contains(p));
        assert(b.contains(p));
        let q = b.last();
        assert(b.contains(q));
        assert(a.contains(q));
        let i = choose|i: int| 0 <= i < a.len() && a[i] == q;
        let j = choose|j: int| 0 <= j < b.len() && b[j] == p;
        if i < a.len() - 1 {
            assert(a[i] < a[a.len() - 1]);
        }
        if j < b.len() - 1 {
            assert(b[j] < b[b.len() - 1]);
        }
        assert(p == q);
        let c = a.drop_last();
        let d = b.drop_last();
        assert forall|x: u16| c.contains(x) <==> d.contains(x) by {
            if c.contains(x) {
                let k = choose|k: int| 0 <= k < c.len() && c[k] == x;
                assert(a[k] < a[a.len() - 1]);
                assert(a.contains(x));
                let l = choose|l: int| 0 <= l < b.len() && b[l] == x;
                assert(d[l] == x);
            }
            if d.contains(x) {
                let k = choose|k: int| 0 <= k < d.len() && d[k] == x;
                assert(b[k] < b[b.len() - 1]);
                assert(b.contains(x));
                let l = choose|l: int| 0 <= l < a.len() && a[l] == x;
                assert(c[l] == x);
            }
        }
        assert forall|i: int, j: int| 0 <= i < j < c.len() implies #[trigger] c[i]
            < #[trigger] c[j] by {
            assert(a[i] < a[j]);
        }
        assert forall|i: int, j: int| 0 <= i < j < d.len() implies #[trigger] d[i]
            < #[trigger] d[j] by {
            assert(b[i] < b[j]);
        }
        lemma_ascending_unique(c, d);
        assert(a =~= c.push(p));
        assert(b =~= d.push(p));
    }
}

/// Whether `bands` are the runs between neighbouring boundaries, with weight
/// slots in order.
pub open spec fn between(bands: Seq<QuantBand>, b: Seq<u16>) -> bool {
    &&& bands.len() == b.len() - 1
    &&& forall|d: int|
        0 <= d < bands.len() ==> #[trigger] bands[d] == (QuantBand {
            start: b[d],
            len: (b[d + 1] - b[d]) as u16,
            weight: d as u16,
        })
}

/// The layout of the bands between neighbouring boundaries.
fn layout_from_boundaries(boundaries: &Vec<u16>, block: BlockSize) -> (layout: QuantBandLayout)
    requires
        ascending(boundaries@),
        boundaries@.len() >= 2,
        boundaries@[0] == 0,
        boundaries@.last() == block.sample_count(),
    ensures
        layout.wf(),
        layout.size() == block.sample_count(),
        between(layout.all(), boundaries@),
{
    let mut bands: Vec<QuantBand> = Vec::new();
    let n: usize = boundaries.len();
    let mut d: usize = 0;
    while d < n - 1
        invariant
            n == boundaries@.len() >= 2,
            d <= n - 1,
            ascending(boundaries@),
            boundaries@.last() == block.sample_count(),
            bands@.len() == d,
            forall|k: int|
                0 <= k < d ==> #[trigger] bands@[k] == (QuantBand {
                    start: boundaries@[k],
                    len: (boundaries@[k + 1] - boundaries@[k]) as u16,
                    weight: k as u16,
                }),
        decreases n - d,
    {
        proof {
            assert(boundaries@[d as int] < boundaries@[d + 1]);
            lemma_ascending_index(boundaries@, d as int);
        }
        let band = QuantBand {
            start: boundaries[d],
            len: boundaries[d + 1] - boundaries[d],
            weight: d as u16,
        };
        bands.push(band);
        d = d + 1;
    }
    proof {
        assert forall|k: int| 0 <= k < bands@.len() implies (#[trigger] bands@[k]).wf() by {
            assert(boundaries@[k] < boundaries@[k + 1]);
            if k + 1 < n - 1 {
                assert(boundaries@[k + 1] < boundaries@[n - 1]);
            }
        }
        assert forall|k: int| 0 <= k < bands@.len() implies bands@[k].start == #[trigger] covered(
            bands@,
            k,
        ) by {
            if k > 0 {
                assert(boundaries@[k - 1] < boundaries@[k]);
                assert(bands@[k - 1].start == boundaries@[k - 1]);
            }
        }
        assert(boundaries@[n - 2] < boundaries@[n - 1]);
        assert(bands@[n - 2].start == boundaries@[n - 2]);
        assert(tiles(bands@, block.sample_count() as int));
    }
    let ghost made = bands@;
    let layout = QuantBandLayout::for_block(bands, block);
    match layout {
        Ok(l) => l,
        Err(_) => {
            assert(false);
            vstd::pervasive::unreached()
        },
    }
}

/// An ascending list is not longer than its values allow.
proof fn lemma_ascending_index(b: Seq<u16>, i: int)
    requires
        ascending(b),
        0 <= i < b.len(),
    ensures
        i <= b[i],
    decreases i,
{
    if i > 0 {
        lemma_ascending_index(b, i - 1);
        assert(b[i - 1] < b[i]);
    }
}

/// The layout of a block's exponent bands.
pub fn exponent_band_layout(sample_rate: u32, block: BlockSize) -> (layout: Result<
    QuantBandLayout,
    BandDeriveError,
>)
    ensures
        match layout {
            Ok(l) => {
                let edge = critical_bins(sample_rate as nat, block.sample_count());
                &&& sample_rate != 0
                &&& l.wf()
                &&& l.size() == block.sample_count()
                &&& exists|b: Seq<u16>|
                    #[trigger] is_grid(b, block.sample_count(), edge, 25) && between(l.all(), b)
            },
            Err(e) => sample_rate == 0 && e == BandDeriveError::ZeroSampleRate,
        },
{
    let boundaries: Vec<u16> = match exponent_band_boundaries(sample_rate, block) {
        Ok(b) => b,
        Err(e) => {
            return Err(e);
        },
    };
    proof {
        grid_spans(
            boundaries@,
            block.sample_count(),
            critical_bins(sample_rate as nat, block.sample_count()),
            25,
        );
    }
    Ok(layout_from_boundaries(&boundaries, block))
}

/// The layout of a block's noise bands.
pub fn noise_band_layout(sample_rate: u32, block: BlockSize) -> (layout: Result<
    QuantBandLayout,
    BandDeriveError,
>)
    ensures
        match layout {
            Ok(l) => {
                let edge = octave_bins(sample_rate as nat, block.sample_count());
                &&& sample_rate != 0
                &&& l.wf()
                &&& l.size() == block.sample_count()
                &&& exists|b: Seq<u16>|
                    #[trigger] is_grid(b, block.sample_count(), edge, 10) && between(l.all(), b)
            },
            Err(e) => sample_rate == 0 && e == BandDeriveError::ZeroSampleRate,
        },
{
    let boundaries: Vec<u16> = match noise_band_boundaries(sample_rate, block) {
        Ok(b) => b,
        Err(e) => {
            return Err(e);
        },
    };
    proof {
        grid_spans(
            boundaries@,
            block.sample_count(),
            octave_bins(sample_rate as nat, block.sample_count()),
            10,
        );
    }
    Ok(layout_from_boundaries(&boundaries, block))
}

/// The bin of a frequency is the nearest to `2 * m * freq / rate`, the greater of two as
/// near, as far as the block reaches: zero has bin zero, and half the rate the block's end.
pub proof fn bins_are_nearest(freq: nat, rate: nat, m: nat)
    requires
        rate > 0,
    ensures
        ({
            let exact = 2 * m * freq;
            let bin = bin_of(freq, rate, m);
            &&& bin <= m
            &&& 2 * (bin * rate - exact) <= rate
            &&& bin < m ==> 2 * (exact - bin * rate) < rate
        }),
        bin_of(0, rate, m) == 0,
        2 * freq >= rate ==> bin_of(freq, rate, m) == m,
{
    let n = 2 * m * freq;
    assert(freq * 2 * m == n) by (nonlinear_arith)
        requires
            n == 2 * m * freq,
    ;
    let r = rate as int;
    let a = n + r / 2;
    let q = a / r;
    vstd::arithmetic::div_mod::lemma_fundamental_div_mod(a, r);
    assert(q * r == r * q) by (nonlinear_arith);
    let bin = bin_of(freq, rate, m) as int;
    assert(bin * r <= q * r) by (nonlinear_arith)
        requires
            bin <= q,
            r > 0,
    ;
    assert(0nat * 2 * m == 0) by (nonlinear_arith);
    assert((r / 2) / r == 0) by {
        vstd::arithmetic::div_mod::lemma_basic_div(r / 2, r);
    }
    if 2 * freq >= rate {
        assert(n >= m * r) by (nonlinear_arith)
            requires
                n == 2 * m * freq,
                2 * freq >= r,
                m >= 0,
        ;
        assert(q >= m) by (nonlinear_arith)
            requires
                r * q + a % r == a,
                a % r < r,
                a >= m * r,
                r > 0,
        ;
    }
}

/// A higher frequency has no lower bin.
pub proof fn bins_ascend(f: nat, g: nat, rate: nat, m: nat)
    requires
        rate > 0,
        f <= g,
    ensures
        bin_of(f, rate, m) <= bin_of(g, rate, m),
{
    let a = (f * 2 * m) as int;
    let b = (g * 2 * m) as int;
    assert(a <= b) by (nonlinear_arith)
        requires
            a == f * 2 * m,
            b == g * 2 * m,
            f <= g,
    ;
    let c = (rate / 2) as int;
    vstd::arithmetic::div_mod::lemma_div_is_ordered(a + c, b + c, rate as int);
}

/// The boundaries of a block's exponent bands hold the bin of each of the 25 critical band
/// edges, and those of its noise bands the bin of each of the eleven octave band edges.
pub proof fn boundaries_hold_every_edge(b: Seq<u16>, rate: nat, m: nat, k: int)
    requires
        rate > 0,
        m <= u16::MAX,
    ensures
        0 <= k < 25 && is_grid(b, m, critical_bins(rate, m), 25) ==> b.contains(
            bin_of(CRITICAL_BAND_FREQS_HZ@[k] as nat, rate, m) as u16,
        ),
        0 <= k < 11 && is_grid(b, m, octave_bins(rate, m), 10) ==> b.contains(
            bin_of(SUBBAND_FREQS_HZ@[k] as nat, rate, m) as u16,
        ),
{
    if 0 <= k < 25 && is_grid(b, m, critical_bins(rate, m), 25) {
        let x = bin_of(CRITICAL_BAND_FREQS_HZ@[k] as nat, rate, m);
        assert(critical_bins(rate, m)(k) == x);
        assert(is_edge(critical_bins(rate, m), 25, x as u16 as int));
    }
    if 0 <= k < 11 && is_grid(b, m, octave_bins(rate, m), 10) {
        let x = bin_of(SUBBAND_FREQS_HZ@[k] as nat, rate, m);
        if k == 0 {
            assert(SUBBAND_FREQS_HZ@[0] == 0);
            bins_are_nearest(0, rate, m);
        } else {
            assert(octave_bins(rate, m)(k - 1) == x);
            assert(is_edge(octave_bins(rate, m), 10, x as u16 as int));
        }
    }
}

} // verus!

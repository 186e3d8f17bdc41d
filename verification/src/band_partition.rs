//! Exponent band partitions by sample rate and block length.
//!
//! Short blocks at common rates have tabulated partitions. Any other block's
//! partition is computed from the critical band edges.
use crate::exponent_bands::{ascending, grid_of, is_edge, is_grid};
use crate::wire_tables::CRITICAL_BAND_FREQS_HZ;
use vstd::prelude::*;

verus! {

/// 128 coefficients, from 44100 Hz on.
pub const HI_128: [u16; 13] = [0, 4, 8, 12, 16, 20, 28, 36, 44, 56, 72, 92, 128];

/// 256 coefficients, from 44100 Hz on.
pub const HI_256: [u16; 16] = [
    0, 4, 12, 16, 24, 32, 36, 44, 52, 64, 76, 88, 112, 140, 180, 256,
];

/// 512 coefficients, from 44100 Hz on.
pub const HI_512: [u16; 18] = [
    0, 4, 12, 20, 24, 36, 48, 56, 64, 88, 104, 124, 148, 180, 220, 280, 360, 512,
];

/// 128 coefficients, from 32000 Hz to below 44100 Hz.
pub const MID_128: [u16; 12] = [0, 4, 8, 16, 20, 24, 36, 52, 76, 96, 124, 128];

/// 256 coefficients, from 32000 Hz to below 44100 Hz.
pub const MID_256: [u16; 16] = [
    0, 4, 12, 16, 20, 28, 36, 52, 72, 84, 104, 124, 152, 192, 248, 256,
];

/// 512 coefficients, from 32000 Hz to below 44100 Hz.
pub const MID_512: [u16; 17] = [
    0, 8, 12, 20, 28, 40, 56, 76, 100, 140, 172, 204, 248, 304, 384, 496, 512,
];

/// 128 coefficients, from 22050 Hz to below 32000 Hz.
pub const LO_128: [u16; 11] = [0, 4, 12, 16, 24, 32, 44, 64, 88, 112, 128];

/// 256 coefficients, from 22050 Hz to below 32000 Hz.
pub const LO_256: [u16; 15] = [
    0, 4, 12, 20, 24, 36, 48, 64, 88, 104, 124, 148, 180, 220, 256,
];

/// The tabulated partition, where there is one.
pub open spec fn tabulated(rate: nat, m: nat) -> Option<Seq<u16>> {
    if rate >= 44_100 {
        if m == 128 {
            Some(HI_128@)
        } else if m == 256 {
            Some(HI_256@)
        } else if m == 512 {
            Some(HI_512@)
        } else {
            None
        }
    } else if rate >= 32_000 {
        if m == 128 {
            Some(MID_128@)
        } else if m == 256 {
            Some(MID_256@)
        } else if m == 512 {
            Some(MID_512@)
        } else {
            None
        }
    } else if rate >= 22_050 {
        if m == 128 {
            Some(LO_128@)
        } else if m == 256 {
            Some(LO_256@)
        } else {
            None
        }
    } else {
        None
    }
}

/// The coefficient of a frequency in a block of `m`: the nearest multiple of four,
/// the greater of two as near, and none past the block.
pub open spec fn coarse_bin(freq: nat, rate: nat, m: nat) -> nat {
    let bin = ((freq * 2 * m + 2 * rate) / (4 * rate)) * 4;
    if bin < m {
        bin
    } else {
        m
    }
}

/// The coefficient of each critical band edge.
pub open spec fn coarse_bins(rate: nat, m: nat) -> spec_fn(int) -> nat {
    |k: int| coarse_bin(CRITICAL_BAND_FREQS_HZ@[k] as nat, rate, m)
}

/// Whether `edges` is the partition of a block of `m` coefficients: the
/// tabulated one, or the grid of the critical band edges. A block without
/// coefficients has one empty band.
pub open spec fn is_partition(edges: Seq<u16>, rate: nat, m: nat) -> bool {
    match tabulated(rate, m) {
        Some(t) => edges == t,
        None => if m == 0 {
            edges == seq![0u16, 0u16]
        } else {
            is_grid(edges, m, coarse_bins(rate, m), 25)
        },
    }
}

/// The tabulated partition, where there is one.
fn hard_partition(sample_rate: u32, block_coefficients: u16) -> (edges: Option<Vec<u16>>)
    ensures
        match edges {
            Some(e) => tabulated(sample_rate as nat, block_coefficients as nat) == Some(e@),
            None => tabulated(sample_rate as nat, block_coefficients as nat) is None,
        },
{
    if sample_rate >= 44_100 {
        if block_coefficients == 128 {
            let t: [u16; 13] = HI_128;
            Some(listed(t.as_slice()))
        } else if block_coefficients == 256 {
            let t: [u16; 16] = HI_256;
            Some(listed(t.as_slice()))
        } else if block_coefficients == 512 {
            let t: [u16; 18] = HI_512;
            Some(listed(t.as_slice()))
        } else {
            None
        }
    } else if sample_rate >= 32_000 {
        if block_coefficients == 128 {
            let t: [u16; 12] = MID_128;
            Some(listed(t.as_slice()))
        } else if block_coefficients == 256 {
            let t: [u16; 16] = MID_256;
            Some(listed(t.as_slice()))
        } else if block_coefficients == 512 {
            let t: [u16; 17] = MID_512;
            Some(listed(t.as_slice()))
        } else {
            None
        }
    } else if sample_rate >= 22_050 {
        if block_coefficients == 128 {
            let t: [u16; 11] = LO_128;
            Some(listed(t.as_slice()))
        } else if block_coefficients == 256 {
            let t: [u16; 15] = LO_256;
            Some(listed(t.as_slice()))
        } else {
            None
        }
    } else {
        None
    }
}

/// A table as a list.
fn listed(table: &[u16]) -> (list: Vec<u16>)
    ensures
        list@ == table@,
{
    let mut list: Vec<u16> = Vec::new();
    let mut k: usize = 0;
    while k < table.len()
        invariant
            k <= table@.len(),
            list@ == table@.take(k as int),
        decreases table@.len() - k,
    {
        list.push(table[k]);
        assert(table@.take(k as int).push(table@[k as int]) =~= table@.take(k + 1));
        k = k + 1;
    }
    assert(table@.take(k as int) =~= table@);
    list
}

proof fn lemma_coarse_bin_ascends(f: nat, g: nat, rate: nat, m: nat)
    requires
        f <= g,
        rate > 0,
    ensures
        coarse_bin(f, rate, m) <= coarse_bin(g, rate, m),
{
    assert(f * 2 * m <= g * 2 * m) by (nonlinear_arith)
        requires
            0 <= f <= g,
            0 <= m,
    ;
    vstd::arithmetic::div_mod::lemma_div_is_ordered(
        (f * 2 * m + 2 * rate) as int,
        (g * 2 * m + 2 * rate) as int,
        (4 * rate) as int,
    );
}

/// The partition computed from the critical band edges.
fn computed_partition(sample_rate: u32, block_coefficients: u16) -> (edges: Vec<u16>)
    requires
        sample_rate > 0,
    ensures
        block_coefficients == 0 ==> edges@ == seq![0u16, 0u16],
        block_coefficients > 0 ==> is_grid(
            edges@,
            block_coefficients as nat,
            coarse_bins(sample_rate as nat, block_coefficients as nat),
            25,
        ),
{
    if block_coefficients == 0 {
        let mut edges: Vec<u16> = Vec::new();
        edges.push(0);
        edges.push(0);
        return edges;
    }
    let m: u64 = block_coefficients as u64;
    let seed: [u16; 25] = CRITICAL_BAND_FREQS_HZ;
    let mut bins: Vec<u16> = Vec::new();
    let mut k: usize = 0;
    while k < 25
        invariant
            k <= 25,
            sample_rate > 0,
            m == block_coefficients,
            seed@ == CRITICAL_BAND_FREQS_HZ@,
            bins@.len() == k,
            forall|j: int|
                0 <= j < k ==> #[trigger] bins@[j] == coarse_bin(
                    seed@[j] as nat,
                    sample_rate as nat,
                    m as nat,
                ),
        decreases 25 - k,
    {
        let freq: u64 = seed[k] as u64;
        assert(freq * 2 * m <= 65535 * 2 * 65535) by (nonlinear_arith)
            requires
                0 <= freq <= 65535,
                0 <= m <= 65535,
        ;
        let bin: u64 = ((freq * 2 * m + 2 * sample_rate as u64) / (4 * sample_rate as u64)) * 4;
        if bin < m {
            bins.push(bin as u16);
        } else {
            bins.push(block_coefficients);
        }
        k = k + 1;
    }
    proof {
        crate::wire_tables::lemma_critical_bands();
        assert forall|i: int, j: int| 0 <= i <= j < bins@.len() implies #[trigger] bins@[i]
            <= #[trigger] bins@[j] by {
            lemma_coarse_bin_ascends(
                seed@[i] as nat,
                seed@[j] as nat,
                sample_rate as nat,
                m as nat,
            );
        }
    }
    grid_of(
        &bins,
        block_coefficients,
        Ghost(coarse_bins(sample_rate as nat, block_coefficients as nat)),
    )
}

/// The band edges of a block of `block_coefficients` coefficients: zero first,
/// the block's length last.
pub fn exponent_band_edges(sample_rate: u32, block_coefficients: u16) -> (edges: Vec<u16>)
    requires
        sample_rate > 0,
    ensures
        is_partition(edges@, sample_rate as nat, block_coefficients as nat),
{
    match hard_partition(sample_rate, block_coefficients) {
        Some(edges) => edges,
        None => computed_partition(sample_rate, block_coefficients),
    }
}

/// The number of bands of a block: one less than its edges.
pub fn exponent_band_count(sample_rate: u32, block_coefficients: u16) -> (n: usize)
    requires
        sample_rate > 0,
    ensures
        forall|edges: Seq<u16>| #[trigger]
            is_partition(edges, sample_rate as nat, block_coefficients as nat) ==> n == edges.len()
                - 1,
{
    let edges: Vec<u16> = exponent_band_edges(sample_rate, block_coefficients);
    proof {
        let rate = sample_rate as nat;
        let m = block_coefficients as nat;
        lemma_two_edges(edges@, rate, m);
        assert forall|e: Seq<u16>| #[trigger] is_partition(e, rate, m) implies e.len()
            == edges@.len() by {
            partition_is_unique(e, edges@, rate, m);
        }
    }
    edges.len() - 1
}

proof fn lemma_two_edges(edges: Seq<u16>, rate: nat, m: nat)
    requires
        is_partition(edges, rate, m),
        m <= u16::MAX,
    ensures
        edges.len() >= 2,
{
    if m > 0 {
        partition_spans_block(edges, rate, m);
    }
}

/// The rate and the block's length determine the partition.
pub proof fn partition_is_unique(a: Seq<u16>, b: Seq<u16>, rate: nat, m: nat)
    requires
        is_partition(a, rate, m),
        is_partition(b, rate, m),
    ensures
        a == b,
{
    if tabulated(rate, m) is None && m > 0 {
        crate::exponent_bands::grid_is_unique(a, b, m, coarse_bins(rate, m), 25);
    }
}

/// A partition starts at zero, ascends strictly and ends at the block's length;
/// every edge before the last is a multiple of four.
pub proof fn partition_spans_block(edges: Seq<u16>, rate: nat, m: nat)
    requires
        is_partition(edges, rate, m),
        0 < m <= u16::MAX,
    ensures
        edges.len() >= 2,
        edges[0] == 0,
        edges.last() == m,
        ascending(edges),
        forall|i: int| 0 <= i < edges.len() - 1 ==> #[trigger] edges[i] % 4 == 0,
{
    match tabulated(rate, m) {
        Some(t) => {},
        None => {
            let edge = coarse_bins(rate, m);
            crate::exponent_bands::grid_spans(edges, m, edge, 25);
            assert forall|i: int| 0 <= i < edges.len() - 1 implies #[trigger] edges[i] % 4 == 0 by {
                assert(edges[i] < edges[edges.len() - 1]);
                assert(edges.contains(edges[i]));
                if edges[i] != 0 {
                    assert(is_edge(edge, 25, edges[i] as int));
                    let w = choose|w: int| 0 <= w < 25 && #[trigger] edge(w) == edges[i] as int;
                    let q = (CRITICAL_BAND_FREQS_HZ@[w] as nat * 2 * m + 2 * rate) / (4 * rate);
                    assert(edges[i] == q * 4);
                    assert((q * 4) % 4 == 0) by (nonlinear_arith);
                }
            }
        },
    }
}

/// The coefficient of a frequency is the multiple of four nearest to
/// `2 * m * freq / rate`, the greater of two as near, as far as the block reaches.
pub proof fn coarse_bins_are_nearest(freq: nat, rate: nat, m: nat)
    requires
        rate > 0,
    ensures
        ({
            let exact = 2 * m * freq;
            let bin = coarse_bin(freq, rate, m);
            &&& bin <= m
            &&& bin % 4 == 0 || bin == m
            &&& bin * rate - exact <= 2 * rate
            &&& bin < m ==> exact - bin * rate < 2 * rate
        }),
{
    let n = 2 * m * freq;
    assert(freq * 2 * m == n) by (nonlinear_arith)
        requires
            n == 2 * m * freq,
    ;
    let r = rate as int;
    let b = n + 2 * r;
    let p = b / (4 * r);
    vstd::arithmetic::div_mod::lemma_fundamental_div_mod(b, 4 * r);
    assert((p * 4) * r == (4 * r) * p) by (nonlinear_arith);
    let bin = coarse_bin(freq, rate, m) as int;
    assert(bin * r <= (p * 4) * r) by (nonlinear_arith)
        requires
            bin <= p * 4,
            r > 0,
    ;
}

/// Whether a partition is tabulated, and which, depends on the rate only through the
/// greatest of 44100, 32000 and 22050 Hz that does not exceed it; below them all none is.
pub proof fn tables_by_rate(rate: nat, m: nat)
    ensures
        rate >= 44_100 ==> tabulated(rate, m) == tabulated(44_100, m),
        32_000 <= rate < 44_100 ==> tabulated(rate, m) == tabulated(32_000, m),
        22_050 <= rate < 32_000 ==> tabulated(rate, m) == tabulated(22_050, m),
        rate < 22_050 ==> tabulated(rate, m) is None,
        tabulated(44_100, m) is Some <==> m == 128 || m == 256 || m == 512,
        tabulated(32_000, m) is Some <==> m == 128 || m == 256 || m == 512,
        tabulated(22_050, m) is Some <==> m == 128 || m == 256,
        m == 128 ==> tabulated(44_100, m) == Some(HI_128@) && tabulated(32_000, m) == Some(MID_128@)
            && tabulated(22_050, m) == Some(LO_128@),
        m == 256 ==> tabulated(44_100, m) == Some(HI_256@) && tabulated(32_000, m) == Some(MID_256@)
            && tabulated(22_050, m) == Some(LO_256@),
        m == 512 ==> tabulated(44_100, m) == Some(HI_512@) && tabulated(32_000, m) == Some(MID_512@),
{
}

/// A partition that is not tabulated holds the coefficient of each of the 25 critical band
/// edges.
pub proof fn partitions_hold_every_edge(edges: Seq<u16>, rate: nat, m: nat, k: int)
    requires
        rate > 0,
        0 < m <= u16::MAX,
        tabulated(rate, m) is None,
        is_partition(edges, rate, m),
        0 <= k < 25,
    ensures
        edges.contains(coarse_bin(CRITICAL_BAND_FREQS_HZ@[k] as nat, rate, m) as u16),
{
    let x = coarse_bin(CRITICAL_BAND_FREQS_HZ@[k] as nat, rate, m);
    assert(coarse_bins(rate, m)(k) == x);
    assert(is_edge(coarse_bins(rate, m), 25, x as u16 as int));
}

} // verus!

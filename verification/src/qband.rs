//! Quantization bands and the layouts that tile a block with them.
use crate::block::BlockSize;
use vstd::prelude::*;

verus! {

/// A run of coefficients that share a weight.
#[derive(Debug, Clone, Copy, PartialEq, Eq, Hash, Structural)]
pub struct QuantBand {
    /// First coefficient.
    pub start: u16,
    /// Number of coefficients.
    pub len: u16,
    /// Slot of the weight.
    pub weight: u16,
}

/// Why a band or a layout could not be made.
#[derive(Debug, Clone, Copy, PartialEq, Eq, Hash, Structural)]
pub enum InvalidBand {
    /// The band is empty.
    Empty,
    /// The band reaches past the last place a band can have.
    TooFar,
    /// The band does not start where the one before it ends.
    Gap {
        /// The band.
        band: usize,
    },
    /// The bands do not end where the block does.
    WrongTotal {
        /// Where the bands end.
        covered: usize,
        /// Coefficients in the block.
        total: usize,
    },
}

impl QuantBand {
    /// The invariant: a band holds a coefficient and ends within 16 bits.
    pub open spec fn wf(&self) -> bool {
        self.len >= 1 && self.start + self.len <= u16::MAX
    }

    /// The band of `len` coefficients from `start` on.
    pub fn new(start: u16, len: u16, weight_index: u16) -> (band: Result<Self, InvalidBand>)
        ensures
            band == (if len == 0 {
                Err(InvalidBand::Empty)
            } else if start + len > u16::MAX {
                Err(InvalidBand::TooFar)
            } else {
                Ok(QuantBand { start, len, weight: weight_index })
            }),
    {
        if len == 0 {
            return Err(InvalidBand::Empty);
        }
        if len > u16::MAX - start {
            return Err(InvalidBand::TooFar);
        }
        Ok(QuantBand { start, len, weight: weight_index })
    }

    /// The place past the last coefficient.
    pub fn end(&self) -> (end: u16)
        requires
            self.wf(),
        ensures
            end == self.start + self.len,
    {
        self.start + self.len
    }

    /// The slot of the weight.
    pub fn weight_index(&self) -> (slot: u16)
        ensures
            slot == self.weight,
    {
        self.weight
    }
}

/// Where the first `k` bands end.
pub open spec fn covered(bands: Seq<QuantBand>, k: int) -> int {
    if k <= 0 {
        0
    } else {
        bands[k - 1].start + bands[k - 1].len
    }
}

/// Whether the bands tile `total` coefficients: each starts where the one
/// before it ends, and the last ends at `total`.
pub open spec fn tiles(bands: Seq<QuantBand>, total: int) -> bool {
    &&& forall|k: int| 0 <= k < bands.len() ==> (#[trigger] bands[k]).wf()
    &&& forall|k: int|
        0 <= k < bands.len() ==> bands[k].start == #[trigger] covered(bands, k)
    &&& covered(bands, bands.len() as int) == total
}

/// Whether the slots of a band's coefficients are the band's weight slot.
pub open spec fn spread(map: Seq<u16>, band: QuantBand) -> bool {
    &&& band.start + band.len <= map.len()
    &&& forall|i: int| band.start <= i < band.start + band.len ==> #[trigger] map[i] == band.weight
}

/// The band that covers a coefficient.
pub proof fn lemma_covering_band(bands: Seq<QuantBand>, total: int, i: int) -> (k: int)
    requires
        tiles(bands, total),
        0 <= i < total,
    ensures
        0 <= k < bands.len(),
        bands[k].start <= i < bands[k].start + bands[k].len,
{
    lemma_covering_among(bands, total, bands.len() as int, i)
}

proof fn lemma_covering_among(bands: Seq<QuantBand>, total: int, n: int, i: int) -> (k: int)
    requires
        tiles(bands, total),
        0 <= n <= bands.len(),
        0 <= i < covered(bands, n),
    ensures
        0 <= k < n,
        bands[k].start <= i < bands[k].start + bands[k].len,
    decreases n,
{
    assert(bands[n - 1].start == covered(bands, n - 1));
    if i >= bands[n - 1].start {
        n - 1
    } else {
        lemma_covering_among(bands, total, n - 1, i)
    }
}

/// Bands that tile a block.
#[derive(Debug, Clone, PartialEq, Eq)]
pub struct QuantBandLayout {
    bands: Vec<QuantBand>,
    total: usize,
}

impl QuantBandLayout {
    /// The bands in order.
    pub closed spec fn all(&self) -> Seq<QuantBand> {
        self.bands@
    }

    /// Coefficients in the block.
    pub closed spec fn size(&self) -> nat {
        self.total as nat
    }

    /// The invariant.
    pub open spec fn wf(&self) -> bool {
        tiles(self.all(), self.size() as int)
    }

    /// The layout of bands that tile `total` coefficients.
    pub fn new(bands: Vec<QuantBand>, total: usize) -> (layout: Result<Self, InvalidBand>)
        requires
            forall|k: int| 0 <= k < bands@.len() ==> (#[trigger] bands@[k]).wf(),
        ensures
            match layout {
                Ok(l) => l.wf() && l.all() == bands@ && l.size() == total,
                Err(InvalidBand::Gap { band }) => {
                    &&& band < bands@.len()
                    &&& bands@[band as int].start != covered(bands@, band as int)
                    &&& forall|k: int|
                        0 <= k < band ==> bands@[k].start == #[trigger] covered(bands@, k)
                },
                Err(InvalidBand::WrongTotal { covered: c, total: t }) => {
                    &&& forall|k: int|
                        0 <= k < bands@.len() ==> bands@[k].start == #[trigger] covered(bands@, k)
                    &&& c == covered(bands@, bands@.len() as int)
                    &&& t == total
                    &&& c != t
                },
                Err(_) => false,
            },
    {
        let n: usize = bands.len();
        let mut end: usize = 0;
        let mut k: usize = 0;
        while k < n
            invariant
                n == bands@.len(),
                k <= n,
                end == covered(bands@, k as int),
                forall|j: int| 0 <= j < bands@.len() ==> (#[trigger] bands@[j]).wf(),
                forall|j: int| 0 <= j < k ==> bands@[j].start == #[trigger] covered(bands@, j),
            decreases n - k,
        {
            if bands[k].start as usize != end {
                return Err(InvalidBand::Gap { band: k });
            }
            end = bands[k].end() as usize;
            k = k + 1;
        }
        if end != total {
            return Err(InvalidBand::WrongTotal { covered: end, total });
        }
        Ok(QuantBandLayout { bands, total })
    }

    /// The layout of bands that tile a block.
    pub fn for_block(bands: Vec<QuantBand>, block: BlockSize) -> (layout: Result<Self, InvalidBand>)
        requires
            forall|k: int| 0 <= k < bands@.len() ==> (#[trigger] bands@[k]).wf(),
        ensures
            layout is Ok <==> tiles(bands@, block.sample_count() as int),
            layout matches Ok(l) ==> l.wf() && l.all() == bands@ && l.size()
                == block.sample_count(),
    {
        QuantBandLayout::new(bands, block.samples() as usize)
    }

    /// The bands in order.
    pub fn bands(&self) -> (bands: &[QuantBand])
        ensures
            bands@ == self.all(),
    {
        self.bands.as_slice()
    }

    /// Number of bands.
    pub fn band_count(&self) -> (n: usize)
        ensures
            n == self.all().len(),
    {
        self.bands.len()
    }

    /// Number of coefficients.
    pub fn total_coeffs(&self) -> (n: usize)
        ensures
            n == self.size(),
    {
        self.total
    }

    /// The weight slot of each coefficient.
    pub fn band_map(&self) -> (map: Vec<u16>)
        requires
            self.wf(),
        ensures
            map@.len() == self.size(),
            forall|k: int|
                0 <= k < self.all().len() ==> spread(map@, #[trigger] self.all()[k]),
    {
        let mut map: Vec<u16> = Vec::new();
        let mut k: usize = 0;
        while k < self.bands.len()
            invariant
                self.wf(),
                k <= self.bands@.len(),
                self.all() == self.bands@,
                map@.len() == covered(self.bands@, k as int),
                forall|j: int| 0 <= j < k ==> spread(map@, #[trigger] self.bands@[j]),
            decreases self.bands@.len() - k,
        {
            let band: QuantBand = self.bands[k];
            let ghost before = map@;
            assert(band.wf());
            assert(band.start == covered(self.bands@, k as int));
            let mut i: u16 = 0;
            while i < band.len
                invariant
                    i <= band.len,
                    map@.len() == before.len() + i,
                    forall|m: int| 0 <= m < before.len() ==> #[trigger] map@[m] == before[m],
                    forall|m: int|
                        before.len() <= m < map@.len() ==> #[trigger] map@[m] == band.weight,
                decreases band.len - i,
            {
                map.push(band.weight);
                i = i + 1;
            }
            proof {
                assert forall|j: int| 0 <= j < k + 1 implies spread(
                    map@,
                    #[trigger] self.bands@[j],
                ) by {
                    if j < k {
                        assert(spread(before, self.bands@[j]));
                    }
                }
                assert(covered(self.bands@, k + 1) == self.bands@[k as int].start
                    + self.bands@[k as int].len);
            }
            k = k + 1;
        }
        map
    }
}

/// The bands of a layout follow each other without overlap: each ends before any later one
/// starts, and the last ends where the block does.
pub proof fn bands_do_not_overlap(bands: Seq<QuantBand>, total: int, j: int, k: int)
    requires
        tiles(bands, total),
        0 <= j < k < bands.len(),
    ensures
        bands[j].start + bands[j].len <= bands[k].start,
        bands[k].start + bands[k].len <= total,
        bands[0].start == 0,
        bands.last().start + bands.last().len == total,
{
    lemma_ends_ascend(bands, total, j, k);
    lemma_ends_ascend(bands, total, k, bands.len() as int);
    assert(bands[0].start == covered(bands, 0));
}

/// Up to where bands cover grows with their number.
proof fn lemma_ends_ascend(bands: Seq<QuantBand>, total: int, j: int, k: int)
    requires
        tiles(bands, total),
        0 <= j < k <= bands.len(),
    ensures
        bands[j].start + bands[j].len <= covered(bands, k),
        k < bands.len() ==> bands[k].start == covered(bands, k),
    decreases k - j,
{
    if j + 1 < k {
        lemma_ends_ascend(bands, total, j, k - 1);
        assert(bands[k - 1].start == covered(bands, k - 1));
    }
    if k < bands.len() {
        assert(bands[k].start == covered(bands, k));
    }
}

} // verus!

//! Which weight each coefficient of a block is scaled by.
//!
//! A coefficient is its integer times the weight of its band times the block's
//! step. The products are taken in floating point outside the library; the
//! library says which weight goes with which integer.
use crate::block::BlockSize;
use crate::qband::{spread, QuantBand, QuantBandLayout};
use crate::text::{append_decimal, decimal};
use vstd::prelude::*;
use vstd::string::*;

verus! {

/// Why a stage could not be made, or would not take a block.
#[derive(Debug, Clone, Copy, PartialEq, Eq, Hash, Structural)]
pub enum InvalidDequant {
    /// The layout does not tile a block.
    BlockSizeMismatch {
        /// Coefficients in a block.
        block_size: usize,
        /// Coefficients in the layout.
        layout_total: usize,
    },
    /// A band has no weight.
    WeightIndexOutOfRange {
        /// The band's weight slot.
        weight_index: u16,
        /// Number of weights.
        weights_len: usize,
    },
    /// A block of integers that is not as long as a block.
    CoeffLenMismatch {
        /// Coefficients in a block.
        expected: usize,
        /// Integers offered.
        got: usize,
    },
}

impl InvalidDequant {
    /// What `message` says.
    pub open spec fn text(self) -> Seq<char> {
        match self {
            InvalidDequant::BlockSizeMismatch { block_size, layout_total } =>
                "dequant stage block size "@ + decimal(block_size as nat)
                    + " coefficients does not match quantization-band layout total "@ + decimal(
                layout_total as nat,
            ),
            InvalidDequant::WeightIndexOutOfRange { weight_index, weights_len } =>
                "dequant stage band weight index "@ + decimal(weight_index as nat)
                    + " out of range for weights table of length "@ + decimal(weights_len as nat),
            InvalidDequant::CoeffLenMismatch { expected, got } => "dequant stage block expected "@
                + decimal(expected as nat) + " coefficients, got "@ + decimal(got as nat),
        }
    }

    /// A description for people.
    pub fn message(self) -> (s: String)
        ensures
            s@ == self.text(),
    {
        match self {
            InvalidDequant::BlockSizeMismatch { block_size, layout_total } => {
                let mut s = String::from_str("dequant stage block size ");
                append_decimal(&mut s, block_size as u64);
                s.append(" coefficients does not match quantization-band layout total ");
                append_decimal(&mut s, layout_total as u64);
                s
            },
            InvalidDequant::WeightIndexOutOfRange { weight_index, weights_len } => {
                let mut s = String::from_str("dequant stage band weight index ");
                append_decimal(&mut s, weight_index as u64);
                s.append(" out of range for weights table of length ");
                append_decimal(&mut s, weights_len as u64);
                s
            },
            InvalidDequant::CoeffLenMismatch { expected, got } => {
                let mut s = String::from_str("dequant stage block expected ");
                append_decimal(&mut s, expected as u64);
                s.append(" coefficients, got ");
                append_decimal(&mut s, got as u64);
                s
            },
        }
    }
}

/// An integer and the slot of the weight that scales it.
#[derive(Debug, Clone, Copy, PartialEq, Eq, Hash, Structural)]
pub struct ScaledTerm {
    /// The integer.
    pub q: i32,
    /// The weight's slot.
    pub slot: u16,
}

/// The weight slot of each coefficient of a block.
#[derive(Debug, Clone, PartialEq, Eq)]
pub struct DequantStage {
    size: BlockSize,
    map: Vec<u16>,
    weights: usize,
}

/// Whether band `d` is the first without a weight.
pub open spec fn first_unweighted(bands: Seq<QuantBand>, weights: nat, d: int) -> bool {
    &&& 0 <= d < bands.len()
    &&& bands[d].weight >= weights
    &&& forall|j: int| 0 <= j < d ==> (#[trigger] bands[j]).weight < weights
}

impl DequantStage {
    /// The block size.
    pub closed spec fn block_of(&self) -> BlockSize {
        self.size
    }

    /// The weight slot of each coefficient.
    pub closed spec fn slots(&self) -> Seq<u16> {
        self.map@
    }

    /// Number of weights.
    pub closed spec fn weight_count(&self) -> nat {
        self.weights as nat
    }

    /// The invariant: each coefficient has a slot, and each slot a weight.
    pub open spec fn wf(&self) -> bool {
        &&& self.slots().len() == self.block_of().sample_count()
        &&& forall|k: int|
            0 <= k < self.slots().len() ==> (#[trigger] self.slots()[k]) < self.weight_count()
    }

    /// The stage for blocks of one size that `layout` tiles, with `weights_len`
    /// weights.
    pub fn new(block_size: BlockSize, layout: &QuantBandLayout, weights_len: usize) -> (stage:
        Result<Self, InvalidDequant>)
        requires
            layout.wf(),
        ensures
            match stage {
                Ok(s) => {
                    &&& layout.size() == block_size.sample_count()
                    &&& s.wf()
                    &&& s.block_of() == block_size
                    &&& s.weight_count() == weights_len
                    &&& forall|d: int|
                        0 <= d < layout.all().len() ==> spread(
                            s.slots(),
                            #[trigger] layout.all()[d],
                        )
                },
                Err(InvalidDequant::BlockSizeMismatch { block_size: m, layout_total }) => {
                    &&& m == block_size.sample_count()
                    &&& layout_total == layout.size()
                    &&& m != layout_total
                },
                Err(InvalidDequant::WeightIndexOutOfRange { weight_index, weights_len: n }) => {
                    &&& layout.size() == block_size.sample_count()
                    &&& n == weights_len
                    &&& exists|d: int| #[trigger]
                        first_unweighted(layout.all(), n as nat, d) && weight_index
                            == layout.all()[d].weight
                },
                Err(InvalidDequant::CoeffLenMismatch { .. }) => false,
            },
    {
        let m: usize = block_size.samples() as usize;
        if layout.total_coeffs() != m {
            return Err(
                InvalidDequant::BlockSizeMismatch {
                    block_size: m,
                    layout_total: layout.total_coeffs(),
                },
            );
        }
        let bands: &[QuantBand] = layout.bands();
        let mut d: usize = 0;
        while d < bands.len()
            invariant
                d <= bands@.len(),
                bands@ == layout.all(),
                layout.size() == block_size.sample_count(),
                forall|j: int| 0 <= j < d ==> (#[trigger] bands@[j]).weight < weights_len,
            decreases bands@.len() - d,
        {
            let slot: u16 = bands[d].weight_index();
            if slot as usize >= weights_len {
                assert(first_unweighted(layout.all(), weights_len as nat, d as int));
                return Err(
                    InvalidDequant::WeightIndexOutOfRange { weight_index: slot, weights_len },
                );
            }
            d = d + 1;
        }
        let map: Vec<u16> = layout.band_map();
        proof {
            assert forall|k: int| 0 <= k < map@.len() implies (#[trigger] map@[k])
                < weights_len by {
                let d = crate::qband::lemma_covering_band(
                    layout.all(),
                    layout.size() as int,
                    k,
                );
                assert(spread(map@, layout.all()[d]));
                assert(bands@[d].weight < weights_len);
            }
        }
        Ok(DequantStage { size: block_size, map, weights: weights_len })
    }

    /// The block size.
    pub fn block_size(&self) -> (size: BlockSize)
        ensures
            size == self.block_of(),
    {
        self.size
    }

    /// Coefficients in a block.
    pub fn block_len(&self) -> (m: usize)
        ensures
            m == self.slots().len(),
    {
        self.map.len()
    }

    /// The weight slot of each coefficient.
    pub fn band_map(&self) -> (map: &[u16])
        ensures
            map@ == self.slots(),
    {
        self.map.as_slice()
    }

    /// Each integer of a block with the slot of its weight.
    pub fn block(&self, q: &[i32]) -> (terms: Result<Vec<ScaledTerm>, InvalidDequant>)
        ensures
            match terms {
                Ok(t) => {
                    &&& q@.len() == self.slots().len()
                    &&& t@.len() == q@.len()
                    &&& forall|k: int|
                        0 <= k < q@.len() ==> #[trigger] t@[k] == (ScaledTerm {
                            q: q@[k],
                            slot: self.slots()[k],
                        })
                },
                Err(e) => {
                    &&& q@.len() != self.slots().len()
                    &&& e == (InvalidDequant::CoeffLenMismatch {
                        expected: self.slots().len() as usize,
                        got: q@.len() as usize,
                    })
                },
            },
    {
        let m: usize = self.block_len();
        if q.len() != m {
            return Err(InvalidDequant::CoeffLenMismatch { expected: m, got: q.len() });
        }
        let mut terms: Vec<ScaledTerm> = Vec::new();
        let mut k: usize = 0;
        while k < m
            invariant
                k <= m,
                m == self.map@.len(),
                q@.len() == m,
                terms@.len() == k,
                forall|j: int|
                    0 <= j < k ==> #[trigger] terms@[j] == (ScaledTerm {
                        q: q@[j],
                        slot: self.map@[j],
                    }),
            decreases m - k,
        {
            terms.push(ScaledTerm { q: q[k], slot: self.map[k] });
            k = k + 1;
        }
        Ok(terms)
    }
}

} // verus!

//! Widths of the literals that follow an escape symbol.
use vstd::arithmetic::power2::{lemma2_to64, lemma_pow2_pos, lemma_pow2_strictly_increases, pow2};
use vstd::prelude::*;

verus! {

/// Widths, in bits, of the literal run and the literal level of an escape.
#[derive(Debug, Clone, Copy, PartialEq, Eq, Hash, Structural)]
pub struct EscapeWidths {
    /// Width of the run.
    pub run_bits: u8,
    /// Width of the level.
    pub level_bits: u8,
}

impl EscapeWidths {
    /// The invariant: each width is one to thirty-two bits.
    pub open spec fn wf(&self) -> bool {
        1 <= self.run_bits <= 32 && 1 <= self.level_bits <= 32
    }

    /// The widths, where both are one to thirty-two bits.
    pub fn new(run_bits: u8, level_bits: u8) -> (widths: Option<Self>)
        ensures
            widths == (if 1 <= run_bits <= 32 && 1 <= level_bits <= 32 {
                Some(EscapeWidths { run_bits, level_bits })
            } else {
                None
            }),
    {
        if run_bits == 0 || run_bits > 32 || level_bits == 0 || level_bits > 32 {
            None
        } else {
            Some(EscapeWidths { run_bits, level_bits })
        }
    }

    /// The longest run that the literal can hold.
    pub fn max_run(&self) -> (n: u32)
        requires
            self.wf(),
        ensures
            n == pow2(self.run_bits as nat) - 1,
    {
        all_ones(self.run_bits)
    }

    /// The greatest level that the literal can hold.
    pub fn max_level(&self) -> (n: u32)
        requires
            self.wf(),
        ensures
            n == pow2(self.level_bits as nat) - 1,
    {
        all_ones(self.level_bits)
    }
}

/// The greatest number of `bits` bits.
fn all_ones(bits: u8) -> (n: u32)
    requires
        1 <= bits <= 32,
    ensures
        n == pow2(bits as nat) - 1,
{
    proof {
        lemma2_to64();
        lemma_pow2_pos(bits as nat);
        if bits < 32 {
            lemma_pow2_strictly_increases(bits as nat, 32);
        }
        vstd::bits::lemma_u64_shl_is_mul(1, bits as u64);
    }
    ((1u64 << (bits as u64)) - 1) as u32
}

} // verus!

//! Framing for the forward transform: each frame is the previous block followed
//! by the fresh one.
//!
//! The transform takes two blocks' worth of samples and moves on by one, so that
//! neighbouring frames overlap by half. The window and the transform itself are
//! applied outside the library.
use crate::binary64::Binary64;
use crate::block::BlockSize;
use crate::text::{append_decimal, decimal};
use vstd::prelude::*;
use vstd::string::*;

verus! {

/// The stage and its window were made for different block sizes.
#[derive(Debug, Clone, Copy, PartialEq, Eq, Structural)]
pub struct MismatchedBlockSize {
    /// Block size of the stage.
    pub stage: BlockSize,
    /// Block size of the window pair.
    pub window_pair: BlockSize,
}

/// A block of samples that is not as long as a block.
#[derive(Debug, Clone, Copy, PartialEq, Eq, Hash, Structural)]
pub struct InvalidSampleLen {
    /// Samples in a block.
    pub expected: usize,
    /// Samples offered.
    pub got: usize,
}

impl InvalidSampleLen {
    /// What `message` says.
    pub open spec fn text(self) -> Seq<char> {
        "analysis block expected "@ + decimal(self.expected as nat) + " samples, got "@ + decimal(
            self.got as nat,
        )
    }

    /// A description for people.
    pub fn message(self) -> (s: String)
        ensures
            s@ == self.text(),
    {
        let mut s = String::from_str("analysis block expected ");
        append_decimal(&mut s, self.expected as u64);
        s.append(" samples, got ");
        append_decimal(&mut s, self.got as u64);
        s
    }
}

/// Zero, as a sample.
pub open spec fn silence(n: nat) -> Seq<Binary64> {
    Seq::new(n, |i: int| Binary64 { bits: 0 })
}

/// A block of zeros.
fn silent(n: usize) -> (zeros: Vec<Binary64>)
    ensures
        zeros@ == silence(n as nat),
{
    let mut zeros: Vec<Binary64> = Vec::new();
    let mut i: usize = 0;
    while i < n
        invariant
            i <= n,
            zeros@ == silence(i as nat),
        decreases n - i,
    {
        zeros.push(Binary64::from_bits(0));
        assert(zeros@ =~= silence((i + 1) as nat));
        i = i + 1;
    }
    zeros
}

/// The framing stage: the block size and the previous block.
#[derive(Debug, Clone, PartialEq, Eq)]
pub struct Analysis {
    size: BlockSize,
    prev: Vec<Binary64>,
}

impl Analysis {
    /// The block size.
    pub closed spec fn block_of(&self) -> BlockSize {
        self.size
    }

    /// The previous block.
    pub closed spec fn carried(&self) -> Seq<Binary64> {
        self.prev@
    }

    /// The invariant: the previous block is as long as a block.
    pub open spec fn wf(&self) -> bool {
        self.carried().len() == self.block_of().sample_count()
    }

    /// A stage for blocks of one size, with zeros before the first block.
    pub fn new(block_size: BlockSize, window_pair: BlockSize) -> (stage: Result<
        Self,
        MismatchedBlockSize,
    >)
        ensures
            match stage {
                Ok(s) => {
                    &&& block_size == window_pair
                    &&& s.wf()
                    &&& s.block_of() == block_size
                    &&& s.carried() == silence(block_size.sample_count())
                },
                Err(e) => {
                    &&& block_size != window_pair
                    &&& e == (MismatchedBlockSize { stage: block_size, window_pair })
                },
            },
    {
        if window_pair != block_size {
            return Err(MismatchedBlockSize { stage: block_size, window_pair });
        }
        let m: usize = block_size.samples() as usize;
        Ok(Analysis { size: block_size, prev: silent(m) })
    }

    /// The block size.
    pub fn block_size(&self) -> (size: BlockSize)
        ensures
            size == self.block_of(),
    {
        self.size
    }

    /// Samples in a block.
    pub fn block_len(&self) -> (m: usize)
        requires
            self.wf(),
        ensures
            m == self.block_of().sample_count(),
    {
        self.prev.len()
    }

    /// The previous block.
    pub fn prev(&self) -> (samples: &[Binary64])
        ensures
            samples@ == self.carried(),
    {
        self.prev.as_slice()
    }

    /// The frame for the transform: the previous block and then `samples`, which
    /// becomes the previous block. A block of another length is refused and
    /// changes nothing.
    pub fn block(&mut self, samples: &[Binary64]) -> (frame: Result<Vec<Binary64>, InvalidSampleLen>)
        requires
            old(self).wf(),
        ensures
            final(self).wf(),
            final(self).block_of() == old(self).block_of(),
            match frame {
                Ok(f) => {
                    &&& samples@.len() == old(self).block_of().sample_count()
                    &&& f@ == old(self).carried() + samples@
                    &&& final(self).carried() == samples@
                },
                Err(e) => {
                    &&& samples@.len() != old(self).block_of().sample_count()
                    &&& e.expected == old(self).block_of().sample_count()
                    &&& e.got == samples@.len()
                    &&& final(self).carried() == old(self).carried()
                },
            },
    {
        let m: usize = self.block_len();
        if samples.len() != m {
            return Err(InvalidSampleLen { expected: m, got: samples.len() });
        }
        let mut frame: Vec<Binary64> = Vec::new();
        let mut i: usize = 0;
        while i < m
            invariant
                i <= m,
                m == self.prev@.len(),
                frame@ == self.prev@.take(i as int),
            decreases m - i,
        {
            frame.push(self.prev[i]);
            assert(self.prev@.take(i as int).push(self.prev@[i as int]) =~= self.prev@.take(i + 1));
            i = i + 1;
        }
        assert(self.prev@.take(m as int) =~= self.prev@);
        let mut fresh: Vec<Binary64> = Vec::new();
        let mut j: usize = 0;
        let ghost carried = self.prev@;
        while j < m
            invariant
                j <= m,
                m == samples@.len(),
                fresh@ == samples@.take(j as int),
                frame@ == carried + samples@.take(j as int),
            decreases m - j,
        {
            frame.push(samples[j]);
            fresh.push(samples[j]);
            assert(samples@.take(j as int).push(samples@[j as int]) =~= samples@.take(j + 1));
            j = j + 1;
        }
        assert(samples@.take(m as int) =~= samples@);
        self.prev = fresh;
        Ok(frame)
    }

    /// The last frame of a stream: the previous block and then zeros.
    pub fn flush(&mut self) -> (frame: Vec<Binary64>)
        requires
            old(self).wf(),
        ensures
            final(self).wf(),
            final(self).block_of() == old(self).block_of(),
            frame@ == old(self).carried() + silence(old(self).block_of().sample_count()),
            final(self).carried() == silence(old(self).block_of().sample_count()),
    {
        let m: usize = self.block_len();
        let zeros: Vec<Binary64> = silent(m);
        match self.block(zeros.as_slice()) {
            Ok(frame) => frame,
            Err(_) => Vec::new(),
        }
    }

    /// Forget the previous block, as at a seek.
    pub fn reset(&mut self)
        requires
            old(self).wf(),
        ensures
            final(self).wf(),
            final(self).block_of() == old(self).block_of(),
            final(self).carried() == silence(old(self).block_of().sample_count()),
    {
        let m: usize = self.block_len();
        self.prev = silent(m);
    }
}

/// Neighbouring frames overlap by half: the second half of a frame is the first
/// half of the next.
pub proof fn frames_overlap(prev: Seq<Binary64>, a: Seq<Binary64>, b: Seq<Binary64>)
    requires
        prev.len() == a.len(),
        a.len() == b.len(),
    ensures
        (prev + a).skip(a.len() as int) == (a + b).take(a.len() as int),
{
    assert((prev + a).skip(a.len() as int) =~= a);
    assert((a + b).take(a.len() as int) =~= a);
}

} // verus!

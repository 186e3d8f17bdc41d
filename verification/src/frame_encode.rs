//! Cutting a frame's samples into blocks.
use crate::binary64::Binary64;
use crate::block::BlockSize;
use crate::channel_decision::ChannelMode;
use crate::encode::{ChannelEncoder, EncodeError};
use crate::text::{append_decimal, decimal};
use vstd::prelude::*;
use vstd::string::*;

verus! {

/// Why a frame cannot be cut into blocks.
#[derive(Debug, Clone, Copy, PartialEq, Eq, Hash, Structural)]
pub enum InvalidFrameLen {
    /// The frame does not end where a block does.
    NotBlockAligned {
        /// Samples in a block.
        block_len: usize,
        /// Samples in the frame.
        got: usize,
    },
    /// The channels differ in length.
    ChannelLenMismatch {
        /// Samples of the left channel.
        left: usize,
        /// Samples of the right channel.
        right: usize,
    },
    /// There is not one mode for each block.
    ModeCountMismatch {
        /// Number of blocks.
        expected_blocks: usize,
        /// Number of modes.
        got_modes: usize,
    },
}

impl InvalidFrameLen {
    /// What `message` says.
    pub open spec fn text(self) -> Seq<char> {
        match self {
            InvalidFrameLen::NotBlockAligned { block_len, got } =>
                "oxideav-wma::frame_encode: frame length "@ + decimal(got as nat)
                    + " is not a multiple of the block length "@ + decimal(block_len as nat),
            InvalidFrameLen::ChannelLenMismatch { left, right } =>
                "oxideav-wma::frame_encode: stereo frame channels disagree ("@ + decimal(
                left as nat,
            ) + " left samples vs "@ + decimal(right as nat) + " right)"@,
            InvalidFrameLen::ModeCountMismatch { expected_blocks, got_modes } =>
                "oxideav-wma::frame_encode: stereo frame has "@ + decimal(expected_blocks as nat)
                    + " blocks but "@ + decimal(got_modes as nat) + " channel-mode entries"@,
        }
    }

    /// A description for people.
    pub fn message(self) -> (s: String)
        ensures
            s@ == self.text(),
    {
        match self {
            InvalidFrameLen::NotBlockAligned { block_len, got } => {
                let mut s = String::from_str("oxideav-wma::frame_encode: frame length ");
                append_decimal(&mut s, got as u64);
                s.append(" is not a multiple of the block length ");
                append_decimal(&mut s, block_len as u64);
                s
            },
            InvalidFrameLen::ChannelLenMismatch { left, right } => {
                let mut s = String::from_str(
                    "oxideav-wma::frame_encode: stereo frame channels disagree (",
                );
                append_decimal(&mut s, left as u64);
                s.append(" left samples vs ");
                append_decimal(&mut s, right as u64);
                s.append(" right)");
                s
            },
            InvalidFrameLen::ModeCountMismatch { expected_blocks, got_modes } => {
                let mut s = String::from_str("oxideav-wma::frame_encode: stereo frame has ");
                append_decimal(&mut s, expected_blocks as u64);
                s.append(" blocks but ");
                append_decimal(&mut s, got_modes as u64);
                s.append(" channel-mode entries");
                s
            },
        }
    }
}

/// Why a frame of one channel could not be encoded.
#[derive(Debug, Clone, PartialEq, Eq)]
pub enum FrameEncodeError {
    /// The frame cannot be cut into blocks.
    FrameLen(InvalidFrameLen),
    /// A block could not be encoded.
    Block(EncodeError),
}

impl FrameEncodeError {
    /// What `message` says.
    pub open spec fn text(&self) -> Seq<char> {
        match self {
            FrameEncodeError::FrameLen(e) => e.text(),
            FrameEncodeError::Block(e) => "oxideav-wma::frame_encode: "@ + e.text(),
        }
    }

    /// A description for people.
    pub fn message(&self) -> (s: String)
        ensures
            s@ == self.text(),
    {
        match self {
            FrameEncodeError::FrameLen(e) => e.message(),
            FrameEncodeError::Block(e) => {
                let mut s = String::from_str("oxideav-wma::frame_encode: ");
                let tail: String = e.message();
                s.append(tail.as_str());
                s
            },
        }
    }
}

/// Why a frame of two channels could not be encoded.
#[derive(Debug, Clone, PartialEq, Eq)]
pub enum StereoFrameEncodeError {
    /// The frame cannot be cut into blocks.
    FrameLen(InvalidFrameLen),
    /// A block could not be encoded; what the encoder said.
    Block(String),
}

impl StereoFrameEncodeError {
    /// What `message` says.
    pub open spec fn text(&self) -> Seq<char> {
        match self {
            StereoFrameEncodeError::FrameLen(e) => e.text(),
            StereoFrameEncodeError::Block(e) => "oxideav-wma::frame_encode: "@ + e@,
        }
    }

    /// A description for people.
    pub fn message(&self) -> (s: String)
        ensures
            s@ == self.text(),
    {
        match self {
            StereoFrameEncodeError::FrameLen(e) => e.message(),
            StereoFrameEncodeError::Block(e) => {
                let mut s = String::from_str("oxideav-wma::frame_encode: ");
                s.append(e.as_str());
                s
            },
        }
    }
}

/// The frames for the transform that a run of blocks gives: each two blocks long
/// and one block after the one before it, the first from the carried block on.
pub open spec fn windows(carried: Seq<Binary64>, pcm: Seq<Binary64>, m: nat) -> Seq<Seq<Binary64>> {
    Seq::new(
        pcm.len() / m,
        |t: int| (carried + pcm).subrange(t * m, t * m + 2 * m),
    )
}

/// The block that is carried on after a run of blocks.
pub open spec fn carried_on(carried: Seq<Binary64>, pcm: Seq<Binary64>) -> Seq<Binary64> {
    (carried + pcm).skip(pcm.len() as int)
}

/// The encoder of a channel's frames.
#[derive(Debug, Clone, PartialEq, Eq)]
pub struct FrameEncoder {
    encoder: ChannelEncoder,
}

impl FrameEncoder {
    /// The chain that takes the blocks.
    pub closed spec fn chain(&self) -> ChannelEncoder {
        self.encoder
    }

    /// The invariant.
    pub open spec fn wf(&self) -> bool {
        self.chain().wf()
    }

    /// Samples in a block.
    pub open spec fn unit(&self) -> nat {
        self.chain().framing().block_of().sample_count()
    }

    /// The encoder over a chain.
    pub fn new(encoder: ChannelEncoder) -> (e: Self)
        ensures
            e.chain() == encoder,
    {
        FrameEncoder { encoder }
    }

    /// Samples in a block.
    pub fn block_len(&self) -> (m: usize)
        requires
            self.wf(),
        ensures
            m == self.unit(),
    {
        self.encoder.block_len()
    }

    /// The chain that takes the blocks.
    pub fn encoder(&self) -> (chain: &ChannelEncoder)
        ensures
            *chain == self.chain(),
    {
        &self.encoder
    }

    /// Cut a frame into blocks and give the frame of each for the transform. A
    /// frame that does not end where a block does is refused and changes nothing.
    pub fn encode_frame(&mut self, pcm: &[Binary64]) -> (frames: Result<
        Vec<Vec<Binary64>>,
        FrameEncodeError,
    >)
        requires
            old(self).wf(),
        ensures
            final(self).wf(),
            final(self).unit() == old(self).unit(),
            final(self).chain().partition() == old(self).chain().partition(),
            match frames {
                Ok(f) => {
                    let carried = old(self).chain().framing().carried();
                    let expected = windows(carried, pcm@, old(self).unit());
                    &&& pcm@.len() % old(self).unit() == 0
                    &&& f@.len() == expected.len()
                    &&& forall|t: int| 0 <= t < f@.len() ==> (#[trigger] f@[t])@ == expected[t]
                    &&& final(self).chain().framing().carried() == carried_on(carried, pcm@)
                },
                Err(e) => {
                    &&& pcm@.len() % old(self).unit() != 0
                    &&& e == FrameEncodeError::FrameLen(
                        InvalidFrameLen::NotBlockAligned {
                            block_len: old(self).unit() as usize,
                            got: pcm@.len() as usize,
                        },
                    )
                    &&& final(self).chain().framing().carried()
                        == old(self).chain().framing().carried()
                },
            },
    {
        let m: usize = self.block_len();
        let ghost unit = self.unit();
        let ghost carried = self.chain().framing().carried();
        let ghost stream = carried + pcm@;
        let len: usize = pcm.len();
        if len % m != 0 {
            return Err(
                FrameEncodeError::FrameLen(
                    InvalidFrameLen::NotBlockAligned { block_len: m, got: len },
                ),
            );
        }
        let blocks: usize = len / m;
        proof {
            vstd::arithmetic::div_mod::lemma_fundamental_div_mod(len as int, m as int);
            assert(m * blocks == blocks * m) by (nonlinear_arith);
            assert(stream.subrange(0, m as int) =~= carried);
        }
        let mut frames: Vec<Vec<Binary64>> = Vec::new();
        let mut t: usize = 0;
        while t < blocks
            invariant
                self.wf(),
                self.unit() == unit,
                self.chain().partition() == old(self).chain().partition(),
                m == unit,
                m > 0,
                t <= blocks,
                len == pcm@.len(),
                blocks * m == len,
                carried.len() == m,
                stream == carried + pcm@,
                frames@.len() == t,
                forall|j: int|
                    0 <= j < t ==> (#[trigger] frames@[j])@ == stream.subrange(
                        j * m,
                        j * m + 2 * m,
                    ),
                self.chain().framing().carried() == stream.subrange(t * m, t * m + m),
            decreases blocks - t,
        {
            proof {
                lemma_block_bounds(t as int, blocks as int, m as int);
            }
            let from: usize = t * m;
            let chunk: &[Binary64] = vstd::slice::slice_subrange(pcm, from, from + m);
            let frame: Vec<Binary64> = match self.encoder.block(chunk) {
                Ok(frame) => frame,
                Err(e) => {
                    return Err(FrameEncodeError::Block(e));
                },
            };
            proof {
                assert(chunk@ =~= stream.subrange(t * m + m, t * m + 2 * m));
                assert(frame@ =~= stream.subrange(t * m, t * m + 2 * m));
                assert((t + 1) * m == t * m + m) by (nonlinear_arith);
            }
            frames.push(frame);
            t = t + 1;
        }
        proof {
            let expected = windows(carried, pcm@, unit);
            assert(expected.len() == blocks);
            assert(self.chain().framing().carried() =~= carried_on(carried, pcm@));
        }
        Ok(frames)
    }

    /// The last frame of a stream: that of a block of zeros.
    pub fn flush(&mut self) -> (frame: Vec<Binary64>)
        requires
            old(self).wf(),
        ensures
            final(self).wf(),
            final(self).unit() == old(self).unit(),
            final(self).chain().partition() == old(self).chain().partition(),
            frame@ == old(self).chain().framing().carried() + crate::analysis::silence(
                old(self).unit(),
            ),
            final(self).chain().framing().carried() == crate::analysis::silence(old(self).unit()),
    {
        self.encoder.flush()
    }

    /// Forget the previous block, as at a seek.
    pub fn reset(&mut self)
        requires
            old(self).wf(),
        ensures
            final(self).wf(),
            final(self).unit() == old(self).unit(),
            final(self).chain().partition() == old(self).chain().partition(),
            final(self).chain().framing().carried() == crate::analysis::silence(old(self).unit()),
    {
        self.encoder.reset();
    }
}

proof fn lemma_block_bounds(t: int, blocks: int, m: int)
    requires
        0 <= t < blocks,
        m > 0,
    ensures
        0 <= t * m,
        t * m + m <= blocks * m,
{
    assert(0 <= t * m) by (nonlinear_arith)
        requires
            t >= 0,
            m > 0,
    ;
    assert((t + 1) * m <= blocks * m) by (nonlinear_arith)
        requires
            t + 1 <= blocks,
            m > 0,
    ;
    assert((t + 1) * m == t * m + m) by (nonlinear_arith);
}

/// Where a frame ends makes no difference: two frames one after the other give
/// what one frame of all the samples gives, and carry on the same block.
pub proof fn frames_encode_contiguously(
    carried: Seq<Binary64>,
    a: Seq<Binary64>,
    b: Seq<Binary64>,
    m: nat,
)
    requires
        m > 0,
        carried.len() == m,
        a.len() % m == 0,
        b.len() % m == 0,
    ensures
        windows(carried, a, m) + windows(carried_on(carried, a), b, m) == windows(
            carried,
            a + b,
            m,
        ),
        carried_on(carried_on(carried, a), b) == carried_on(carried, a + b),
{
    let n = (a.len() / m) as int;
    let k = (b.len() / m) as int;
    vstd::arithmetic::div_mod::lemma_fundamental_div_mod(a.len() as int, m as int);
    vstd::arithmetic::div_mod::lemma_fundamental_div_mod(b.len() as int, m as int);
    vstd::arithmetic::mul::lemma_mul_is_commutative(m as int, n);
    vstd::arithmetic::mul::lemma_mul_is_commutative(m as int, k);
    vstd::arithmetic::mul::lemma_mul_is_distributive_add(m as int, n, k);
    let total = (a + b).len() as int;
    vstd::arithmetic::div_mod::lemma_div_multiples_vanish(n + k, m as int);
    assert(total == m * (n + k));
    assert((a + b).len() / m == n + k);
    let next = carried_on(carried, a);
    let left = windows(carried, a, m);
    let right = windows(next, b, m);
    let whole = windows(carried, a + b, m);
    assert(left.len() == n && right.len() == k && whole.len() == n + k);
    assert forall|t: int| 0 <= t < n + k implies (left + right)[t] == #[trigger] whole[t] by {
        if t < n {
            lemma_block_bounds(t, n, m as int);
            assert(left[t] =~= whole[t]);
        } else {
            let u = t - n;
            lemma_block_bounds(u, k, m as int);
            assert(t * m == u * m + n * m) by (nonlinear_arith)
                requires
                    t == u + n,
            ;
            assert(right[u] =~= whole[t]);
        }
    }
    assert(left + right =~= whole);
    assert(carried_on(next, b) =~= carried_on(carried, a + b));
}

/// A block of both channels and how they are coded.
#[derive(Debug, Clone, PartialEq, Eq)]
pub struct StereoInput {
    /// Samples of the left channel.
    pub left: Vec<Binary64>,
    /// Samples of the right channel.
    pub right: Vec<Binary64>,
    /// How the channels are coded.
    pub mode: ChannelMode,
}

/// Cuts frames of two channels into blocks.
#[derive(Debug, Clone, Copy, PartialEq, Eq)]
pub struct StereoFrameEncoder {
    size: BlockSize,
}

/// What is wrong with a frame of two channels, if anything: the channels'
/// lengths first, then the end of the frame, then the number of modes.
pub open spec fn stereo_fault(left: nat, right: nat, modes: nat, m: nat) -> Option<InvalidFrameLen> {
    if left != right {
        Some(
            InvalidFrameLen::ChannelLenMismatch { left: left as usize, right: right as usize },
        )
    } else if left % m != 0 {
        Some(InvalidFrameLen::NotBlockAligned { block_len: m as usize, got: left as usize })
    } else if left / m != modes {
        Some(
            InvalidFrameLen::ModeCountMismatch {
                expected_blocks: (left / m) as usize,
                got_modes: modes as usize,
            },
        )
    } else {
        None
    }
}

impl StereoFrameEncoder {
    /// The block size.
    pub closed spec fn block_of(&self) -> BlockSize {
        self.size
    }

    /// The encoder for blocks of one size.
    pub fn new(size: BlockSize) -> (e: Self)
        ensures
            e.block_of() == size,
    {
        StereoFrameEncoder { size }
    }

    /// Samples of a channel in a block.
    pub fn block_len(&self) -> (m: usize)
        ensures
            m == self.block_of().sample_count(),
    {
        self.size.samples() as usize
    }

    /// Cut a frame into blocks, each with its mode.
    pub fn encode_frame(
        &self,
        left: &[Binary64],
        right: &[Binary64],
        modes: &[ChannelMode],
    ) -> (blocks: Result<Vec<StereoInput>, StereoFrameEncodeError>)
        ensures
            match blocks {
                Ok(b) => {
                    let m = self.block_of().sample_count();
                    &&& stereo_fault(left@.len(), right@.len(), modes@.len(), m) is None
                    &&& b@.len() == modes@.len()
                    &&& forall|t: int|
                        0 <= t < b@.len() ==> (#[trigger] b@[t]).mode == modes@[t] && b@[t].left@
                            == left@.subrange(t * m, t * m + m) && b@[t].right@ == right@.subrange(
                            t * m,
                            t * m + m,
                        )
                },
                Err(e) => {
                    let fault = stereo_fault(
                        left@.len(),
                        right@.len(),
                        modes@.len(),
                        self.block_of().sample_count(),
                    );
                    &&& fault is Some
                    &&& e == StereoFrameEncodeError::FrameLen(fault.unwrap())
                },
            },
    {
        let m: usize = self.block_len();
        let n: usize = left.len();
        if n != right.len() {
            return Err(
                StereoFrameEncodeError::FrameLen(
                    InvalidFrameLen::ChannelLenMismatch { left: n, right: right.len() },
                ),
            );
        }
        if n % m != 0 {
            return Err(
                StereoFrameEncodeError::FrameLen(
                    InvalidFrameLen::NotBlockAligned { block_len: m, got: n },
                ),
            );
        }
        let count: usize = n / m;
        if count != modes.len() {
            return Err(
                StereoFrameEncodeError::FrameLen(
                    InvalidFrameLen::ModeCountMismatch {
                        expected_blocks: count,
                        got_modes: modes.len(),
                    },
                ),
            );
        }
        proof {
            vstd::arithmetic::div_mod::lemma_fundamental_div_mod(n as int, m as int);
            assert(m * count == count * m) by (nonlinear_arith);
        }
        let mut blocks: Vec<StereoInput> = Vec::new();
        let mut t: usize = 0;
        while t < count
            invariant
                m > 0,
                t <= count,
                count == modes@.len(),
                n == left@.len(),
                n == right@.len(),
                count * m == n,
                blocks@.len() == t,
                forall|j: int|
                    0 <= j < t ==> (#[trigger] blocks@[j]).mode == modes@[j] && blocks@[j].left@
                        == left@.subrange(j * m, j * m + m) && blocks@[j].right@ == right@.subrange(
                        j * m,
                        j * m + m,
                    ),
            decreases count - t,
        {
            proof {
                lemma_block_bounds(t as int, count as int, m as int);
            }
            let from: usize = t * m;
            let l: Vec<Binary64> = section(left, from, m);
            let r: Vec<Binary64> = section(right, from, m);
            blocks.push(StereoInput { left: l, right: r, mode: modes[t] });
            t = t + 1;
        }
        Ok(blocks)
    }
}

/// `m` samples from `from` on.
fn section(samples: &[Binary64], from: usize, m: usize) -> (part: Vec<Binary64>)
    requires
        from + m <= samples@.len(),
    ensures
        part@ == samples@.subrange(from as int, from + m),
{
    let n: usize = samples.len();
    let mut part: Vec<Binary64> = Vec::new();
    let mut i: usize = 0;
    while i < m
        invariant
            i <= m,
            n == samples@.len(),
            from + m <= n,
            part@ == samples@.subrange(from as int, from + i),
        decreases m - i,
    {
        part.push(samples[from + i]);
        assert(samples@.subrange(from as int, from + i).push(samples@[from + i])
            =~= samples@.subrange(from as int, from + i + 1));
        i = i + 1;
    }
    part
}

/// Each frame for the transform is a block and the one before it: its second half is its
/// own block of the samples, its first half the block before, which for the first frame is
/// the carried one. What is carried on is the last block.
pub proof fn windows_are_neighbouring_blocks(
    carried: Seq<Binary64>,
    pcm: Seq<Binary64>,
    m: nat,
    t: int,
)
    requires
        m > 0,
        carried.len() == m,
        pcm.len() % m == 0,
        0 <= t < pcm.len() as int / m as int,
    ensures
        windows(carried, pcm, m).len() == pcm.len() as int / m as int,
        windows(carried, pcm, m)[t].len() == 2 * m,
        windows(carried, pcm, m)[t].skip(m as int) == pcm.subrange(t * m, t * m + m),
        t == 0 ==> windows(carried, pcm, m)[t].take(m as int) == carried,
        t > 0 ==> windows(carried, pcm, m)[t].take(m as int) == windows(carried, pcm, m)[t
            - 1].skip(m as int),
        t == pcm.len() as int / m as int - 1 ==> carried_on(carried, pcm) == pcm.subrange(
            t * m,
            t * m + m,
        ),
{
    let n = pcm.len() as int;
    let k = n / m as int;
    let unit = m as int;
    vstd::arithmetic::div_mod::lemma_fundamental_div_mod(n, unit);
    assert(unit * k == k * unit) by (nonlinear_arith);
    lemma_block_bounds(t, k, unit);
    let all = carried + pcm;
    let w = windows(carried, pcm, m);
    assert(w[t] == all.subrange(t * m, t * m + 2 * m));
    assert(w[t].skip(unit) =~= pcm.subrange(t * m, t * m + m));
    if t == 0 {
        assert(0 * unit == 0);
        assert(w[t].take(unit) =~= carried);
    } else {
        lemma_block_bounds(t - 1, k, unit);
        assert((t - 1) * unit + unit == t * unit) by (nonlinear_arith);
        assert(w[t - 1] == all.subrange((t - 1) * m, (t - 1) * m + 2 * m));
        assert(w[t].take(unit) =~= w[t - 1].skip(unit));
    }
    if t == k - 1 {
        assert(t * unit + unit == k * unit) by (nonlinear_arith)
            requires
                t == k - 1,
        ;
        assert(carried_on(carried, pcm) =~= pcm.subrange(t * m, t * m + m));
    }
}

/// A frame of two channels is refused for its first fault: channels of different lengths; an
/// end that is not that of a block; and another number of modes than of blocks.
pub proof fn stereo_frames_are_refused_for_their_first_fault(
    left: nat,
    right: nat,
    modes: nat,
    m: nat,
)
    requires
        m > 0,
        left <= usize::MAX,
        right <= usize::MAX,
        modes <= usize::MAX,
        m <= usize::MAX,
    ensures
        stereo_fault(left, right, modes, m) is None <==> left == right && left == modes * m,
        left != right ==> stereo_fault(left, right, modes, m) == Some(
            InvalidFrameLen::ChannelLenMismatch { left: left as usize, right: right as usize },
        ),
        left == right && left % m != 0 ==> stereo_fault(left, right, modes, m) == Some(
            InvalidFrameLen::NotBlockAligned { block_len: m as usize, got: left as usize },
        ),
        left == right && left % m == 0 && left != modes * m ==> {
            &&& stereo_fault(left, right, modes, m) matches Some(
                InvalidFrameLen::ModeCountMismatch { expected_blocks, got_modes },
            )
            &&& expected_blocks * m == left
            &&& got_modes == modes
        },
{
    let q = left as int / m as int;
    vstd::arithmetic::div_mod::lemma_fundamental_div_mod(left as int, m as int);
    assert(m * q == q * m) by (nonlinear_arith);
    assert(q <= left) by (nonlinear_arith)
        requires
            q * m <= left,
            m >= 1,
            q >= 0,
    ;
    if left == modes * m {
        vstd::arithmetic::div_mod::lemma_fundamental_div_mod_converse(
            left as int,
            m as int,
            modes as int,
            0,
        );
        assert(m * modes == modes * m) by (nonlinear_arith);
    }
}

} // verus!

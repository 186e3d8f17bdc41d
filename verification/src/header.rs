//! The stream header: container fields and codec-private flags.
use crate::Error;
use vstd::arithmetic::power2::{lemma2_to64, pow2};
use vstd::prelude::*;

verus! {

/// The two bitstream versions.
#[derive(Debug, Clone, Copy, PartialEq, Eq, Hash, Structural)]
pub enum Version {
    /// Version 1.
    V1,
    /// Version 2.
    V2,
}

impl Version {
    /// Codec-private bytes the version needs.
    pub open spec fn private_len(self) -> nat {
        match self {
            Version::V1 => 4,
            Version::V2 => 6,
        }
    }

    /// Codec-private bytes the version needs.
    pub fn extradata_len(self) -> (n: usize)
        ensures
            n == self.private_len(),
    {
        match self {
            Version::V1 => 4,
            Version::V2 => 6,
        }
    }

    /// The version of a container codec id.
    pub fn from_codec_id(id: u16) -> (version: Option<Self>)
        ensures
            version == (if id == 0x160 {
                Some(Version::V1)
            } else if id == 0x161 {
                Some(Version::V2)
            } else {
                None
            }),
    {
        match id {
            0x160 => Some(Version::V1),
            0x161 => Some(Version::V2),
            _ => None,
        }
    }
}

/// A parsed stream header.
#[derive(Debug, Clone, PartialEq, Eq)]
pub struct WmaHeader {
    /// Bitstream version.
    pub version: Version,
    /// Sample rate the codec works at.
    pub sample_rate: u32,
    /// Channel count.
    pub channels: u8,
    /// Bit rate.
    pub bit_rate: u32,
    /// Bytes per container block.
    pub block_align: u16,
    /// First flag word.
    pub flags1: u32,
    /// Second flag word.
    pub flags2: u16,
    /// Exponents are variable-length coded.
    pub exp_vlc: bool,
    /// The bit reservoir is in use.
    pub bit_reservoir: bool,
    /// Block lengths vary.
    pub variable_block_length: bool,
    /// Binary logarithm of the frame length.
    pub frame_length_bits: u8,
    /// Frame length in samples.
    pub frame_length: u16,
}

/// The number a little-endian byte string spells.
pub open spec fn little_endian(bytes: Seq<u8>) -> nat
    decreases bytes.len(),
{
    if bytes.len() == 0 {
        0
    } else {
        bytes[0] as nat + 256 * little_endian(bytes.skip(1))
    }
}

/// First flag word of the codec-private data.
pub open spec fn flags1_of(version: Version, extradata: Seq<u8>) -> nat {
    match version {
        Version::V1 => little_endian(extradata.take(2)),
        Version::V2 => little_endian(extradata.take(4)),
    }
}

/// Second flag word of the codec-private data.
pub open spec fn flags2_of(version: Version, extradata: Seq<u8>) -> nat {
    match version {
        Version::V1 => little_endian(extradata.subrange(2, 4)),
        Version::V2 => little_endian(extradata.subrange(4, 6)),
    }
}

/// The greatest of the version 2 sample rates that does not exceed
/// `sample_rate`; a rate below all of them stands as it is.
pub open spec fn floor_rate_v2(sample_rate: nat) -> nat {
    if sample_rate >= 44_100 {
        44_100
    } else if sample_rate >= 22_050 {
        22_050
    } else if sample_rate >= 16_000 {
        16_000
    } else if sample_rate >= 11_025 {
        11_025
    } else if sample_rate >= 8_000 {
        8_000
    } else {
        sample_rate
    }
}

/// The rate a stream of `version` works at.
pub open spec fn working_rate(version: Version, sample_rate: nat) -> nat {
    match version {
        Version::V1 => sample_rate,
        Version::V2 => floor_rate_v2(sample_rate),
    }
}

/// Binary logarithm of the frame length at a working rate.
pub open spec fn frame_exponent(version: Version, rate: nat) -> nat {
    if rate <= 16_000 {
        9
    } else if rate <= 22_050 || (version == Version::V1 && rate <= 32_000) {
        10
    } else {
        11
    }
}

pub(crate) fn read_le16(bytes: &[u8], at: usize) -> (v: u16)
    requires
        at + 2 <= bytes@.len(),
    ensures
        v == little_endian(bytes@.subrange(at as int, at + 2)),
{
    let v: u16 = bytes[at] as u16 + 256 * (bytes[at + 1] as u16);
    proof {
        reveal_with_fuel(little_endian, 3);
        let s = bytes@.subrange(at as int, at + 2);
        assert(s.skip(1)[0] == bytes@[at + 1]);
    }
    v
}

pub(crate) fn read_le32(bytes: &[u8], at: usize) -> (v: u32)
    requires
        at + 4 <= bytes@.len(),
    ensures
        v == little_endian(bytes@.subrange(at as int, at + 4)),
{
    let v: u32 = bytes[at] as u32 + 256 * (bytes[at + 1] as u32 + 256 * (bytes[at + 2] as u32 + 256
        * (bytes[at + 3] as u32)));
    proof {
        reveal_with_fuel(little_endian, 5);
        let s = bytes@.subrange(at as int, at + 4);
        assert(s.skip(1)[0] == bytes@[at + 1]);
        assert(s.skip(1).skip(1)[0] == bytes@[at + 2]);
        assert(s.skip(1).skip(1).skip(1)[0] == bytes@[at + 3]);
    }
    v
}

pub(crate) fn read_le64(bytes: &[u8], at: usize) -> (v: u64)
    requires
        at + 8 <= bytes@.len(),
    ensures
        v == little_endian(bytes@.subrange(at as int, at + 8)),
{
    let end: usize = bytes.len();
    assert(at + 8 <= end);
    let low: u64 = read_le32(bytes, at) as u64;
    let high: u64 = read_le32(bytes, at + 4) as u64;
    let v: u64 = low + 0x1_0000_0000 * high;
    proof {
        let s = bytes@.subrange(at as int, at + 8);
        assert(s.take(4) =~= bytes@.subrange(at as int, at + 4));
        assert(s.skip(4) =~= bytes@.subrange(at + 4, at + 8));
        lemma_little_endian_split(s, 4);
        assert(vstd::arithmetic::power::pow(256, 4) == 0x1_0000_0000) by {
            reveal_with_fuel(vstd::arithmetic::power::pow, 5);
        }
    }
    v
}

/// A little-endian number is its low part plus its high part, scaled.
proof fn lemma_little_endian_split(s: Seq<u8>, k: nat)
    requires
        k <= s.len(),
    ensures
        little_endian(s) == little_endian(s.take(k as int)) + vstd::arithmetic::power::pow(256, k)
            * little_endian(s.skip(k as int)),
    decreases k,
{
    reveal(vstd::arithmetic::power::pow);
    let high = little_endian(s.skip(k as int)) as int;
    if k == 0 {
        assert(s.skip(0) =~= s);
        assert(1 * high == high);
    } else {
        let j = (k - 1) as nat;
        lemma_little_endian_split(s.skip(1), j);
        assert(s.skip(1).skip(j as int) =~= s.skip(k as int));
        assert(s.take(k as int).skip(1) =~= s.skip(1).take(j as int));
        let q = vstd::arithmetic::power::pow(256, j);
        assert(256 * (q * high) == (256 * q) * high) by (nonlinear_arith);
    }
}

impl WmaHeader {
    /// Parse a header from its container fields. A zero sample rate is refused
    /// first, then codec-private data that is too short.
    pub fn parse(
        version: Version,
        sample_rate: u32,
        channels: u8,
        bit_rate: u32,
        block_align: u16,
        extradata: &[u8],
    ) -> (header: Result<Self, Error>)
        ensures
            match header {
                Ok(h) => {
                    &&& sample_rate != 0
                    &&& extradata@.len() >= version.private_len()
                    &&& h.version == version
                    &&& h.sample_rate == working_rate(version, sample_rate as nat)
                    &&& h.channels == channels
                    &&& h.bit_rate == bit_rate
                    &&& h.block_align == block_align
                    &&& h.flags1 == flags1_of(version, extradata@)
                    &&& h.flags2 == flags2_of(version, extradata@)
                    &&& h.exp_vlc == (h.flags2 % 2 == 1)
                    &&& h.bit_reservoir == ((h.flags2 / 2) % 2 == 1)
                    &&& h.variable_block_length == ((h.flags2 / 4) % 2 == 1)
                    &&& h.frame_length_bits == frame_exponent(version, h.sample_rate as nat)
                    &&& h.frame_length == pow2(h.frame_length_bits as nat)
                },
                Err(Error::InvalidContainerField { field }) => {
                    &&& sample_rate == 0
                    &&& field@ == "sample_rate"@
                },
                Err(Error::ExtradataTooShort { expected, got }) => {
                    &&& sample_rate != 0
                    &&& extradata@.len() < version.private_len()
                    &&& expected == version.private_len()
                    &&& got == extradata@.len()
                },
                Err(_) => false,
            },
    {
        if sample_rate == 0 {
            return Err(Error::InvalidContainerField { field: "sample_rate" });
        }
        let need: usize = version.extradata_len();
        if extradata.len() < need {
            return Err(Error::ExtradataTooShort { expected: need, got: extradata.len() });
        }
        let (flags1, flags2): (u32, u16) = match version {
            Version::V1 => (read_le16(extradata, 0) as u32, read_le16(extradata, 2)),
            Version::V2 => (read_le32(extradata, 0), read_le16(extradata, 4)),
        };
        proof {
            assert(extradata@.subrange(0, 2) =~= extradata@.take(2));
            assert(extradata@.len() >= 4 ==> extradata@.subrange(0, 4) =~= extradata@.take(4));
        }
        let exp_vlc = (flags2 & 1) != 0;
        let bit_reservoir = (flags2 & 2) != 0;
        let variable_block_length = (flags2 & 4) != 0;
        assert((flags2 & 1 != 0) == (flags2 % 2 == 1)) by (bit_vector);
        assert((flags2 & 2 != 0) == ((flags2 / 2) % 2 == 1)) by (bit_vector);
        assert((flags2 & 4 != 0) == ((flags2 / 4) % 2 == 1)) by (bit_vector);
        let rate: u32 = match version {
            Version::V1 => sample_rate,
            Version::V2 => normalize_sample_rate_v2(sample_rate),
        };
        let frame_length_bits: u8 = frame_length_bits_for(version, rate);
        proof {
            lemma2_to64();
            vstd::bits::lemma_u16_shl_is_mul(1, frame_length_bits as u16);
        }
        let frame_length: u16 = 1u16 << (frame_length_bits as u16);
        Ok(
            WmaHeader {
                version,
                sample_rate: rate,
                channels,
                bit_rate,
                block_align,
                flags1,
                flags2,
                exp_vlc,
                bit_reservoir,
                variable_block_length,
                frame_length_bits,
                frame_length,
            },
        )
    }
}

fn frame_length_bits_for(version: Version, sample_rate: u32) -> (bits: u8)
    ensures
        bits == frame_exponent(version, sample_rate as nat),
{
    if sample_rate <= 16_000 {
        9
    } else if sample_rate <= 22_050 || (matches!(version, Version::V1) && sample_rate <= 32_000) {
        10
    } else {
        11
    }
}

/// Bring a version 2 sample rate down to the nearest rate the codec knows.
pub fn normalize_sample_rate_v2(sample_rate: u32) -> (rate: u32)
    ensures
        rate == floor_rate_v2(sample_rate as nat),
        rate <= sample_rate,
        seq![44_100u32, 22_050, 16_000, 11_025, 8_000].contains(rate) <==> sample_rate >= 8_000,
        forall|r: u32|
            seq![44_100u32, 22_050, 16_000, 11_025, 8_000].contains(r) && r <= sample_rate ==> r
                <= rate,
{
    proof {
        let known = seq![44_100u32, 22_050, 16_000, 11_025, 8_000];
        assert(known[0] == 44_100 && known[1] == 22_050 && known[2] == 16_000 && known[3] == 11_025
            && known[4] == 8_000);
    }
    if sample_rate >= 44_100 {
        return 44_100;
    }
    if sample_rate >= 22_050 {
        return 22_050;
    }
    if sample_rate >= 16_000 {
        return 16_000;
    }
    if sample_rate >= 11_025 {
        return 11_025;
    }
    if sample_rate >= 8_000 {
        return 8_000;
    }
    sample_rate
}

/// Bringing a rate down twice changes nothing more, never raises a rate, and
/// keeps the order of rates.
pub proof fn floor_rate_v2_is_a_floor(a: nat, b: nat)
    ensures
        floor_rate_v2(floor_rate_v2(a)) == floor_rate_v2(a),
        floor_rate_v2(a) <= a,
        a <= b ==> floor_rate_v2(a) <= floor_rate_v2(b),
{
}

/// Any rate from 8 kHz on is brought to the greatest of 44100, 22050, 16000, 11025
/// and 8000 Hz that does not exceed it: to one of the five, at most the rate, with no
/// other of them in between. Each of the five is kept as it is, and so is any rate
/// below them all.
pub proof fn rates_are_brought_to_the_next_below(rate: nat, other: nat)
    requires
        seq![44_100nat, 22_050, 16_000, 11_025, 8_000].contains(other),
    ensures
        floor_rate_v2(other) == other,
        floor_rate_v2(rate) <= rate,
        other <= rate ==> other <= floor_rate_v2(rate),
        rate >= 8_000 <==> seq![44_100nat, 22_050, 16_000, 11_025, 8_000].contains(
            floor_rate_v2(rate),
        ),
        rate < 8_000 ==> floor_rate_v2(rate) == rate,
{
    let known = seq![44_100nat, 22_050, 16_000, 11_025, 8_000];
    assert(known[0] == 44_100 && known[1] == 22_050 && known[2] == 16_000 && known[3] == 11_025
        && known[4] == 8_000);
}

/// A frame holds 512, 1024 or 2048 samples, and the more the higher the rate: 512
/// just at the rates of up to 16 kHz, 2048 just at those above 32 kHz in version 1
/// and above 22.05 kHz in version 2.
pub proof fn frames_grow_with_the_rate(version: Version, a: nat, b: nat)
    ensures
        a <= b ==> frame_exponent(version, a) <= frame_exponent(version, b),
        pow2(frame_exponent(version, a)) == 512 <==> a <= 16_000,
        pow2(frame_exponent(Version::V1, a)) == 2048 <==> a > 32_000,
        pow2(frame_exponent(Version::V2, a)) == 2048 <==> a > 22_050,
        pow2(frame_exponent(version, a)) == 512 || pow2(frame_exponent(version, a)) == 1024
            || pow2(frame_exponent(version, a)) == 2048,
{
    lemma2_to64();
}

/// The version 2 rates come with their frame lengths: 44.1 kHz with 2048 samples,
/// 22.05 kHz with 1024, and every lower rate with 512.
pub proof fn working_rates_have_their_frames(rate: nat)
    ensures
        rate >= 44_100 ==> pow2(frame_exponent(Version::V2, working_rate(Version::V2, rate)))
            == 2048,
        22_050 <= rate < 44_100 ==> pow2(
            frame_exponent(Version::V2, working_rate(Version::V2, rate)),
        ) == 1024,
        rate < 22_050 ==> pow2(frame_exponent(Version::V2, working_rate(Version::V2, rate)))
            == 512,
        working_rate(Version::V1, rate) == rate,
{
    lemma2_to64();
}

/// `n` as `k` bytes, least significant first.
pub open spec fn spelled(n: nat, k: nat) -> Seq<u8>
    decreases k,
{
    if k == 0 {
        Seq::empty()
    } else {
        seq![(n % 256) as u8] + spelled(n / 256, (k - 1) as nat)
    }
}

pub proof fn lemma_spelled_len(n: nat, k: nat)
    ensures
        spelled(n, k).len() == k,
    decreases k,
{
    if k > 0 {
        lemma_spelled_len(n / 256, (k - 1) as nat);
    }
}

/// A number written out least significant byte first is read back, where the bytes
/// hold it.
pub proof fn spelled_numbers_are_read_back(n: nat, k: nat)
    requires
        n < vstd::arithmetic::power::pow(256, k),
    ensures
        spelled(n, k).len() == k,
        little_endian(spelled(n, k)) == n,
    decreases k,
{
    reveal(vstd::arithmetic::power::pow);
    lemma_spelled_len(n, k);
    if k > 0 {
        let j = (k - 1) as nat;
        let q = vstd::arithmetic::power::pow(256, j);
        assert(n / 256 < q) by {
            vstd::arithmetic::div_mod::lemma_fundamental_div_mod(n as int, 256);
        }
        spelled_numbers_are_read_back(n / 256, j);
        assert(spelled(n, k).skip(1) =~= spelled(n / 256, j));
    }
}

/// Codec-private data made of the two flag words, the first of two bytes in version
/// 1 and of four in version 2, the second of two bytes, each least significant byte
/// first, gives both words back, whatever follows.
pub proof fn flag_words_are_read_back(flags1: nat, flags2: nat, rest: Seq<u8>)
    requires
        flags2 < 0x1_0000,
    ensures
        flags1 < 0x1_0000 ==> flags1_of(
            Version::V1,
            spelled(flags1, 2) + spelled(flags2, 2) + rest,
        ) == flags1 && flags2_of(Version::V1, spelled(flags1, 2) + spelled(flags2, 2) + rest)
            == flags2,
        flags1 < 0x1_0000_0000 ==> flags1_of(
            Version::V2,
            spelled(flags1, 4) + spelled(flags2, 2) + rest,
        ) == flags1 && flags2_of(Version::V2, spelled(flags1, 4) + spelled(flags2, 2) + rest)
            == flags2,
        (spelled(flags1, 2) + spelled(flags2, 2)).len() == Version::V1.private_len(),
        (spelled(flags1, 4) + spelled(flags2, 2)).len() == Version::V2.private_len(),
{
    lemma_byte_powers();
    lemma_spelled_len(flags1, 2);
    lemma_spelled_len(flags1, 4);
    spelled_numbers_are_read_back(flags2, 2);
    let v1 = spelled(flags1, 2) + spelled(flags2, 2) + rest;
    let v2 = spelled(flags1, 4) + spelled(flags2, 2) + rest;
    assert(v1.take(2) =~= spelled(flags1, 2));
    assert(v1.subrange(2, 4) =~= spelled(flags2, 2));
    assert(v2.take(4) =~= spelled(flags1, 4));
    assert(v2.subrange(4, 6) =~= spelled(flags2, 2));
    if flags1 < 0x1_0000 {
        spelled_numbers_are_read_back(flags1, 2);
    }
    if flags1 < 0x1_0000_0000 {
        spelled_numbers_are_read_back(flags1, 4);
    }
}

pub proof fn lemma_byte_powers()
    ensures
        vstd::arithmetic::power::pow(256, 0) == 1,
        vstd::arithmetic::power::pow(256, 1) == 0x100,
        vstd::arithmetic::power::pow(256, 2) == 0x1_0000,
        vstd::arithmetic::power::pow(256, 4) == 0x1_0000_0000,
        vstd::arithmetic::power::pow(256, 8) == 0x1_0000_0000_0000_0000,
{
    reveal_with_fuel(vstd::arithmetic::power::pow, 9);
}

/// Every frame length is the length of a transform block: 512, 1024 or 2048
/// samples.
pub proof fn frame_lengths_are_block_sizes(version: Version, rate: nat)
    ensures
        exists|b: crate::block::BlockSize|
            b.exponent() == frame_exponent(version, rate) && #[trigger] b.sample_count() == pow2(
                frame_exponent(version, rate),
            ),
{
    let e = frame_exponent(version, rate);
    let b = if e == 9 {
        crate::block::BlockSize::S512
    } else if e == 10 {
        crate::block::BlockSize::S1024
    } else {
        crate::block::BlockSize::S2048
    };
    crate::block::sample_count_is_power_of_two(b);
    assert(b.sample_count() == pow2(e));
}

} // verus!

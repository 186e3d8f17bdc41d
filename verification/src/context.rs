//! Stream setup, and parsing a packet into exponents and coefficients.
use crate::binary64::Binary64;
use crate::bits::bytes_bits;
use crate::common::{
    band_widths, book_choice, bucket_rate, build_v1_bands, build_v2_bands, coef_symbol,
    frame_bits_at, frame_len_bits_for, high_band, normalise_sample_rate_v2, scale_change,
    scan_code, select_coef_vlc_table, select_high_freq_and_noise, v2_widths, BandOverrides,
    CoefBook, ScaleTable, Version, WmaError,
};
use crate::packet_bits::{read_number, take_number, unread};
use oxideav_core::bits::BitReader as PacketReader;
use vstd::arithmetic::power2::{lemma2_to64, pow2};
use vstd::prelude::*;

verus! {

/// The tables that a decoder works from.
#[derive(Debug, Clone)]
pub struct CodecTables {
    /// Three pairs of coefficient books; the second of a pair is for side
    /// channels.
    pub books: Vec<CoefBook>,
    /// The scale-factor codewords.
    pub scale: ScaleTable,
    /// Listed version 2 bands.
    pub overrides: BandOverrides,
}

impl CodecTables {
    /// The invariant: six sound books.
    pub open spec fn wf(&self) -> bool {
        &&& self.books@.len() == 6
        &&& forall|i: int| 0 <= i < 6 ==> (#[trigger] self.books@[i]).wf()
    }
}

/// A stream's setup.
#[derive(Debug, Clone)]
pub struct WmaContext {
    /// Bitstream version.
    pub version: Version,
    /// Sample rate.
    pub sample_rate: u32,
    /// Channels: one or two.
    pub channels: u16,
    /// Bit rate.
    pub bit_rate: u32,
    /// The second flag word.
    pub flags2: u16,
    /// Samples in a frame.
    pub frame_len: usize,
    /// Binary logarithm of the frame length.
    pub frame_len_bits: u32,
    /// Binary logarithm of the block length.
    pub block_len_bits: u32,
    /// Number of block sizes.
    pub nb_block_sizes: u32,
    /// Bits per sample and channel.
    pub bps: Binary64,
    /// Bits per sample, stereo streams weighted up.
    pub bps1: Binary64,
    /// Exponents are variable-length coded.
    pub use_exp_vlc: bool,
    /// The bit reservoir is in use.
    pub use_bit_reservoir: bool,
    /// Block lengths vary.
    pub use_variable_block_len: bool,
    /// The high band is coded as noise.
    pub use_noise_coding: bool,
    /// End of the coded band, in hertz.
    pub high_freq: u32,
    /// Which pair of coefficient books is in use.
    pub coef_vlc_table: usize,
    /// Widths of the exponent bands.
    pub bands: Vec<u32>,
    /// Bin at which the high band starts.
    pub high_band_start: usize,
    /// Bin past the last coded coefficient.
    pub coefs_end: usize,
    /// Bin of the first coded coefficient.
    pub coefs_start: usize,
    /// The tables.
    pub tables: CodecTables,
}

/// The rate that a stream is set up at.
pub open spec fn setup_rate(version: Version, sample_rate: nat) -> nat {
    match version {
        Version::V1 => sample_rate,
        Version::V2 => bucket_rate(sample_rate),
    }
}

/// Why a stream is refused.
pub open spec fn refusal(
    version: Version,
    sample_rate: u32,
    channels: u16,
    flags2: u16,
    bps: Binary64,
    bps1: Binary64,
) -> Option<WmaError> {
    if channels != 1 && channels != 2 {
        Some(WmaError::Channels)
    } else if sample_rate > 48_000 {
        Some(WmaError::SampleRate)
    } else if (flags2 / 2) % 2 == 1 {
        Some(WmaError::BitReservoir)
    } else if (flags2 / 4) % 2 == 1 {
        Some(WmaError::VariableBlockLength)
    } else if high_band(setup_rate(version, sample_rate as nat), bps, bps1).1 {
        Some(WmaError::NoiseCoding)
    } else {
        None
    }
}

/// Each refusal has one cause, in this order: a number of channels other than one and two;
/// a rate above 48 kHz; the flags of the bit reservoir and of varying block lengths, worth
/// two and four; and noise in the high band. What is left works at 44100, 22050 or 8000
/// Hz: in version 2 these are the rates from 44.1 kHz on, from 22.05 kHz up to 32 kHz, and
/// below 11.025 kHz.
pub proof fn refusals_by_cause(
    version: Version,
    sample_rate: u32,
    channels: u16,
    flags2: u16,
    bps: Binary64,
    bps1: Binary64,
)
    ensures
        ({
            let refused = refusal(version, sample_rate, channels, flags2, bps, bps1);
            let rate = setup_rate(version, sample_rate as nat);
            let reservoir = flags2 % 4 >= 2;
            let varying = flags2 % 8 >= 4;
            let mono_or_stereo = 1 <= channels <= 2;
            &&& refused == Some(WmaError::Channels) <==> !mono_or_stereo
            &&& refused == Some(WmaError::SampleRate) <==> mono_or_stereo && sample_rate > 48_000
            &&& refused == Some(WmaError::BitReservoir) <==> mono_or_stereo && sample_rate
                <= 48_000 && reservoir
            &&& refused == Some(WmaError::VariableBlockLength) <==> mono_or_stereo && sample_rate
                <= 48_000 && !reservoir && varying
            &&& refused == Some(WmaError::NoiseCoding) <==> mono_or_stereo && sample_rate <= 48_000
                && !reservoir && !varying && high_band(rate, bps, bps1).1
            &&& refused is None ==> rate == 44_100 || rate == 22_050 || rate == 8_000
            &&& refused is None && version == Version::V1 ==> rate == sample_rate
            &&& refused is None && version == Version::V2 ==> {
                &&& rate == 44_100 <==> sample_rate >= 44_100
                &&& rate == 22_050 <==> 22_050 <= sample_rate < 32_000
                &&& rate == 8_000 <==> sample_rate < 11_025
            }
        }),
{
    assert(((flags2 / 2) % 2 == 1) == (flags2 % 4 >= 2));
    assert(((flags2 / 4) % 2 == 1) == (flags2 % 8 >= 4));
}

impl WmaContext {
    /// The invariant that parsing rests on.
    pub open spec fn wf(&self) -> bool {
        &&& self.channels == 1 || self.channels == 2
        &&& 9 <= self.frame_len_bits <= 11
        &&& self.frame_len == pow2(self.frame_len_bits as nat)
        &&& self.coef_vlc_table <= 2
        &&& self.coefs_start <= 3
        &&& self.coefs_end <= self.frame_len
        &&& self.tables.wf()
    }

    /// Set a stream up. `bps` and `bps1` are the bits per sample and channel,
    /// and the same weighted up for stereo.
    pub fn new(
        version: Version,
        sample_rate: u32,
        channels: u16,
        bit_rate: u32,
        flags2: u16,
        bps: Binary64,
        bps1: Binary64,
        tables: CodecTables,
    ) -> (context: Result<Self, WmaError>)
        requires
            tables.wf(),
            sample_rate > 0 || refusal(version, sample_rate, channels, flags2, bps, bps1) is Some,
        ensures
            match context {
                Ok(c) => {
                    let rate = setup_rate(version, sample_rate as nat);
                    &&& refusal(version, sample_rate, channels, flags2, bps, bps1) is None
                    &&& c.wf()
                    &&& c.version == version
                    &&& c.sample_rate == sample_rate
                    &&& c.channels == channels
                    &&& c.bit_rate == bit_rate
                    &&& c.flags2 == flags2
                    &&& c.frame_len_bits == frame_bits_at(rate, version)
                    &&& c.block_len_bits == c.frame_len_bits
                    &&& c.nb_block_sizes == 1
                    &&& c.bps == bps
                    &&& c.bps1 == bps1
                    &&& c.use_exp_vlc == (flags2 % 2 == 1)
                    &&& !c.use_bit_reservoir
                    &&& !c.use_variable_block_len
                    &&& !c.use_noise_coding
                    &&& c.high_freq == rate / 2
                    &&& c.coef_vlc_table == book_choice(sample_rate as nat, bps1)
                    &&& sample_rate < 32_000 ==> c.coef_vlc_table == 2
                    &&& sample_rate >= 32_000 ==> (c.coef_vlc_table == 0 <==> bps1.below(
                        Binary64 { bits: 0x3FE7_0A3D_8000_0000 },
                    ))
                    &&& sample_rate >= 32_000 ==> (c.coef_vlc_table == 2 <==> !bps1.below(
                        Binary64 { bits: 0x3FF2_8F5C_2000_0000 },
                    ))
                    &&& c.frame_len == 512 <==> rate <= 16_000
                    &&& c.frame_len == 2048 <==> rate > (match version {
                        Version::V1 => 32_000int,
                        Version::V2 => 22_050int,
                    })
                    &&& c.coefs_end == (if c.frame_len == 512 {
                        466int
                    } else if c.frame_len == 1024 {
                        932int
                    } else {
                        1864int
                    })
                    &&& c.bands@ == (match version {
                        Version::V1 => band_widths(
                            version,
                            c.frame_len as nat,
                            sample_rate as nat,
                            0,
                            0,
                        ),
                        Version::V2 => v2_widths(
                            tables.overrides,
                            c.frame_len as nat,
                            rate,
                            c.frame_len_bits as int,
                        ),
                    })
                    &&& c.high_band_start == (c.frame_len * 2 * c.high_freq) / sample_rate as int
                    &&& c.coefs_end == c.frame_len - c.frame_len * 9 / 100
                    &&& c.coefs_start == (match version {
                        Version::V1 => 3int,
                        Version::V2 => 0int,
                    })
                    &&& c.tables == tables
                },
                Err(e) => refusal(version, sample_rate, channels, flags2, bps, bps1) == Some(e),
            },
    {
        if channels != 1 && channels != 2 {
            return Err(WmaError::Channels);
        }
        if sample_rate > 48_000 {
            return Err(WmaError::SampleRate);
        }
        let use_exp_vlc = flags2 % 2 == 1;
        let use_bit_reservoir = (flags2 / 2) % 2 == 1;
        let use_variable_block_len = (flags2 / 4) % 2 == 1;
        if use_bit_reservoir {
            return Err(WmaError::BitReservoir);
        }
        if use_variable_block_len {
            return Err(WmaError::VariableBlockLength);
        }
        let rate: u32 = match version {
            Version::V1 => sample_rate,
            Version::V2 => normalise_sample_rate_v2(sample_rate),
        };
        let frame_len_bits: u32 = frame_len_bits_for(rate, version);
        proof {
            lemma2_to64();
        }
        let frame_len: usize = if frame_len_bits == 9 {
            512
        } else if frame_len_bits == 10 {
            1024
        } else {
            2048
        };
        let (_percent, use_noise_coding): (u32, bool) = select_high_freq_and_noise(
            rate,
            bps,
            bps1,
        );
        if use_noise_coding {
            return Err(WmaError::NoiseCoding);
        }
        let high_freq: u32 = rate / 2;
        let coef_vlc_table: usize = select_coef_vlc_table(sample_rate, bps1);
        let bands: Vec<u32> = match version {
            Version::V1 => build_v1_bands(frame_len, sample_rate),
            Version::V2 => build_v2_bands(&tables.overrides, frame_len, rate, frame_len_bits),
        };
        proof {
            assert(frame_len * 2 * high_freq <= 2048 * 2 * 24_000) by (nonlinear_arith)
                requires
                    0 <= frame_len <= 2048,
                    0 <= high_freq <= 24_000,
            ;
            let n = frame_len as int * 2 * high_freq as int;
            assert(n / sample_rate as int <= n) by (nonlinear_arith)
                requires
                    n >= 0,
                    sample_rate >= 1,
            ;
        }
        let high_band_start: usize = ((frame_len as u64 * 2 * high_freq as u64)
            / sample_rate as u64) as usize;
        let coefs_end: usize = frame_len - frame_len * 9 / 100;
        let coefs_start: usize = match version {
            Version::V1 => 3,
            Version::V2 => 0,
        };
        Ok(
            WmaContext {
                version,
                sample_rate,
                channels,
                bit_rate,
                flags2,
                frame_len,
                frame_len_bits,
                block_len_bits: frame_len_bits,
                nb_block_sizes: 1,
                bps,
                bps1,
                use_exp_vlc,
                use_bit_reservoir,
                use_variable_block_len,
                use_noise_coding,
                high_freq,
                coef_vlc_table,
                bands,
                high_band_start,
                coefs_end,
                coefs_start,
                tables,
            },
        )
    }

    /// The book of the main or the side channel.
    pub open spec fn book_of(&self, side: bool) -> CoefBook {
        self.tables.books@[self.coef_vlc_table * 2 + if side {
            1int
        } else {
            0int
        }]
    }

    fn book(&self, side: bool) -> (book: &CoefBook)
        requires
            self.wf(),
        ensures
            *book == self.book_of(side),
            book.wf(),
    {
        let at: usize = self.coef_vlc_table * 2 + if side {
            1
        } else {
            0
        };
        assert(self.tables.books@[at as int].wf());
        &self.tables.books[at]
    }
}

// ------------------------------------------------------------ coefficients

/// Width of a version 1 literal level at a total gain.
pub open spec fn level_width(total_gain: nat) -> nat {
    if total_gain < 15 {
        13
    } else if total_gain < 32 {
        12
    } else if total_gain < 40 {
        11
    } else if total_gain < 45 {
        10
    } else {
        9
    }
}

/// Width of a version 1 literal level.
pub fn total_gain_to_coef_nb_bits(total_gain: u32) -> (bits: u32)
    ensures
        bits == level_width(total_gain as nat),
{
    if total_gain < 15 {
        13
    } else if total_gain < 32 {
        12
    } else if total_gain < 40 {
        11
    } else if total_gain < 45 {
        10
    } else {
        9
    }
}

/// Reading a number, the end of the packet being an error.
pub open spec fn number(bits: Seq<bool>, n: nat) -> (Result<nat, WmaError>, Seq<bool>) {
    match take_number(bits, n) {
        (Some(v), rest) => (Ok(v), rest),
        (None, rest) => (Err(WmaError::OutOfBits), rest),
    }
}

/// Reading a progressive number: one byte below 128; else two bytes, counted
/// from 128 on; else three, counted from 0x4080 on; else 31 bits in all, of
/// which the leading ones only select the form.
pub open spec fn large_value(bits: Seq<bool>) -> (Result<nat, WmaError>, Seq<bool>) {
    match number(bits, 8) {
        (Err(e), rest) => (Err(e), rest),
        (Ok(a), rest) => if a < 0x80 {
            (Ok(a), rest)
        } else {
            match number(rest, 8) {
                (Err(e), rest) => (Err(e), rest),
                (Ok(b), rest) => {
                    let two = (a % 0x80) * 0x100 + b;
                    if two < 0x4000 {
                        (Ok(two + 0x80), rest)
                    } else {
                        match number(rest, 8) {
                            (Err(e), rest) => (Err(e), rest),
                            (Ok(c), rest) => {
                                let three = (two % 0x4000) * 0x100 + c;
                                if three < 0x20_0000 {
                                    (Ok(three + 0x4080), rest)
                                } else {
                                    match number(rest, 7) {
                                        (Err(e), rest) => (Err(e), rest),
                                        (Ok(d), rest) => (
                                            Ok((three % 0x20_0000) * 0x80 + d),
                                            rest,
                                        ),
                                    }
                                }
                            },
                        }
                    }
                },
            }
        },
    }
}

/// Reading a version 2 literal run: none, two bits or a whole position.
pub open spec fn literal_run(ctx: WmaContext, bits: Seq<bool>) -> (
    Result<nat, WmaError>,
    Seq<bool>,
) {
    match number(bits, 1) {
        (Err(e), rest) => (Err(e), rest),
        (Ok(a), rest) => if a == 0 {
            (Ok(0), rest)
        } else {
            match number(rest, 1) {
                (Err(e), rest) => (Err(e), rest),
                (Ok(b), rest) => if b == 0 {
                    number(rest, 2)
                } else {
                    number(rest, ctx.frame_len_bits as nat)
                },
            }
        },
    }
}

/// Reading the level and the run after an escape symbol.
pub open spec fn literals(ctx: WmaContext, total_gain: nat, bits: Seq<bool>) -> (
    Result<(nat, nat), WmaError>,
    Seq<bool>,
) {
    let (level, rest) = match ctx.version {
        Version::V1 => number(bits, level_width(total_gain)),
        Version::V2 => large_value(bits),
    };
    match level {
        Err(e) => (Err(e), rest),
        Ok(level) => {
            let (run, rest) = match ctx.version {
                Version::V1 => number(rest, ctx.frame_len_bits as nat),
                Version::V2 => literal_run(ctx, rest),
            };
            match run {
                Err(e) => (Err(e), rest),
                Ok(run) => (Ok((run, level)), rest),
            }
        },
    }
}

/// Reading a run and a level, or `None` at the end of the coefficients. Symbol
/// 0 escapes and symbol 1 ends.
pub open spec fn run_level(ctx: WmaContext, side: bool, total_gain: nat, bits: Seq<bool>) -> (
    Result<Option<(nat, nat)>, WmaError>,
    Seq<bool>,
) {
    let book = ctx.book_of(side);
    let (scanned, rest) = scan_code(book.codes@, book.bits@, 0, bits);
    match coef_symbol(scanned) {
        Err(e) => (Err(e), rest),
        Ok(s) => if s == 0 {
            match literals(ctx, total_gain, rest) {
                (Err(e), rest) => (Err(e), rest),
                (Ok(pair), rest) => (Ok(Some(pair)), rest),
            }
        } else if s == 1 {
            (Ok(None), rest)
        } else {
            (
                Ok(Some((book.run@[s as int] as nat, book.level@[s as int] as nat))),
                rest,
            )
        },
    }
}

/// Reading a channel's coefficients from position `i` on, `done` being those
/// read so far. Reading ends at the end symbol, at the last coded position, or
/// at a run that leads out of the frame.
pub open spec fn coefficients_from(
    ctx: WmaContext,
    side: bool,
    total_gain: nat,
    i: nat,
    done: Seq<i64>,
    bits: Seq<bool>,
) -> (Result<Seq<i64>, WmaError>, Seq<bool>)
    decreases done.len() - i,
{
    if i >= ctx.coefs_end || i >= done.len() {
        (Ok(done), bits)
    } else {
        match run_level(ctx, side, total_gain, bits) {
            (Err(e), rest) => (Err(e), rest),
            (Ok(None), rest) => (Ok(done), rest),
            (Ok(Some((run, level))), rest) => {
                let at = i + run;
                if at >= done.len() {
                    (Ok(done), rest)
                } else {
                    match number(rest, 1) {
                        (Err(e), rest) => (Err(e), rest),
                        (Ok(sign), rest) => coefficients_from(
                            ctx,
                            side,
                            total_gain,
                            at + 1,
                            done.update(
                                at as int,
                                if sign == 0 {
                                    level as i64
                                } else {
                                    (-(level as int)) as i64
                                },
                            ),
                            rest,
                        ),
                    }
                }
            },
        }
    }
}

/// A silent channel's coefficients.
pub open spec fn silence(n: nat) -> Seq<i64> {
    Seq::new(n, |k: int| 0i64)
}

fn read_u(reader: &mut PacketReader<'_>, n: u32) -> (value: Result<u32, WmaError>)
    requires
        n <= 32,
    ensures
        unread(*final(reader)) == number(unread(*old(reader)), n as nat).1,
        match value {
            Ok(v) => {
                &&& number(unread(*old(reader)), n as nat).0 == Ok::<nat, WmaError>(v as nat)
                &&& v < pow2(n as nat)
            },
            Err(e) => number(unread(*old(reader)), n as nat).0 == Err::<nat, WmaError>(e),
        },
{
    match read_number(reader, n) {
        Some(v) => Ok(v),
        None => Err(WmaError::OutOfBits),
    }
}

/// Read a progressive number.
pub fn read_large_val(reader: &mut PacketReader<'_>) -> (value: Result<u32, WmaError>)
    ensures
        unread(*final(reader)) == large_value(unread(*old(reader))).1,
        large_value(unread(*old(reader))).0 == (match value {
            Ok(v) => Ok::<nat, WmaError>(v as nat),
            Err(e) => Err(e),
        }),
{
    proof {
        lemma2_to64();
    }
    let a: u32 = match read_u(reader, 8) {
        Ok(v) => v,
        Err(e) => {
            return Err(e);
        },
    };
    if a < 0x80 {
        return Ok(a);
    }
    let b: u32 = match read_u(reader, 8) {
        Ok(v) => v,
        Err(e) => {
            return Err(e);
        },
    };
    let two: u32 = (a % 0x80) * 0x100 + b;
    if two < 0x4000 {
        return Ok(two + 0x80);
    }
    let c: u32 = match read_u(reader, 8) {
        Ok(v) => v,
        Err(e) => {
            return Err(e);
        },
    };
    let three: u32 = (two % 0x4000) * 0x100 + c;
    if three < 0x20_0000 {
        return Ok(three + 0x4080);
    }
    let d: u32 = match read_u(reader, 7) {
        Ok(v) => v,
        Err(e) => {
            return Err(e);
        },
    };
    Ok((three % 0x20_0000) * 0x80 + d)
}

impl WmaContext {
    fn read_literal_run(&self, reader: &mut PacketReader<'_>) -> (run: Result<u32, WmaError>)
        requires
            self.wf(),
        ensures
            unread(*final(reader)) == literal_run(*self, unread(*old(reader))).1,
            literal_run(*self, unread(*old(reader))).0 == (match run {
                Ok(v) => Ok::<nat, WmaError>(v as nat),
                Err(e) => Err(e),
            }),
    {
        match read_u(reader, 1) {
            Ok(a) => {
                if a == 0 {
                    return Ok(0);
                }
            },
            Err(e) => {
                return Err(e);
            },
        }
        match read_u(reader, 1) {
            Ok(b) => {
                if b == 0 {
                    read_u(reader, 2)
                } else {
                    read_u(reader, self.frame_len_bits)
                }
            },
            Err(e) => Err(e),
        }
    }

    fn read_literals(&self, total_gain: u32, reader: &mut PacketReader<'_>) -> (pair: Result<
        (u32, u32),
        WmaError,
    >)
        requires
            self.wf(),
        ensures
            unread(*final(reader)) == literals(
                *self,
                total_gain as nat,
                unread(*old(reader)),
            ).1,
            literals(*self, total_gain as nat, unread(*old(reader))).0 == (match pair {
                Ok((run, level)) => Ok::<(nat, nat), WmaError>((run as nat, level as nat)),
                Err(e) => Err(e),
            }),
    {
        let read = match self.version {
            Version::V1 => read_u(reader, total_gain_to_coef_nb_bits(total_gain)),
            Version::V2 => read_large_val(reader),
        };
        let level: u32 = match read {
            Ok(v) => v,
            Err(e) => {
                return Err(e);
            },
        };
        let read = match self.version {
            Version::V1 => read_u(reader, self.frame_len_bits),
            Version::V2 => self.read_literal_run(reader),
        };
        match read {
            Ok(run) => Ok((run, level)),
            Err(e) => Err(e),
        }
    }

    fn read_run_level(&self, side: bool, total_gain: u32, reader: &mut PacketReader<'_>) -> (
    event: Result<Option<(u32, u32)>, WmaError>)
        requires
            self.wf(),
        ensures
            unread(*final(reader)) == run_level(
                *self,
                side,
                total_gain as nat,
                unread(*old(reader)),
            ).1,
            run_level(*self, side, total_gain as nat, unread(*old(reader))).0 == (match event {
                Ok(Some((run, level))) => Ok::<Option<(nat, nat)>, WmaError>(
                    Some((run as nat, level as nat)),
                ),
                Ok(None) => Ok(None),
                Err(e) => Err(e),
            }),
    {
        let book = self.book(side);
        let sym: usize = match book.read_sym(reader) {
            Ok(s) => s,
            Err(e) => {
                return Err(e);
            },
        };
        if sym == 0 {
            match self.read_literals(total_gain, reader) {
                Ok(pair) => Ok(Some(pair)),
                Err(e) => Err(e),
            }
        } else if sym == 1 {
            Ok(None)
        } else {
            Ok(Some((book.run[sym] as u32, book.level[sym] as u32)))
        }
    }

    /// Read one channel's coefficients.
    pub fn run_level_decode(
        &self,
        reader: &mut PacketReader<'_>,
        side: bool,
        total_gain: u32,
    ) -> (coefs: Result<Vec<i64>, WmaError>)
        requires
            self.wf(),
        ensures
            unread(*final(reader)) == coefficients_from(
                *self,
                side,
                total_gain as nat,
                self.coefs_start as nat,
                silence(self.frame_len as nat),
                unread(*old(reader)),
            ).1,
            coefficients_from(
                *self,
                side,
                total_gain as nat,
                self.coefs_start as nat,
                silence(self.frame_len as nat),
                unread(*old(reader)),
            ).0 == (match coefs {
                Ok(c) => Ok::<Seq<i64>, WmaError>(c@),
                Err(e) => Err(e),
            }),
            coefs matches Ok(c) ==> c@.len() == self.frame_len,
    {
        let n: usize = self.frame_len;
        let mut coefs: Vec<i64> = vec![0i64; n];
        assert(coefs@ =~= silence(n as nat));
        proof {
            lemma2_to64();
        }
        let ghost whole = coefficients_from(
            *self,
            side,
            total_gain as nat,
            self.coefs_start as nat,
            coefs@,
            unread(*reader),
        );
        let mut i: usize = self.coefs_start;
        while i < self.coefs_end
            invariant
                self.wf(),
                n == self.frame_len <= 2048,
                coefs@.len() == n,
                i <= n,
                whole == coefficients_from(
                    *self,
                    side,
                    total_gain as nat,
                    self.coefs_start as nat,
                    silence(n as nat),
                    unread(*old(reader)),
                ),
                whole == coefficients_from(
                    *self,
                    side,
                    total_gain as nat,
                    i as nat,
                    coefs@,
                    unread(*reader),
                ),
            decreases n - i,
        {
            let (run, level): (u32, u32) = match self.read_run_level(side, total_gain, reader) {
                Ok(Some(pair)) => pair,
                Ok(None) => {
                    return Ok(coefs);
                },
                Err(e) => {
                    return Err(e);
                },
            };
            if run as usize >= n - i {
                return Ok(coefs);
            }
            let at: usize = i + run as usize;
            let sign: u32 = match read_u(reader, 1) {
                Ok(v) => v,
                Err(e) => {
                    return Err(e);
                },
            };
            coefs[at] = if sign == 0 {
                level as i64
            } else {
                -(level as i64)
            };
            i = at + 1;
        }
        Ok(coefs)
    }
}

// ------------------------------------------------------------ exponents

/// A channel's exponents, as places in the table of powers.
#[derive(Debug, Clone, PartialEq, Eq)]
pub struct ChannelExponents {
    /// The place for each coefficient; one that no band covers has none.
    pub places: Vec<Option<u8>>,
    /// The greatest place of any band.
    pub top: Option<u8>,
}

/// A channel's exponents, as values.
pub type ExponentValues = (Seq<Option<u8>>, Option<u8>);

/// The place of an exponent in the table of powers, which starts at minus sixty
/// and has 156 entries.
pub open spec fn power_place(exponent: int) -> u8 {
    if exponent + 60 < 0 {
        0
    } else if exponent + 60 > 155 {
        155
    } else {
        (exponent + 60) as u8
    }
}

/// A sum kept within 32 bits.
pub open spec fn saturated(sum: int) -> int {
    if sum > i32::MAX {
        i32::MAX as int
    } else if sum < i32::MIN {
        i32::MIN as int
    } else {
        sum
    }
}

/// The greater of two places.
pub open spec fn greater(top: Option<u8>, place: u8) -> Option<u8> {
    match top {
        Some(t) if t >= place => Some(t),
        _ => Some(place),
    }
}

/// `done` with `width` places from `at` on set, as far as it reaches.
pub open spec fn filled(done: Seq<Option<u8>>, at: int, width: int, place: u8) -> Seq<Option<u8>> {
    Seq::new(
        done.len(),
        |i: int| if at <= i < at + width {
            Some(place)
        } else {
            done[i]
        },
    )
}

/// Reading the exponents of the bands from band `k` on, which starts at
/// coefficient `at`, where the last exponent was `last`. Every band has a change
/// of exponent, but not the first of a version 1 channel.
pub open spec fn exponents_from(
    ctx: WmaContext,
    k: nat,
    at: nat,
    last: int,
    done: ExponentValues,
    bits: Seq<bool>,
) -> (Result<ExponentValues, WmaError>, Seq<bool>)
    decreases ctx.bands@.len() - k,
{
    if k >= ctx.bands@.len() || at >= done.0.len() {
        (Ok(done), bits)
    } else {
        let (change, rest) = if ctx.version == Version::V1 && at == 0 {
            (Ok(0int), bits)
        } else {
            let (scanned, rest) = scan_code(
                ctx.tables.scale.codes@,
                ctx.tables.scale.bits@,
                0,
                bits,
            );
            (scale_change(scanned), rest)
        };
        match change {
            Err(e) => (Err(e), rest),
            Ok(change) => {
                let exponent = saturated(last + change);
                let place = power_place(exponent);
                let width = ctx.bands@[k as int] as nat;
                exponents_from(
                    ctx,
                    k + 1,
                    at + width,
                    exponent,
                    (filled(done.0, at as int, width as int, place), greater(done.1, place)),
                    rest,
                )
            },
        }
    }
}

/// No exponents.
pub open spec fn no_exponents(n: nat) -> ExponentValues {
    (Seq::new(n, |i: int| None::<u8>), None)
}

/// Reading a channel's exponents. Version 1 codes the first one outright.
pub open spec fn read_exponents(ctx: WmaContext, bits: Seq<bool>) -> (
    Result<ExponentValues, WmaError>,
    Seq<bool>,
) {
    match ctx.version {
        Version::V1 => match number(bits, 5) {
            (Err(e), rest) => (Err(e), rest),
            (Ok(first), rest) => exponents_from(
                ctx,
                0,
                0,
                first as int + 10,
                no_exponents(ctx.frame_len as nat),
                rest,
            ),
        },
        Version::V2 => exponents_from(
            ctx,
            0,
            0,
            36,
            no_exponents(ctx.frame_len as nat),
            bits,
        ),
    }
}

fn place_of(exponent: i32) -> (place: u8)
    ensures
        place == power_place(exponent as int),
{
    let shifted: i64 = exponent as i64 + 60;
    if shifted < 0 {
        0
    } else if shifted > 155 {
        155
    } else {
        shifted as u8
    }
}

fn saturating_sum(a: i32, b: i32) -> (sum: i32)
    ensures
        sum == saturated(a + b),
{
    let wide: i64 = a as i64 + b as i64;
    if wide > i32::MAX as i64 {
        i32::MAX
    } else if wide < i32::MIN as i64 {
        i32::MIN
    } else {
        wide as i32
    }
}

fn fill(places: &mut Vec<Option<u8>>, at: usize, width: u32, place: u8)
    requires
        at <= old(places)@.len(),
    ensures
        final(places)@ == filled(old(places)@, at as int, width as int, place),
{
    let n: usize = places.len();
    let end: usize = if width as usize > n - at {
        n
    } else {
        at + width as usize
    };
    let mut i: usize = at;
    while i < end
        invariant
            at <= i <= end <= n,
            end == n || end == at + width,
            end <= at + width,
            n == places@.len() == old(places)@.len(),
            forall|k: int|
                0 <= k < n ==> #[trigger] places@[k] == (if at <= k < i {
                    Some(place)
                } else {
                    old(places)@[k]
                }),
        decreases end - i,
    {
        places[i] = Some(place);
        i = i + 1;
    }
    assert(places@ =~= filled(old(places)@, at as int, width as int, place));
}

impl WmaContext {
    /// Read one channel's exponents.
    pub fn decode_exp_vlc(&self, reader: &mut PacketReader<'_>) -> (exponents: Result<
        ChannelExponents,
        WmaError,
    >)
        requires
            self.wf(),
        ensures
            unread(*final(reader)) == read_exponents(*self, unread(*old(reader))).1,
            read_exponents(*self, unread(*old(reader))).0 == (match exponents {
                Ok(x) => Ok::<ExponentValues, WmaError>((x.places@, x.top)),
                Err(e) => Err(e),
            }),
    {
        proof {
            lemma2_to64();
        }
        let mut last: i32 = match self.version {
            Version::V1 => match read_u(reader, 5) {
                Ok(v) => v as i32 + 10,
                Err(e) => {
                    return Err(e);
                },
            },
            Version::V2 => 36,
        };
        let n: usize = self.frame_len;
        let mut places: Vec<Option<u8>> = vec![None; n];
        let mut top: Option<u8> = None;
        assert(places@ =~= no_exponents(n as nat).0);
        let ghost whole = read_exponents(*self, unread(*old(reader)));
        let mut at: usize = 0;
        let mut k: usize = 0;
        while k < self.bands.len() && at < n
            invariant
                self.wf(),
                n == self.frame_len <= 2048,
                places@.len() == n,
                k <= self.bands@.len(),
                at <= n + u32::MAX,
                whole == read_exponents(*self, unread(*old(reader))),
                whole == exponents_from(
                    *self,
                    k as nat,
                    at as nat,
                    last as int,
                    (places@, top),
                    unread(*reader),
                ),
            decreases self.bands@.len() - k,
        {
            let change: i32 = if matches!(self.version, Version::V1) && at == 0 {
                0
            } else {
                match self.tables.scale.read_aac_scalefactor(reader) {
                    Ok(c) => c,
                    Err(e) => {
                        return Err(e);
                    },
                }
            };
            last = saturating_sum(last, change);
            let place: u8 = place_of(last);
            top = match top {
                Some(t) if t >= place => Some(t),
                _ => Some(place),
            };
            let width: u32 = self.bands[k];
            fill(&mut places, at, width, place);
            if width as usize >= n - at {
                proof {
                    lemma_exponents_full(
                        *self,
                        (k + 1) as nat,
                        (at + width) as nat,
                        last as int,
                        (places@, top),
                        unread(*reader),
                    );
                }
                return Ok(ChannelExponents { places, top });
            }
            at = at + width as usize;
            k = k + 1;
        }
        Ok(ChannelExponents { places, top })
    }
}

/// Once the frame is covered, no more exponents are read.
proof fn lemma_exponents_full(
    ctx: WmaContext,
    k: nat,
    at: nat,
    last: int,
    done: ExponentValues,
    bits: Seq<bool>,
)
    requires
        at >= done.0.len(),
    ensures
        exponents_from(ctx, k, at, last, done, bits) == (
            Ok::<ExponentValues, WmaError>(done),
            bits,
        ),
{
}

// ------------------------------------------------------------ packets

/// What a packet holds.
#[derive(Debug, Clone, PartialEq, Eq)]
pub struct FrameSyntax {
    /// The channels are coded as mid and side.
    pub ms_stereo: bool,
    /// Which channels are coded.
    pub coded: Vec<bool>,
    /// The total gain.
    pub total_gain: u32,
    /// The exponents of each coded channel.
    pub exponents: Vec<Option<ChannelExponents>>,
    /// The coefficients of each channel; one that is not coded is silent.
    pub coefs: Vec<Vec<i64>>,
}

/// What a packet holds, as values.
#[verifier::ext_equal]
pub struct FrameValues {
    /// The channels are coded as mid and side.
    pub ms_stereo: bool,
    /// Which channels are coded.
    pub coded: Seq<bool>,
    /// The total gain.
    pub total_gain: nat,
    /// The exponents of each coded channel.
    pub exponents: Seq<Option<ExponentValues>>,
    /// The coefficients of each channel.
    pub coefs: Seq<Seq<i64>>,
}

/// The values of optional exponents.
pub open spec fn exponent_values(x: Option<ChannelExponents>) -> Option<ExponentValues> {
    match x {
        Some(x) => Some((x.places@, x.top)),
        None => None,
    }
}

/// The values of each channel's exponents.
pub open spec fn all_exponents(xs: Seq<Option<ChannelExponents>>) -> Seq<Option<ExponentValues>> {
    Seq::new(xs.len(), |i: int| exponent_values(xs[i]))
}

/// The values of each channel's coefficients.
pub open spec fn all_coefs(xs: Seq<Vec<i64>>) -> Seq<Seq<i64>> {
    Seq::new(xs.len(), |i: int| xs[i]@)
}

impl View for FrameSyntax {
    type V = FrameValues;

    open spec fn view(&self) -> FrameValues {
        FrameValues {
            ms_stereo: self.ms_stereo,
            coded: self.coded@,
            total_gain: self.total_gain as nat,
            exponents: all_exponents(self.exponents@),
            coefs: all_coefs(self.coefs@),
        }
    }
}

/// Reading `n` flags.
pub open spec fn read_flags(n: nat, bits: Seq<bool>) -> (Result<Seq<bool>, WmaError>, Seq<bool>)
    decreases n,
{
    if n == 0 {
        (Ok(Seq::empty()), bits)
    } else {
        match read_flags((n - 1) as nat, bits) {
            (Err(e), rest) => (Err(e), rest),
            (Ok(done), rest) => match number(rest, 1) {
                (Err(e), rest) => (Err(e), rest),
                (Ok(b), rest) => (Ok(done.push(b != 0)), rest),
            },
        }
    }
}

/// Reading a gain: seven-bit fields, added up, to the first that is not all
/// ones.
pub open spec fn gain_fields(bits: Seq<bool>) -> (Result<nat, WmaError>, Seq<bool>)
    decreases bits.len(),
{
    match number(bits, 7) {
        (Err(e), rest) => (Err(e), rest),
        (Ok(v), rest) => if v != 127 {
            (Ok(v), rest)
        } else {
            match gain_fields(rest) {
                (Err(e), rest) => (Err(e), rest),
                (Ok(more), rest) => (Ok(127 + more), rest),
            }
        },
    }
}

/// The sum of the gain fields read, up to the first that is not all ones or to the
/// end of the packet.
pub open spec fn gain_sum(bits: Seq<bool>) -> nat
    decreases bits.len(),
{
    match number(bits, 7) {
        (Err(_), _) => 0,
        (Ok(v), rest) => if v != 127 {
            v
        } else {
            127 + gain_sum(rest)
        },
    }
}

/// Whether a packet's total gain fits in 32 bits, as far as the packet holds it.
pub open spec fn gain_in_range(ctx: WmaContext, bits: Seq<bool>) -> bool {
    let (stereo, rest) = if ctx.channels == 2 {
        number(bits, 1)
    } else {
        (Ok(0nat), bits)
    };
    match (stereo, read_flags(ctx.channels as nat, rest)) {
        (Ok(_), (Ok(coded), rest)) => coded.contains(true) ==> 1 + gain_sum(rest) <= u32::MAX,
        _ => true,
    }
}

/// Reading the total gain, which is there where a channel is coded.
pub open spec fn read_gain(coded: Seq<bool>, bits: Seq<bool>) -> (
    Result<nat, WmaError>,
    Seq<bool>,
) {
    if coded.contains(true) {
        match gain_fields(bits) {
            (Err(e), rest) => (Err(e), rest),
            (Ok(g), rest) => (Ok(1 + g), rest),
        }
    } else {
        (Ok(1), bits)
    }
}

/// Reading the exponents of the first `n` channels.
pub open spec fn channel_exponents(
    ctx: WmaContext,
    coded: Seq<bool>,
    n: nat,
    bits: Seq<bool>,
) -> (Result<Seq<Option<ExponentValues>>, WmaError>, Seq<bool>)
    decreases n,
{
    if n == 0 {
        (Ok(Seq::empty()), bits)
    } else {
        match channel_exponents(ctx, coded, (n - 1) as nat, bits) {
            (Err(e), rest) => (Err(e), rest),
            (Ok(done), rest) => if !coded[n - 1] {
                (Ok(done.push(None)), rest)
            } else if !ctx.use_exp_vlc {
                (Err(WmaError::LspExponents), rest)
            } else {
                match read_exponents(ctx, rest) {
                    (Err(e), rest) => (Err(e), rest),
                    (Ok(x), rest) => (Ok(done.push(Some(x))), rest),
                }
            },
        }
    }
}

/// Reading the coefficients of the first `n` channels. A version 1 channel ends
/// on a byte boundary.
pub open spec fn channel_coefs(
    ctx: WmaContext,
    ms_stereo: bool,
    coded: Seq<bool>,
    total_gain: nat,
    n: nat,
    bits: Seq<bool>,
) -> (Result<Seq<Seq<i64>>, WmaError>, Seq<bool>)
    decreases n,
{
    if n == 0 {
        (Ok(Seq::empty()), bits)
    } else {
        match channel_coefs(ctx, ms_stereo, coded, total_gain, (n - 1) as nat, bits) {
            (Err(e), rest) => (Err(e), rest),
            (Ok(done), rest) => if !coded[n - 1] {
                (Ok(done.push(silence(ctx.frame_len as nat))), rest)
            } else {
                match coefficients_from(
                    ctx,
                    ms_stereo && n == 2,
                    total_gain,
                    ctx.coefs_start as nat,
                    silence(ctx.frame_len as nat),
                    rest,
                ) {
                    (Err(e), rest) => (Err(e), rest),
                    (Ok(c), rest) => (
                        Ok(done.push(c)),
                        if ctx.version == Version::V1 {
                            rest.skip((rest.len() % 8) as int)
                        } else {
                            rest
                        },
                    ),
                }
            },
        }
    }
}

/// Parsing a packet's bits.
pub open spec fn packet_values(ctx: WmaContext, bits: Seq<bool>) -> Result<FrameValues, WmaError> {
    let (stereo, rest) = if ctx.channels == 2 {
        number(bits, 1)
    } else {
        (Ok(0nat), bits)
    };
    match stereo {
        Err(e) => Err(e),
        Ok(stereo) => match read_flags(ctx.channels as nat, rest) {
            (Err(e), _) => Err(e),
            (Ok(coded), rest) => match read_gain(coded, rest) {
                (Err(e), _) => Err(e),
                (Ok(total_gain), rest) => match channel_exponents(
                    ctx,
                    coded,
                    ctx.channels as nat,
                    rest,
                ) {
                    (Err(e), _) => Err(e),
                    (Ok(exponents), rest) => match channel_coefs(
                        ctx,
                        stereo != 0,
                        coded,
                        total_gain,
                        ctx.channels as nat,
                        rest,
                    ) {
                        (Err(e), _) => Err(e),
                        (Ok(coefs), _) => Ok(
                            FrameValues {
                                ms_stereo: stereo != 0,
                                coded,
                                total_gain,
                                exponents,
                                coefs,
                            },
                        ),
                    },
                },
            },
        },
    }
}

/// Read the gain fields.
fn read_gain_fields(reader: &mut PacketReader<'_>) -> (gain: Result<u32, WmaError>)
    requires
        1 + gain_sum(unread(*old(reader))) <= u32::MAX,
    ensures
        unread(*final(reader)) == gain_fields(unread(*old(reader))).1,
        gain_fields(unread(*old(reader))).0 == (match gain {
            Ok(v) => Ok::<nat, WmaError>(v as nat),
            Err(e) => Err(e),
        }),
        gain matches Ok(v) ==> v < u32::MAX,
{
    let ghost bits = unread(*reader);
    let ghost whole = gain_fields(bits);
    let mut sum: u32 = 0;
    loop
        invariant
            bits == unread(*old(reader)),
            whole == gain_fields(bits),
            1 + gain_sum(bits) <= u32::MAX,
            sum + gain_sum(unread(*reader)) == gain_sum(bits),
            whole.1 == gain_fields(unread(*reader)).1,
            whole.0 == (match gain_fields(unread(*reader)).0 {
                Ok(more) => Ok::<nat, WmaError>(sum as nat + more),
                Err(e) => Err(e),
            }),
        decreases unread(*reader).len(),
    {
        match read_u(reader, 7) {
            Ok(v) => {
                sum = sum + v;
                if v != 127 {
                    return Ok(sum);
                }
            },
            Err(e) => {
                return Err(e);
            },
        }
    }
}

/// Whether one more than the sum of the gain fields fits in 32 bits.
fn gain_fields_fit(reader: &mut PacketReader<'_>) -> (fit: bool)
    ensures
        fit == (1 + gain_sum(unread(*old(reader))) <= u32::MAX),
{
    let ghost bits = unread(*reader);
    let mut sum: u32 = 0;
    loop
        invariant
            bits == unread(*old(reader)),
            sum < u32::MAX,
            sum + gain_sum(unread(*reader)) == gain_sum(bits),
        decreases unread(*reader).len(),
    {
        match read_u(reader, 7) {
            Ok(v) => {
                if v >= u32::MAX - sum {
                    return false;
                }
                sum = sum + v;
                if v != 127 {
                    return true;
                }
            },
            Err(_) => {
                return true;
            },
        }
    }
}

/// Whether any flag is set.
fn any_set(flags: &Vec<bool>) -> (any: bool)
    ensures
        any == flags@.contains(true),
{
    let mut i: usize = 0;
    while i < flags.len()
        invariant
            i <= flags@.len(),
            forall|k: int| 0 <= k < i ==> !#[trigger] flags@[k],
        decreases flags@.len() - i,
    {
        if flags[i] {
            assert(flags@[i as int] == true);
            return true;
        }
        i = i + 1;
    }
    false
}

proof fn lemma_gain_sum_bound(bits: Seq<bool>)
    ensures
        gain_sum(bits) <= 127 * (bits.len() / 7),
    decreases bits.len(),
{
    lemma2_to64();
    if bits.len() >= 7 {
        crate::bits::lemma_value_bound(bits.take(7));
        lemma_gain_sum_bound(bits.skip(7));
        assert(bits.skip(7).len() / 7 + 1 == bits.len() / 7);
    }
}

proof fn lemma_flags_shorten(n: nat, bits: Seq<bool>)
    ensures
        read_flags(n, bits).1.len() <= bits.len(),
    decreases n,
{
    if n > 0 {
        lemma_flags_shorten((n - 1) as nat, bits);
    }
}

/// The total gain of a packet of up to 29 million bytes is always in range.
pub proof fn short_packets_are_in_range(ctx: WmaContext, bits: Seq<bool>)
    requires
        bits.len() <= 8 * 29_000_000,
    ensures
        gain_in_range(ctx, bits),
{
    let rest = if ctx.channels == 2 {
        number(bits, 1).1
    } else {
        bits
    };
    lemma_flags_shorten(ctx.channels as nat, rest);
    lemma_gain_sum_bound(read_flags(ctx.channels as nat, rest).1);
}

impl WmaContext {
    /// Whether a packet's total gain fits in 32 bits.
    pub fn gain_fits(&self, packet: &[u8]) -> (fit: bool)
        requires
            self.wf(),
        ensures
            fit == gain_in_range(*self, bytes_bits(packet@)),
    {
        let mut reader = PacketReader::new(packet);
        if self.channels == 2 && read_u(&mut reader, 1).is_err() {
            return true;
        }
        match self.read_coded(&mut reader) {
            Ok(coded) => !any_set(&coded) || gain_fields_fit(&mut reader),
            Err(_) => true,
        }
    }

    /// Parse a packet into integers. One whose total gain does not fit in 32 bits is
    /// left out.
    pub fn parse_frame(&self, packet: &[u8]) -> (frame: Result<FrameSyntax, WmaError>)
        requires
            self.wf(),
            gain_in_range(*self, bytes_bits(packet@)),
        ensures
            packet_values(*self, bytes_bits(packet@)) == (match frame {
                Ok(f) => Ok::<FrameValues, WmaError>(f@),
                Err(e) => Err(e),
            }),
    {
        let mut reader = PacketReader::new(packet);
        let ms_stereo = if self.channels == 2 {
            match read_u(&mut reader, 1) {
                Ok(v) => v != 0,
                Err(e) => {
                    return Err(e);
                },
            }
        } else {
            false
        };
        let coded: Vec<bool> = match self.read_coded(&mut reader) {
            Ok(v) => v,
            Err(e) => {
                return Err(e);
            },
        };
        let total_gain: u32 = match self.read_total_gain(&coded, &mut reader) {
            Ok(v) => v,
            Err(e) => {
                return Err(e);
            },
        };
        let exponents: Vec<Option<ChannelExponents>> = match self.read_all_exponents(
            &coded,
            &mut reader,
        ) {
            Ok(v) => v,
            Err(e) => {
                return Err(e);
            },
        };
        let coefs: Vec<Vec<i64>> = match self.read_all_coefs(
            ms_stereo,
            &coded,
            total_gain,
            &mut reader,
        ) {
            Ok(v) => v,
            Err(e) => {
                return Err(e);
            },
        };
        Ok(FrameSyntax { ms_stereo, coded, total_gain, exponents, coefs })
    }

    fn read_coded(&self, reader: &mut PacketReader<'_>) -> (coded: Result<Vec<bool>, WmaError>)
        requires
            self.wf(),
        ensures
            unread(*final(reader)) == read_flags(self.channels as nat, unread(*old(reader))).1,
            read_flags(self.channels as nat, unread(*old(reader))).0 == (match coded {
                Ok(v) => Ok::<Seq<bool>, WmaError>(v@),
                Err(e) => Err(e),
            }),
            coded matches Ok(v) ==> v@.len() == self.channels,
    {
        let mut coded: Vec<bool> = Vec::new();
        let mut c: u16 = 0;
        while c < self.channels
            invariant
                self.wf(),
                c <= self.channels,
                coded@.len() == c,
                read_flags(c as nat, unread(*old(reader))) == (
                    Ok::<Seq<bool>, WmaError>(coded@),
                    unread(*reader),
                ),
            decreases self.channels - c,
        {
            match read_u(reader, 1) {
                Ok(v) => {
                    coded.push(v != 0);
                },
                Err(e) => {
                    proof {
                        lemma_flags_stop(
                            (c + 1) as nat,
                            self.channels as nat,
                            unread(*old(reader)),
                        );
                    }
                    return Err(e);
                },
            }
            c = c + 1;
        }
        Ok(coded)
    }

    fn read_total_gain(&self, coded: &Vec<bool>, reader: &mut PacketReader<'_>) -> (gain: Result<
        u32,
        WmaError,
    >)
        requires
            coded@.contains(true) ==> 1 + gain_sum(unread(*old(reader))) <= u32::MAX,
        ensures
            unread(*final(reader)) == read_gain(coded@, unread(*old(reader))).1,
            read_gain(coded@, unread(*old(reader))).0 == (match gain {
                Ok(v) => Ok::<nat, WmaError>(v as nat),
                Err(e) => Err(e),
            }),
    {
        if any_set(coded) {
            match read_gain_fields(reader) {
                Ok(g) => Ok(1 + g),
                Err(e) => Err(e),
            }
        } else {
            Ok(1)
        }
    }

    fn read_all_exponents(&self, coded: &Vec<bool>, reader: &mut PacketReader<'_>) -> (
    exponents: Result<Vec<Option<ChannelExponents>>, WmaError>)
        requires
            self.wf(),
            coded@.len() == self.channels,
        ensures
            unread(*final(reader)) == channel_exponents(
                *self,
                coded@,
                self.channels as nat,
                unread(*old(reader)),
            ).1,
            channel_exponents(*self, coded@, self.channels as nat, unread(*old(reader))).0 == (
            match exponents {
                Ok(v) => Ok::<Seq<Option<ExponentValues>>, WmaError>(all_exponents(v@)),
                Err(e) => Err(e),
            }),
    {
        let mut exponents: Vec<Option<ChannelExponents>> = Vec::new();
        assert(all_exponents(exponents@) =~= Seq::<Option<ExponentValues>>::empty());
        let mut c: usize = 0;
        while c < coded.len()
            invariant
                self.wf(),
                coded@.len() == self.channels,
                c <= coded@.len(),
                channel_exponents(*self, coded@, c as nat, unread(*old(reader))) == (
                    Ok::<Seq<Option<ExponentValues>>, WmaError>(all_exponents(exponents@)),
                    unread(*reader),
                ),
            decreases coded@.len() - c,
        {
            let ghost before = exponents@;
            let one: Option<ChannelExponents> = if !coded[c] {
                None
            } else if !self.use_exp_vlc {
                proof {
                    lemma_exponents_stop(
                        *self,
                        coded@,
                        (c + 1) as nat,
                        self.channels as nat,
                        unread(*old(reader)),
                    );
                }
                return Err(WmaError::LspExponents);
            } else {
                match self.decode_exp_vlc(reader) {
                    Ok(x) => Some(x),
                    Err(e) => {
                        proof {
                            lemma_exponents_stop(
                                *self,
                                coded@,
                                (c + 1) as nat,
                                self.channels as nat,
                                unread(*old(reader)),
                            );
                        }
                        return Err(e);
                    },
                }
            };
            let ghost value = exponent_values(one);
            exponents.push(one);
            assert(all_exponents(exponents@) =~= all_exponents(before).push(value));
            c = c + 1;
        }
        Ok(exponents)
    }

    fn read_all_coefs(
        &self,
        ms_stereo: bool,
        coded: &Vec<bool>,
        total_gain: u32,
        reader: &mut PacketReader<'_>,
    ) -> (coefs: Result<Vec<Vec<i64>>, WmaError>)
        requires
            self.wf(),
            coded@.len() == self.channels,
        ensures
            channel_coefs(
                *self,
                ms_stereo,
                coded@,
                total_gain as nat,
                self.channels as nat,
                unread(*old(reader)),
            ).0 == (match coefs {
                Ok(v) => Ok::<Seq<Seq<i64>>, WmaError>(all_coefs(v@)),
                Err(e) => Err(e),
            }),
    {
        let mut coefs: Vec<Vec<i64>> = Vec::new();
        assert(all_coefs(coefs@) =~= Seq::<Seq<i64>>::empty());
        let mut c: usize = 0;
        while c < coded.len()
            invariant
                self.wf(),
                coded@.len() == self.channels,
                c <= coded@.len(),
                channel_coefs(
                    *self,
                    ms_stereo,
                    coded@,
                    total_gain as nat,
                    c as nat,
                    unread(*old(reader)),
                ) == (Ok::<Seq<Seq<i64>>, WmaError>(all_coefs(coefs@)), unread(*reader)),
            decreases coded@.len() - c,
        {
            let ghost before = coefs@;
            let one: Vec<i64> = if coded[c] {
                let side = ms_stereo && c == 1;
                match self.run_level_decode(reader, side, total_gain) {
                    Ok(v) => {
                        if matches!(self.version, Version::V1) {
                            reader.align_to_byte();
                        }
                        v
                    },
                    Err(e) => {
                        proof {
                            lemma_coefs_stop(
                                *self,
                                ms_stereo,
                                coded@,
                                total_gain as nat,
                                (c + 1) as nat,
                                self.channels as nat,
                                unread(*old(reader)),
                            );
                        }
                        return Err(e);
                    },
                }
            } else {
                let quiet: Vec<i64> = vec![0i64; self.frame_len];
                assert(quiet@ =~= silence(self.frame_len as nat));
                quiet
            };
            let ghost value = one@;
            coefs.push(one);
            assert(all_coefs(coefs@) =~= all_coefs(before).push(value));
            c = c + 1;
        }
        Ok(coefs)
    }
}

/// Once reading flags has failed, asking for more changes nothing.
proof fn lemma_flags_stop(k: nat, n: nat, bits: Seq<bool>)
    requires
        k <= n,
        read_flags(k, bits).0 is Err,
    ensures
        read_flags(n, bits) == read_flags(k, bits),
    decreases n - k,
{
    if k < n {
        lemma_flags_stop(k, (n - 1) as nat, bits);
    }
}

/// Once reading exponents has failed, further channels change nothing.
proof fn lemma_exponents_stop(ctx: WmaContext, coded: Seq<bool>, k: nat, n: nat, bits: Seq<bool>)
    requires
        k <= n,
        channel_exponents(ctx, coded, k, bits).0 is Err,
    ensures
        channel_exponents(ctx, coded, n, bits) == channel_exponents(ctx, coded, k, bits),
    decreases n - k,
{
    if k < n {
        lemma_exponents_stop(ctx, coded, k, (n - 1) as nat, bits);
    }
}

/// Once reading coefficients has failed, further channels change nothing.
proof fn lemma_coefs_stop(
    ctx: WmaContext,
    ms_stereo: bool,
    coded: Seq<bool>,
    total_gain: nat,
    k: nat,
    n: nat,
    bits: Seq<bool>,
)
    requires
        k <= n,
        channel_coefs(ctx, ms_stereo, coded, total_gain, k, bits).0 is Err,
    ensures
        channel_coefs(ctx, ms_stereo, coded, total_gain, n, bits) == channel_coefs(
            ctx,
            ms_stereo,
            coded,
            total_gain,
            k,
            bits,
        ),
    decreases n - k,
{
    if k < n {
        lemma_coefs_stop(ctx, ms_stereo, coded, total_gain, k, (n - 1) as nat, bits);
    }
}

} // verus!

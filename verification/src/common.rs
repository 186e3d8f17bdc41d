//! Parsing version 1 and version 2 packets down to integers: setup, code
//! books, exponents and coefficients. What is left of decoding (scaling, the
//! inverse transform, overlapping) is floating-point work on these integers.
use crate::binary64::Binary64;
use crate::bits::{bits_of, value_of};
use crate::huffman::max_length;
use crate::packet_bits::{read_number, unread};
use crate::wire_tables::CRITICAL_BAND_FREQS_HZ;
use oxideav_core::bits::BitReader as PacketReader;
use vstd::arithmetic::power2::{lemma2_to64, pow2};
use vstd::prelude::*;

verus! {

/// The bitstream version.
#[derive(Clone, Copy, Debug, Eq, PartialEq, Structural)]
pub enum Version {
    /// Version 1.
    V1,
    /// Version 2.
    V2,
}

/// Why a stream is not set up or a packet is not parsed.
#[derive(Clone, Copy, Debug, Eq, PartialEq, Structural)]
pub enum WmaError {
    /// The stream has neither one nor two channels.
    Channels,
    /// The sample rate is above 48 kHz.
    SampleRate,
    /// The stream uses the bit reservoir.
    BitReservoir,
    /// The stream varies its block length.
    VariableBlockLength,
    /// The stream codes its high band as noise.
    NoiseCoding,
    /// The stream codes its exponents as line spectra.
    LspExponents,
    /// No coefficient codeword matches.
    NoCoefCode,
    /// No scale codeword matches.
    NoScaleCode,
    /// The packet ended.
    OutOfBits,
}

impl WmaError {
    /// What `message` says.
    pub open spec fn text(self) -> Seq<char> {
        match self {
            WmaError::Channels => "wma: only mono / stereo on round 1"@,
            WmaError::SampleRate => "wma: v1/v2 cap at 48 kHz"@,
            WmaError::BitReservoir => "wma: bit reservoir not yet supported"@,
            WmaError::VariableBlockLength => "wma: variable block length not yet supported"@,
            WmaError::NoiseCoding => "wma: noise-coded high band not yet supported"@,
            WmaError::LspExponents => "wma: LSP exponents not yet supported"@,
            WmaError::NoCoefCode => "wma: no matching VLC code"@,
            WmaError::NoScaleCode => "wma: no matching AAC scalefactor code"@,
            WmaError::OutOfBits => "bitreader: out of bits"@,
        }
    }

    /// A description for people.
    pub fn message(self) -> (s: &'static str)
        ensures
            s@ == self.text(),
    {
        match self {
            WmaError::Channels => "wma: only mono / stereo on round 1",
            WmaError::SampleRate => "wma: v1/v2 cap at 48 kHz",
            WmaError::BitReservoir => "wma: bit reservoir not yet supported",
            WmaError::VariableBlockLength => "wma: variable block length not yet supported",
            WmaError::NoiseCoding => "wma: noise-coded high band not yet supported",
            WmaError::LspExponents => "wma: LSP exponents not yet supported",
            WmaError::NoCoefCode => "wma: no matching VLC code",
            WmaError::NoScaleCode => "wma: no matching AAC scalefactor code",
            WmaError::OutOfBits => "bitreader: out of bits",
        }
    }
}

// ------------------------------------------------------------ code books

/// Whether `i` is the first entry of length `n` whose codeword is `acc`.
pub open spec fn is_first_entry(
    codes: Seq<u32>,
    lens: Seq<u8>,
    n: nat,
    acc: nat,
    i: int,
) -> bool {
    &&& 0 <= i < lens.len()
    &&& lens[i] == n
    &&& codes[i] == acc
    &&& forall|j: int| 0 <= j < i ==> !((#[trigger] lens[j]) == n && codes[j] == acc)
}

/// The codeword that the first `n` bits spell, as far as 32 bits hold it.
pub open spec fn code_so_far(bits: Seq<bool>, n: nat) -> nat {
    value_of(bits.take(n as int)) % 0x1_0000_0000
}

/// Why no codeword was found.
#[derive(Clone, Copy, Debug, Eq, PartialEq, Structural)]
pub enum ScanError {
    /// As many bits as the longest codeword has match no entry.
    Unmatched,
    /// The packet ended.
    OutOfBits,
}

/// Looking up a codeword after `n` bits that match no entry: the shortest
/// further run of bits that matches decides.
pub open spec fn scan_code(codes: Seq<u32>, lens: Seq<u8>, n: nat, bits: Seq<bool>) -> (
    Result<usize, ScanError>,
    Seq<bool>,
)
    decreases max_length(lens) - n,
{
    if n >= max_length(lens) {
        (Err(ScanError::Unmatched), bits.skip(n as int))
    } else if n >= bits.len() {
        (Err(ScanError::OutOfBits), bits.skip(n as int))
    } else if exists|i: int|
        #[trigger] is_first_entry(codes, lens, n + 1, code_so_far(bits, n + 1), i) {
        let i = choose|i: int|
            #[trigger] is_first_entry(codes, lens, n + 1, code_so_far(bits, n + 1), i);
        (Ok(i as usize), bits.skip(n as int + 1))
    } else {
        scan_code(codes, lens, n + 1, bits)
    }
}

/// Look up one codeword by scanning the entries.
fn scan(codes: &[u32], lens: &[u8], reader: &mut PacketReader<'_>) -> (symbol: Result<
    usize,
    ScanError,
>)
    requires
        codes@.len() == lens@.len(),
    ensures
        (symbol, unread(*final(reader))) == scan_code(codes@, lens@, 0, unread(*old(reader))),
        symbol matches Ok(s) ==> s < lens@.len(),
{
    let ghost bits = unread(*reader);
    let n: usize = lens.len();
    let mut max_bits: u8 = 0;
    let mut k: usize = 0;
    assert(lens@.take(0) =~= Seq::<u8>::empty());
    while k < n
        invariant
            k <= n == lens@.len(),
            max_bits == max_length(lens@.take(k as int)),
        decreases n - k,
    {
        assert(lens@.take(k + 1).drop_last() =~= lens@.take(k as int));
        if lens[k] > max_bits {
            max_bits = lens[k];
        }
        k = k + 1;
    }
    assert(lens@.take(n as int) =~= lens@);
    let mut acc: u32 = 0;
    let mut nbits: u8 = 0;
    proof {
        assert(bits.skip(0) =~= bits);
        assert(bits.take(0) =~= Seq::<bool>::empty());
    }
    while nbits < max_bits
        invariant
            n == lens@.len() == codes@.len(),
            max_bits == max_length(lens@),
            nbits <= max_bits,
            nbits <= bits.len(),
            bits == unread(*old(reader)),
            unread(*reader) == bits.skip(nbits as int),
            acc == code_so_far(bits, nbits as nat),
            scan_code(codes@, lens@, 0, bits) == scan_code(codes@, lens@, nbits as nat, bits),
        decreases max_bits - nbits,
    {
        let bit: u32 = match read_number(reader, 1) {
            Some(b) => b,
            None => {
                return Err(ScanError::OutOfBits);
            },
        };
        let ghost before = value_of(bits.take(nbits as int));
        proof {
            let one = bits.skip(nbits as int).take(1);
            assert(one =~= seq![bits[nbits as int]]);
            reveal_with_fuel(value_of, 2);
            assert(one.drop_last() =~= Seq::<bool>::empty());
            assert(bits.take(nbits + 1).drop_last() =~= bits.take(nbits as int));
            assert(bits.skip(nbits as int).skip(1) =~= bits.skip(nbits + 1));
            lemma2_to64();
            lemma_double_mod(before, bit as nat);
        }
        acc = ((2 * (acc as u64) + bit as u64) % 0x1_0000_0000) as u32;
        nbits = nbits + 1;
        let mut i: usize = 0;
        while i < n
            invariant
                n == lens@.len() == codes@.len(),
                i <= n,
                1 <= nbits <= max_bits,
                max_bits == max_length(lens@),
                nbits <= bits.len(),
                bits == unread(*old(reader)),
                unread(*reader) == bits.skip(nbits as int),
                acc == code_so_far(bits, nbits as nat),
                scan_code(codes@, lens@, 0, bits) == scan_code(
                    codes@,
                    lens@,
                    (nbits - 1) as nat,
                    bits,
                ),
                forall|j: int|
                    0 <= j < i ==> !((#[trigger] lens@[j]) == nbits && codes@[j] == acc),
            decreases n - i,
        {
            if lens[i] == nbits && codes[i] == acc {
                proof {
                    let c = acc as nat;
                    assert(is_first_entry(codes@, lens@, nbits as nat, c, i as int));
                    let m = choose|m: int|
                        #[trigger] is_first_entry(codes@, lens@, nbits as nat, c, m);
                    if m < i {
                        assert(!(lens@[m] == nbits && codes@[m] == acc));
                    } else if m > i {
                        assert(!(lens@[i as int] == nbits && codes@[i as int] == acc));
                    }
                }
                return Ok(i);
            }
            i = i + 1;
        }
        proof {
            assert forall|m: int|
                !is_first_entry(codes@, lens@, nbits as nat, acc as nat, m) by {
                if 0 <= m < lens@.len() {
                    assert(!(lens@[m] == nbits && codes@[m] == acc));
                }
            }
        }
    }
    Err(ScanError::Unmatched)
}

proof fn lemma_double_mod(v: nat, b: nat)
    ensures
        (2 * v + b) % 0x1_0000_0000 == (2 * (v % 0x1_0000_0000) + b) % 0x1_0000_0000,
{
    let m = 0x1_0000_0000int;
    let q = v as int / m;
    let r = v as int % m;
    assert(2 * v + b == m * (2 * q) + (2 * r + b));
    vstd::arithmetic::div_mod::lemma_mod_multiples_vanish(2 * q, 2 * r + b, m);
}

/// A coefficient code book: codewords, and what each symbol stands for.
#[derive(Debug, Clone)]
pub struct CoefBook {
    /// The codewords.
    pub codes: Vec<u32>,
    /// Their lengths.
    pub bits: Vec<u8>,
    /// For each level from one on, how many runs from zero on have a symbol.
    pub levels: Vec<u16>,
    /// The run of each symbol; symbols 0 and 1 have none.
    pub run: Vec<u16>,
    /// The level of each symbol; symbols 0 and 1 have none.
    pub level: Vec<u16>,
}

/// The run and level of the `k`-th pair, where levels from `from` on are listed.
pub open spec fn pair_at(levels: Seq<u16>, from: int, k: int) -> Option<(u16, u16)>
    decreases levels.len() - from,
{
    if from < 0 || from >= levels.len() {
        None
    } else if k < levels[from] {
        Some((k as u16, ((from + 1) % 65536) as u16))
    } else {
        pair_at(levels, from + 1, k - levels[from])
    }
}

/// The run and level of a symbol; one that stands for no pair has zeros.
pub open spec fn symbol_pair(levels: Seq<u16>, symbol: int) -> (u16, u16) {
    if symbol < 2 {
        (0, 0)
    } else {
        match pair_at(levels, 0, symbol - 2) {
            Some(p) => p,
            None => (0, 0),
        }
    }
}

impl CoefBook {
    /// The invariant: every symbol has a codeword, and its run and level are
    /// those that the levels list.
    pub open spec fn wf(&self) -> bool {
        &&& self.codes@.len() == self.bits@.len()
        &&& self.run@.len() == self.codes@.len()
        &&& self.level@.len() == self.codes@.len()
        &&& forall|s: int|
            0 <= s < self.codes@.len() ==> (#[trigger] self.run@[s], self.level@[s])
                == symbol_pair(self.levels@, s)
    }

    /// Build a book.
    pub fn new(codes: Vec<u32>, bits: Vec<u8>, levels: Vec<u16>) -> (book: Self)
        requires
            codes@.len() == bits@.len(),
        ensures
            book.wf(),
            book.codes@ == codes@,
            book.bits@ == bits@,
            book.levels@ == levels@,
    {
        let n: usize = codes.len();
        let mut run: Vec<u16> = vec![0u16; n];
        let mut level: Vec<u16> = vec![0u16; n];
        let mut sym: usize = 2;
        let mut li: usize = 0;
        while li < levels.len() && sym < n
            invariant
                2 <= sym,
                li <= levels@.len(),
                n == codes@.len() == bits@.len(),
                run@.len() == n,
                level@.len() == n,
                forall|s: int|
                    0 <= s < n && s < sym ==> (#[trigger] run@[s], level@[s]) == symbol_pair(
                        levels@,
                        s,
                    ),
                forall|s: int| sym <= s < n ==> (#[trigger] run@[s], level@[s]) == (0u16, 0u16),
                forall|k: int|
                    sym - 2 <= k ==> #[trigger] pair_at(levels@, 0, k) == pair_at(
                        levels@,
                        li as int,
                        k - (sym - 2),
                    ),
            decreases levels@.len() - li,
        {
            let lvl: u16 = ((li + 1) % 65536) as u16;
            let runs: u16 = levels[li];
            let ghost base = sym - 2;
            let mut r: u16 = 0;
            while r < runs && sym < n
                invariant
                    2 <= sym,
                    li < levels@.len(),
                    lvl == (li + 1) % 65536,
                    runs == levels@[li as int],
                    r <= runs,
                    sym - 2 == base + r,
                    n == codes@.len(),
                    run@.len() == n,
                    level@.len() == n,
                    forall|s: int|
                        0 <= s < n && s < sym ==> (#[trigger] run@[s], level@[s])
                            == symbol_pair(levels@, s),
                    forall|s: int|
                        sym <= s < n ==> (#[trigger] run@[s], level@[s]) == (0u16, 0u16),
                    forall|k: int|
                        base <= k ==> #[trigger] pair_at(levels@, 0, k) == pair_at(
                            levels@,
                            li as int,
                            k - base,
                        ),
                decreases runs - r,
            {
                proof {
                    assert(pair_at(levels@, 0, sym - 2) == pair_at(levels@, li as int, r as int));
                }
                let ghost run0 = run@;
                let ghost level0 = level@;
                run[sym] = r;
                level[sym] = lvl;
                proof {
                    assert forall|s: int| 0 <= s < n && s < sym + 1 implies (
                    #[trigger] run@[s], level@[s]) == symbol_pair(levels@, s) by {
                        if s < sym {
                            assert((run0[s], level0[s]) == symbol_pair(levels@, s));
                        }
                    }
                    assert forall|s: int| sym + 1 <= s < n implies (#[trigger] run@[s], level@[s])
                        == (0u16, 0u16) by {
                        assert((run0[s], level0[s]) == (0u16, 0u16));
                    }
                }
                sym = sym + 1;
                r = r + 1;
            }
            proof {
                if r == runs {
                    assert forall|k: int| sym - 2 <= k implies #[trigger] pair_at(levels@, 0, k)
                        == pair_at(levels@, li + 1, k - (sym - 2)) by {
                        assert(pair_at(levels@, 0, k) == pair_at(levels@, li as int, k - base));
                    }
                } else {
                    assert(sym >= n);
                }
            }
            if r < runs {
                proof {
                    assert forall|s: int| 0 <= s < n implies (#[trigger] run@[s], level@[s])
                        == symbol_pair(levels@, s) by {}
                }
                return CoefBook { codes, bits, levels, run, level };
            }
            li = li + 1;
        }
        proof {
            assert forall|s: int| 0 <= s < n implies (#[trigger] run@[s], level@[s])
                == symbol_pair(levels@, s) by {
                if s >= sym {
                    assert((run@[s], level@[s]) == (0u16, 0u16));
                    assert(li == levels@.len());
                    assert(pair_at(levels@, 0, s - 2) == pair_at(
                        levels@,
                        li as int,
                        s - 2 - (sym - 2),
                    ));
                }
            }
        }
        CoefBook { codes, bits, levels, run, level }
    }

    /// Read one symbol.
    pub fn read_sym(&self, reader: &mut PacketReader<'_>) -> (symbol: Result<usize, WmaError>)
        requires
            self.wf(),
        ensures
            ({
                let (scanned, rest) = scan_code(
                    self.codes@,
                    self.bits@,
                    0,
                    unread(*old(reader)),
                );
                &&& unread(*final(reader)) == rest
                &&& symbol == coef_symbol(scanned)
            }),
            symbol matches Ok(s) ==> s < self.codes@.len(),
    {
        match scan(self.codes.as_slice(), self.bits.as_slice(), reader) {
            Ok(s) => Ok(s),
            Err(ScanError::Unmatched) => Err(WmaError::NoCoefCode),
            Err(ScanError::OutOfBits) => Err(WmaError::OutOfBits),
        }
    }
}

/// What a scan for a coefficient codeword means.
pub open spec fn coef_symbol(scanned: Result<usize, ScanError>) -> Result<usize, WmaError> {
    match scanned {
        Ok(s) => Ok(s),
        Err(ScanError::Unmatched) => Err(WmaError::NoCoefCode),
        Err(ScanError::OutOfBits) => Err(WmaError::OutOfBits),
    }
}

/// The scale-factor codewords; entry `i` stands for a change of `i - 60`.
#[derive(Debug, Clone)]
pub struct ScaleTable {
    /// The codewords.
    pub codes: [u32; 121],
    /// Their lengths.
    pub bits: [u8; 121],
}

/// What a scan for a scale codeword means.
pub open spec fn scale_change(scanned: Result<usize, ScanError>) -> Result<int, WmaError> {
    match scanned {
        Ok(s) => Ok(s - 60),
        Err(ScanError::Unmatched) => Err(WmaError::NoScaleCode),
        Err(ScanError::OutOfBits) => Err(WmaError::OutOfBits),
    }
}

impl ScaleTable {
    /// Read one change of scale.
    pub fn read_aac_scalefactor(&self, reader: &mut PacketReader<'_>) -> (change: Result<
        i32,
        WmaError,
    >)
        ensures
            ({
                let (scanned, rest) = scan_code(
                    self.codes@,
                    self.bits@,
                    0,
                    unread(*old(reader)),
                );
                &&& unread(*final(reader)) == rest
                &&& scale_change(scanned) == (match change {
                    Ok(c) => Ok::<int, WmaError>(c as int),
                    Err(e) => Err(e),
                })
            }),
            change matches Ok(c) ==> -60 <= c <= 60,
    {
        match scan(self.codes.as_slice(), self.bits.as_slice(), reader) {
            Ok(s) => Ok(s as i32 - 60),
            Err(ScanError::Unmatched) => Err(WmaError::NoScaleCode),
            Err(ScanError::OutOfBits) => Err(WmaError::OutOfBits),
        }
    }
}

// ------------------------------------------------------------ rates and bands

/// The greatest of the version 2 rates that does not exceed `rate`, or the
/// least of them.
pub open spec fn bucket_rate(rate: nat) -> nat {
    if rate >= 44100 {
        44100
    } else if rate >= 32000 {
        32000
    } else if rate >= 22050 {
        22050
    } else if rate >= 16000 {
        16000
    } else if rate >= 11025 {
        11025
    } else {
        8000
    }
}

/// Bring a version 2 sample rate to one of the rates the decoder knows.
pub fn normalise_sample_rate_v2(sr: u32) -> (rate: u32)
    ensures
        rate == bucket_rate(sr as nat),
{
    if sr >= 44100 {
        44100
    } else if sr >= 32000 {
        32000
    } else if sr >= 22050 {
        22050
    } else if sr >= 16000 {
        16000
    } else if sr >= 11025 {
        11025
    } else {
        8000
    }
}

/// Binary logarithm of the frame length.
pub open spec fn frame_bits_at(rate: nat, version: Version) -> nat {
    let middle: nat = match version {
        Version::V1 => 32_000,
        Version::V2 => 22_050,
    };
    if rate <= 16_000 {
        9
    } else if rate <= middle {
        10
    } else {
        11
    }
}

/// Binary logarithm of the frame length at a sample rate.
pub fn frame_len_bits_for(sr: u32, version: Version) -> (bits: u32)
    ensures
        bits == frame_bits_at(sr as nat, version),
{
    match version {
        Version::V1 => {
            if sr <= 16_000 {
                9
            } else if sr <= 32_000 {
                10
            } else {
                11
            }
        },
        Version::V2 => {
            if sr <= 16_000 {
                9
            } else if sr <= 22_050 {
                10
            } else {
                11
            }
        },
    }
}

/// The pattern of 0.5.
pub const RATE_0_5: u64 = 0x3FE0_0000_0000_0000;

/// The pattern of 0.6, rounded to 24 bits of precision.
pub const RATE_0_6: u64 = 0x3FE3_3333_4000_0000;

/// The pattern of 0.61, rounded to 24 bits of precision.
pub const RATE_0_61: u64 = 0x3FE3_851E_C000_0000;

/// The pattern of 0.625.
pub const RATE_0_625: u64 = 0x3FE4_0000_0000_0000;

/// The pattern of 0.72, rounded to 24 bits of precision.
pub const RATE_0_72: u64 = 0x3FE7_0A3D_8000_0000;

/// The pattern of 0.75.
pub const RATE_0_75: u64 = 0x3FE8_0000_0000_0000;

/// The pattern of 0.8, rounded to 24 bits of precision.
pub const RATE_0_8: u64 = 0x3FE9_9999_A000_0000;

/// The pattern of 1.16, rounded to 24 bits of precision.
pub const RATE_1_16: u64 = 0x3FF2_8F5C_2000_0000;

/// Whether `x` is at least the number with pattern `bits`.
pub open spec fn reaches(x: Binary64, bits: u64) -> bool {
    Binary64 { bits }.at_most(x)
}

/// Whether `x` is above the number with pattern `bits`.
pub open spec fn exceeds(x: Binary64, bits: u64) -> bool {
    Binary64 { bits }.below(x)
}

/// Where the coded band ends, in hundredths of half the sample rate, and
/// whether the rest is coded as noise, at a rate and at bits per sample.
pub open spec fn high_band(rate: nat, bps: Binary64, bps1: Binary64) -> (nat, bool) {
    if rate == 44100 {
        if reaches(bps1, RATE_0_61) {
            (100, false)
        } else {
            (40, true)
        }
    } else if rate == 22050 {
        if reaches(bps1, RATE_1_16) {
            (100, false)
        } else if reaches(bps1, RATE_0_72) {
            (70, true)
        } else {
            (60, true)
        }
    } else if rate == 16000 {
        if exceeds(bps, RATE_0_5) {
            (50, true)
        } else {
            (30, true)
        }
    } else if rate == 11025 {
        (70, true)
    } else if rate == 8000 {
        if exceeds(bps, RATE_0_75) {
            (100, false)
        } else if exceeds(bps, RATE_0_625) {
            (65, true)
        } else {
            (50, true)
        }
    } else if reaches(bps, RATE_0_8) {
        (75, true)
    } else if reaches(bps, RATE_0_6) {
        (60, true)
    } else {
        (50, true)
    }
}

fn at_least(x: Binary64, bits: u64) -> (b: bool)
    ensures
        b == reaches(x, bits),
{
    Binary64::from_bits(bits).le(x)
}

fn above(x: Binary64, bits: u64) -> (b: bool)
    ensures
        b == exceeds(x, bits),
{
    Binary64::from_bits(bits).lt(x)
}

/// Choose where the coded band ends, in hundredths of half the sample rate, and
/// whether the rest is coded as noise.
pub fn select_high_freq_and_noise(sr_normalised: u32, bps: Binary64, bps1: Binary64) -> (chosen: (
    u32,
    bool,
))
    ensures
        (chosen.0 as nat, chosen.1) == high_band(sr_normalised as nat, bps, bps1),
{
    match sr_normalised {
        44100 => {
            if at_least(bps1, RATE_0_61) {
                (100, false)
            } else {
                (40, true)
            }
        },
        22050 => {
            if at_least(bps1, RATE_1_16) {
                (100, false)
            } else if at_least(bps1, RATE_0_72) {
                (70, true)
            } else {
                (60, true)
            }
        },
        16000 => {
            if above(bps, RATE_0_5) {
                (50, true)
            } else {
                (30, true)
            }
        },
        11025 => (70, true),
        8000 => {
            if above(bps, RATE_0_75) {
                (100, false)
            } else if above(bps, RATE_0_625) {
                (65, true)
            } else {
                (50, true)
            }
        },
        _ => {
            if at_least(bps, RATE_0_8) {
                (75, true)
            } else if at_least(bps, RATE_0_6) {
                (60, true)
            } else {
                (50, true)
            }
        },
    }
}

/// A stream without noise coding codes its whole band.
pub proof fn no_noise_means_full_band(rate: nat, bps: Binary64, bps1: Binary64)
    ensures
        !high_band(rate, bps, bps1).1 <==> high_band(rate, bps, bps1).0 == 100,
{
}

/// Which pair of coefficient books a stream uses.
pub open spec fn book_choice(rate: nat, bps1: Binary64) -> nat {
    if rate < 32_000 {
        2
    } else if bps1.below(Binary64 { bits: RATE_0_72 }) {
        0
    } else if bps1.below(Binary64 { bits: RATE_1_16 }) {
        1
    } else {
        2
    }
}

/// Choose the pair of coefficient books.
pub fn select_coef_vlc_table(sample_rate: u32, bps1: Binary64) -> (table: usize)
    ensures
        table == book_choice(sample_rate as nat, bps1),
        table <= 2,
        sample_rate < 32_000 ==> table == 2,
        sample_rate >= 32_000 ==> (table == 0 <==> bps1.below(
            Binary64 { bits: 0x3FE7_0A3D_8000_0000 },
        )),
        sample_rate >= 32_000 ==> (table == 2 <==> !bps1.below(
            Binary64 { bits: 0x3FF2_8F5C_2000_0000 },
        )),
{
    if sample_rate >= 32_000 {
        if bps1.lt(Binary64::from_bits(RATE_0_72)) {
            0
        } else if bps1.lt(Binary64::from_bits(RATE_1_16)) {
            1
        } else {
            2
        }
    } else {
        2
    }
}

/// The bin of a frequency: in version 1 the nearest, a half rounded up, and in
/// version 2 the nearest multiple of four.
pub open spec fn frequency_bin(version: Version, block_len: nat, rate: nat, freq: nat) -> nat {
    match version {
        Version::V1 => (block_len * 2 * freq + rate / 2) / rate,
        Version::V2 => 4 * ((block_len * 2 * freq + 2 * rate) / (4 * rate)),
    }
}

/// The bin of a band edge: that of its frequency, as far as 32 bits hold it, and none
/// past the block.
pub open spec fn edge_at(version: Version, block_len: nat, rate: nat, freq: nat) -> nat {
    let bin = frequency_bin(version, block_len, rate, freq) % 0x1_0000_0000;
    if bin <= block_len {
        bin
    } else {
        block_len
    }
}

/// The bin of the edge of critical band `k`.
pub open spec fn edge(version: Version, block_len: nat, rate: nat, k: int) -> nat {
    edge_at(version, block_len, rate, CRITICAL_BAND_FREQS_HZ@[k] as nat)
}

/// Whether 32 bits hold the bin of every critical band edge.
pub open spec fn bins_fit(version: Version, block_len: nat, rate: nat) -> bool {
    forall|k: int|
        0 <= k < 25 ==> frequency_bin(
            version,
            block_len,
            rate,
            #[trigger] CRITICAL_BAND_FREQS_HZ@[k] as nat,
        ) < 0x1_0000_0000
}

/// The widths of the bands from critical band `k` on, where the bins below
/// `low` are taken: each edge that lies past the last ends a band, until one
/// reaches the end of the block.
pub open spec fn band_widths(
    version: Version,
    block_len: nat,
    rate: nat,
    k: int,
    low: nat,
) -> Seq<u32>
    decreases 25 - k,
{
    if k >= 25 || k < 0 {
        Seq::empty()
    } else {
        let pos = edge(version, block_len, rate, k);
        let here = if pos > low {
            seq![(pos - low) as u32]
        } else {
            Seq::empty()
        };
        if pos >= block_len {
            here
        } else {
            here + band_widths(version, block_len, rate, k + 1, pos)
        }
    }
}

/// The sum of widths.
pub open spec fn total(widths: Seq<u32>) -> nat
    decreases widths.len(),
{
    if widths.len() == 0 {
        0
    } else {
        widths[0] as nat + total(widths.skip(1))
    }
}

fn edge_bin(version: Version, block_len: u32, rate: u32, freq: u32) -> (pos: u32)
    requires
        rate > 0,
        version == Version::V2 ==> rate < 0x4000_0000,
        freq <= 24500,
    ensures
        pos == edge_at(version, block_len as nat, rate as nat, freq as nat),
        pos <= block_len,
{
    proof {
        assert(block_len * 2 * freq <= 0xFFFF_FFFF * 2 * 24500) by (nonlinear_arith)
            requires
                0 <= block_len <= 0xFFFF_FFFF,
                0 <= freq <= 24500,
        ;
    }
    let scaled: u64 = block_len as u64 * 2 * freq as u64;
    let bin: u64 = match version {
        Version::V1 => (scaled + rate as u64 / 2) / rate as u64,
        Version::V2 => {
            let fours: u64 = (scaled + 2 * rate as u64) / (4 * rate as u64);
            proof {
                let d = 4 * rate as int;
                let n = scaled as int + 2 * rate;
                assert(n / d <= n) by (nonlinear_arith)
                    requires
                        n >= 0,
                        d >= 1,
                ;
            }
            4 * fours
        },
    };
    let held: u32 = (bin % 0x1_0000_0000) as u32;
    if held <= block_len {
        held
    } else {
        block_len
    }
}

/// The widths that the critical bands give.
fn critical_widths(version: Version, block_len: usize, rate: u32) -> (widths: Vec<u32>)
    requires
        block_len <= u32::MAX,
        rate > 0,
        version == Version::V2 ==> rate < 0x4000_0000,
    ensures
        widths@ == band_widths(version, block_len as nat, rate as nat, 0, 0),
{
    let mut widths: Vec<u32> = Vec::new();
    let mut low: u32 = 0;
    let mut k: usize = 0;
    let ghost whole = band_widths(version, block_len as nat, rate as nat, 0, 0);
    assert(widths@ + whole =~= whole);
    while k < 25
        invariant
            k <= 25,
            block_len <= u32::MAX,
            rate > 0,
            version == Version::V2 ==> rate < 0x4000_0000,
            whole == band_widths(version, block_len as nat, rate as nat, 0, 0),
            widths@ + band_widths(version, block_len as nat, rate as nat, k as int, low as nat)
                == whole,
        decreases 25 - k,
    {
        proof {
            crate::wire_tables::lemma_critical_bands();
        }
        let freq: u32 = CRITICAL_BAND_FREQS_HZ[k] as u32;
        assert(freq == CRITICAL_BAND_FREQS_HZ@[k as int]);
        let pos: u32 = edge_bin(version, block_len as u32, rate, freq);
        let ghost before = widths@;
        let ghost rest = band_widths(
            version,
            block_len as nat,
            rate as nat,
            k + 1,
            pos as nat,
        );
        if pos > low {
            widths.push(pos - low);
            assert(widths@ + rest =~= before + (seq![(pos - low) as u32] + rest));
            assert(widths@ =~= before + seq![(pos - low) as u32]);
        } else {
            assert(before + (Seq::<u32>::empty() + rest) =~= before + rest);
            assert(before + Seq::<u32>::empty() =~= before);
        }
        if pos as usize >= block_len {
            return widths;
        }
        low = pos;
        k = k + 1;
    }
    assert(widths@ =~= whole);
    widths
}

/// The band widths of a version 1 block.
pub fn build_v1_bands(block_len: usize, sample_rate: u32) -> (widths: Vec<u32>)
    requires
        block_len <= u32::MAX,
        sample_rate > 0,
    ensures
        widths@ == band_widths(Version::V1, block_len as nat, sample_rate as nat, 0, 0),
{
    critical_widths(Version::V1, block_len, sample_rate)
}

/// Listed band widths of short version 2 blocks: for each of three rates, a row
/// for each block length from the shortest on.
#[derive(Debug, Clone)]
pub struct BandOverrides {
    /// Rows at 22.05 kHz.
    pub at_22050: Vec<Vec<u8>>,
    /// Rows at 32 kHz.
    pub at_32000: Vec<Vec<u8>>,
    /// Rows at 44.1 kHz.
    pub at_44100: Vec<Vec<u8>>,
}

impl BandOverrides {
    /// The rows at a rate.
    pub open spec fn rows(&self, rate: nat) -> Option<Seq<Vec<u8>>> {
        if rate == 22050 {
            Some(self.at_22050@)
        } else if rate == 32000 {
            Some(self.at_32000@)
        } else if rate == 44100 {
            Some(self.at_44100@)
        } else {
            None
        }
    }

    /// The row of a block length, given as its binary logarithm.
    pub open spec fn row(&self, rate: nat, frame_len_bits: int) -> Option<Seq<u8>> {
        match self.rows(rate) {
            Some(rows) if 7 <= frame_len_bits < 10 && frame_len_bits - 7 < rows.len() => Some(
                rows[frame_len_bits - 7]@,
            ),
            _ => None,
        }
    }
}

/// The band widths of a version 2 block: the listed ones, where there are any.
pub open spec fn v2_widths(
    overrides: BandOverrides,
    block_len: nat,
    rate: nat,
    frame_len_bits: int,
) -> Seq<u32> {
    match overrides.row(rate, frame_len_bits) {
        Some(row) => Seq::new(row.len(), |i: int| row[i] as u32),
        None => band_widths(Version::V2, block_len, rate, 0, 0),
    }
}

/// The band widths of a version 2 block.
pub fn build_v2_bands(
    overrides: &BandOverrides,
    block_len: usize,
    sample_rate: u32,
    frame_len_bits: u32,
) -> (widths: Vec<u32>)
    requires
        overrides.row(sample_rate as nat, frame_len_bits as int) is None ==> {
            &&& block_len <= u32::MAX
            &&& 0 < sample_rate < 0x4000_0000
        },
    ensures
        widths@ == v2_widths(
            *overrides,
            block_len as nat,
            sample_rate as nat,
            frame_len_bits as int,
        ),
{
    if 7 <= frame_len_bits && frame_len_bits < 10 {
        let table: Option<&Vec<Vec<u8>>> = match sample_rate {
            22050 => Some(&overrides.at_22050),
            32000 => Some(&overrides.at_32000),
            44100 => Some(&overrides.at_44100),
            _ => None,
        };
        if let Some(t) = table {
            let a: usize = (frame_len_bits - 7) as usize;
            if a < t.len() {
                let row = &t[a];
                let mut widths: Vec<u32> = Vec::new();
                let mut i: usize = 0;
                while i < row.len()
                    invariant
                        i <= row@.len(),
                        widths@ =~= Seq::new(i as nat, |k: int| row@[k] as u32),
                    decreases row@.len() - i,
                {
                    widths.push(row[i] as u32);
                    i = i + 1;
                }
                assert(widths@ =~= Seq::new(row@.len(), |k: int| row@[k] as u32));
                return widths;
            }
        }
    }
    critical_widths(Version::V2, block_len, sample_rate)
}

proof fn lemma_total_prefix(w: u32, rest: Seq<u32>)
    ensures
        total(seq![w] + rest) == w + total(rest),
{
    assert((seq![w] + rest).skip(1) =~= rest);
}

proof fn lemma_edges_ascend(version: Version, block_len: nat, rate: nat, k: int)
    requires
        rate > 0,
        bins_fit(version, block_len, rate),
        0 <= k < 24,
    ensures
        edge(version, block_len, rate, k) <= edge(version, block_len, rate, k + 1),
{
    crate::wire_tables::lemma_critical_bands();
    let f = CRITICAL_BAND_FREQS_HZ@[k] as int;
    let g = CRITICAL_BAND_FREQS_HZ@[k + 1] as int;
    let m = block_len as int * 2;
    assert(frequency_bin(version, block_len, rate, f as nat) < 0x1_0000_0000);
    assert(frequency_bin(version, block_len, rate, g as nat) < 0x1_0000_0000);
    assert(m * f <= m * g) by (nonlinear_arith)
        requires
            m >= 0,
            f <= g,
    ;
    match version {
        Version::V1 => {
            let c = (rate / 2) as int;
            vstd::arithmetic::div_mod::lemma_div_is_ordered(m * f + c, m * g + c, rate as int);
        },
        Version::V2 => {
            let c = 2 * rate as int;
            vstd::arithmetic::div_mod::lemma_div_is_ordered(m * f + c, m * g + c, 4 * rate as int);
        },
    }
}

proof fn lemma_widths_total(version: Version, block_len: nat, rate: nat, k: int, low: nat)
    requires
        block_len <= u32::MAX,
        rate > 0,
        bins_fit(version, block_len, rate),
        0 <= k <= 25,
        low <= block_len,
        k < 25 ==> low <= edge(version, block_len, rate, k),
    ensures
        total(band_widths(version, block_len, rate, k, low)) <= block_len - low,
    decreases 25 - k,
{
    if k < 25 {
        let pos = edge(version, block_len, rate, k);
        let all = band_widths(version, block_len, rate, k, low);
        let rest = if pos >= block_len {
            Seq::empty()
        } else {
            band_widths(version, block_len, rate, k + 1, pos)
        };
        if pos < block_len {
            if k + 1 < 25 {
                lemma_edges_ascend(version, block_len, rate, k);
            }
            lemma_widths_total(version, block_len, rate, k + 1, pos);
        }
        if pos > low {
            let w = (pos - low) as u32;
            lemma_total_prefix(w, rest);
            assert(all =~= seq![w] + rest);
        } else {
            assert(all =~= rest);
        }
    }
}

proof fn lemma_widths_positive(
    version: Version,
    block_len: nat,
    rate: nat,
    k: int,
    low: nat,
    i: int,
)
    requires
        block_len <= u32::MAX,
        0 <= i < band_widths(version, block_len, rate, k, low).len(),
    ensures
        band_widths(version, block_len, rate, k, low)[i] > 0,
    decreases 25 - k,
{
    let pos = edge(version, block_len, rate, k);
    let all = band_widths(version, block_len, rate, k, low);
    let rest = if pos >= block_len {
        Seq::empty()
    } else {
        band_widths(version, block_len, rate, k + 1, pos)
    };
    if pos > low {
        assert(all =~= seq![(pos - low) as u32] + rest);
        if i > 0 {
            lemma_widths_positive(version, block_len, rate, k + 1, pos, i - 1);
        }
    } else {
        assert(all =~= rest);
        lemma_widths_positive(version, block_len, rate, k + 1, pos, i);
    }
}

/// Bands are never empty.
pub proof fn bands_are_not_empty(version: Version, block_len: nat, rate: nat, i: int)
    requires
        block_len <= u32::MAX,
        0 <= i < band_widths(version, block_len, rate, 0, 0).len(),
    ensures
        band_widths(version, block_len, rate, 0, 0)[i] > 0,
{
    lemma_widths_positive(version, block_len, rate, 0, 0, i);
}

/// Bands together stay inside the block, where 32 bits hold the bins of their edges.
pub proof fn bands_stay_in_block(version: Version, block_len: nat, rate: nat)
    requires
        block_len <= u32::MAX,
        rate > 0,
        bins_fit(version, block_len, rate),
    ensures
        total(band_widths(version, block_len, rate, 0, 0)) <= block_len,
{
    lemma_widths_total(version, block_len, rate, 0, 0);
}

/// In blocks of at most 65535 coefficients 32 bits hold every bin, at any rate.
pub proof fn short_blocks_have_bins_that_fit(version: Version, block_len: nat, rate: nat)
    requires
        block_len <= 0xFFFF,
        rate > 0,
    ensures
        bins_fit(version, block_len, rate),
{
    crate::wire_tables::lemma_critical_bands();
    assert forall|k: int| 0 <= k < 25 implies frequency_bin(
        version,
        block_len,
        rate,
        #[trigger] CRITICAL_BAND_FREQS_HZ@[k] as nat,
    ) < 0x1_0000_0000 by {
        let f = CRITICAL_BAND_FREQS_HZ@[k] as int;
        let n = block_len as int * 2 * f;
        let r = rate as int;
        assert(0 <= n <= 0xFFFF * 2 * 24500) by (nonlinear_arith)
            requires
                n == block_len * 2 * f,
                0 <= block_len <= 0xFFFF,
                0 <= f <= 24500,
        ;
        assert((n + r / 2) / r <= n + 1 && 4 * ((n + 2 * r) / (4 * r)) <= n + 2) by (nonlinear_arith)
            requires
                n >= 0,
                r >= 1,
        ;
    }
}

// ------------------------------------------------------------ laws of rates

/// Any rate from 8 kHz on is brought to the greatest of 44100, 32000, 22050, 16000,
/// 11025 and 8000 Hz that does not exceed it, and any lower rate to 8000 Hz. Each of
/// the six is kept as it is.
pub proof fn rates_are_brought_to_the_next_below(rate: nat, other: nat)
    requires
        seq![44_100nat, 32_000, 22_050, 16_000, 11_025, 8_000].contains(other),
    ensures
        bucket_rate(other) == other,
        seq![44_100nat, 32_000, 22_050, 16_000, 11_025, 8_000].contains(bucket_rate(rate)),
        rate >= 8_000 ==> bucket_rate(rate) <= rate,
        rate < 8_000 ==> bucket_rate(rate) == 8_000,
        other <= rate ==> other <= bucket_rate(rate),
{
    let known = seq![44_100nat, 32_000, 22_050, 16_000, 11_025, 8_000];
    assert(known[0] == 44_100 && known[1] == 32_000 && known[2] == 22_050 && known[3] == 16_000
        && known[4] == 11_025 && known[5] == 8_000);
}

/// Frames are the longer the higher the rate: nine bits count their samples just at
/// the rates of up to 16 kHz, eleven just at those above 32 kHz in version 1 and above
/// 22.05 kHz in version 2, and ten at those between.
pub proof fn frames_grow_with_the_rate(version: Version, a: nat, b: nat)
    ensures
        a <= b ==> frame_bits_at(a, version) <= frame_bits_at(b, version),
        9 <= frame_bits_at(a, version) <= 11,
        frame_bits_at(a, version) == 9 <==> a <= 16_000,
        frame_bits_at(a, Version::V1) == 11 <==> a > 32_000,
        frame_bits_at(a, Version::V2) == 11 <==> a > 22_050,
{
}

/// The stream header and the packet parser agree on the length of a frame.
pub proof fn frame_lengths_agree(rate: nat)
    ensures
        frame_bits_at(rate, Version::V1) == crate::header::frame_exponent(
            crate::header::Version::V1,
            rate,
        ),
        frame_bits_at(rate, Version::V2) == crate::header::frame_exponent(
            crate::header::Version::V2,
            rate,
        ),
{
}

/// The number between a half and two that a pattern stands for, times two to the 53rd
/// power.
pub open spec fn scaled_number(bits: u64) -> int {
    let significand = 0x10_0000_0000_0000 + bits as int % 0x10_0000_0000_0000;
    if bits as int / 0x10_0000_0000_0000 == 1022 {
        significand
    } else {
        2 * significand
    }
}

/// Whether a pattern is that of `thousandths`, rounded to the nearest number of 24 bits
/// of precision.
pub open spec fn is_rounded(bits: u64, thousandths: int) -> bool {
    let step = if thousandths < 1000 {
        0x2000_0000
    } else {
        0x4000_0000int
    };
    let exact = thousandths * 0x20_0000_0000_0000;
    &&& bits as int / 0x10_0000_0000_0000 == if thousandths < 1000 {
        1022int
    } else {
        1023
    }
    &&& scaled_number(bits) % step == 0
    &&& 2 * (1000 * scaled_number(bits) - exact) <= 1000 * step
    &&& 2 * (exact - 1000 * scaled_number(bits)) <= 1000 * step
}

/// Each threshold is the decimal number of its name, rounded to the nearest number of 24
/// bits of precision.
pub proof fn thresholds_are_rounded_decimals()
    ensures
        is_rounded(RATE_0_5, 500),
        is_rounded(RATE_0_6, 600),
        is_rounded(RATE_0_61, 610),
        is_rounded(RATE_0_625, 625),
        is_rounded(RATE_0_72, 720),
        is_rounded(RATE_0_75, 750),
        is_rounded(RATE_0_8, 800),
        is_rounded(RATE_1_16, 1160),
{
}

/// Below 32 kHz a stream uses the third pair of books, whatever its bits per sample;
/// from 32 kHz on it uses the first just where they are below 0.72, and the third just
/// where they are not below 1.16. The more bits, the later the pair.
pub proof fn books_by_rate_and_bits(rate: nat, a: Binary64, b: Binary64)
    ensures
        rate < 32_000 ==> book_choice(rate, a) == 2,
        rate >= 32_000 ==> (book_choice(rate, a) == 0 <==> a.below(
            Binary64 { bits: 0x3FE7_0A3D_8000_0000 },
        )),
        rate >= 32_000 ==> (book_choice(rate, a) == 2 <==> !a.below(
            Binary64 { bits: 0x3FF2_8F5C_2000_0000 },
        )),
        book_choice(rate, a) <= 2,
        a.at_most(b) ==> book_choice(rate, a) <= book_choice(rate, b),
{
}

/// The whole band is coded, without noise, just at 44.1 kHz from 0.61 weighted bits per
/// sample on, at 22.05 kHz from 1.16 weighted bits on, and at 8 kHz above 0.75 bits.
pub proof fn full_bands_by_rate_and_bits(rate: nat, bps: Binary64, bps1: Binary64)
    ensures
        high_band(rate, bps, bps1) == (100nat, false) <==> {
            ||| rate == 44_100 && Binary64 { bits: 0x3FE3_851E_C000_0000 }.at_most(bps1)
            ||| rate == 22_050 && Binary64 { bits: 0x3FF2_8F5C_2000_0000 }.at_most(bps1)
            ||| rate == 8_000 && Binary64 { bits: 0x3FE8_0000_0000_0000 }.below(bps)
        },
        high_band(rate, bps, bps1).0 == 100 <==> !high_band(rate, bps, bps1).1,
{
}

/// Where noise fills the high band, the coded part ends at a share of half the sample
/// rate that the rate and the bits per sample fix: 40 hundredths at 44.1 kHz; 70 or 60
/// at 22.05 kHz, from 0.72 weighted bits on or below; 50 or 30 at 16 kHz, above 0.5 bits
/// or not; 70 at 11.025 kHz; 65 or 50 at 8 kHz, above 0.625 bits or not; and at any
/// other rate 75, 60 or 50, from 0.8 bits on, from 0.6 on, or below.
pub proof fn noise_bands_by_rate_and_bits(rate: nat, bps: Binary64, bps1: Binary64)
    requires
        high_band(rate, bps, bps1).1,
    ensures
        ({
            let end = high_band(rate, bps, bps1).0;
            &&& rate == 44_100 ==> end == 40
            &&& rate == 22_050 ==> (end == 60 || end == 70) && (end == 70 <==> Binary64 {
                bits: 0x3FE7_0A3D_8000_0000,
            }.at_most(bps1))
            &&& rate == 16_000 ==> (end == 30 || end == 50) && (end == 50 <==> Binary64 {
                bits: 0x3FE0_0000_0000_0000,
            }.below(bps))
            &&& rate == 11_025 ==> end == 70
            &&& rate == 8_000 ==> (end == 50 || end == 65) && (end == 65 <==> Binary64 {
                bits: 0x3FE4_0000_0000_0000,
            }.below(bps))
            &&& !seq![44_100nat, 22_050, 16_000, 11_025, 8_000].contains(rate) ==> {
                &&& end == 50 || end == 60 || end == 75
                &&& end == 75 <==> Binary64 { bits: 0x3FE9_9999_A000_0000 }.at_most(bps)
                &&& end >= 60 <==> Binary64 { bits: 0x3FE3_3333_4000_0000 }.at_most(bps)
            }
        }),
{
    let known = seq![44_100nat, 22_050, 16_000, 11_025, 8_000];
    assert(known[0] == 44_100 && known[1] == 22_050 && known[2] == 16_000 && known[3] == 11_025
        && known[4] == 8_000);
}

/// The more bits per sample, the more of the band is coded.
pub proof fn coded_band_grows_with_bits(
    rate: nat,
    bps: Binary64,
    bps1: Binary64,
    more: Binary64,
    more1: Binary64,
)
    requires
        bps.at_most(more),
        bps1.at_most(more1),
    ensures
        high_band(rate, bps, bps1).0 <= high_band(rate, more, more1).0,
        high_band(rate, more, more1).1 ==> high_band(rate, bps, bps1).1,
{
}

// ------------------------------------------------------------ laws of bands

/// The bin of a frequency is the nearest to `2 * block_len * freq / rate`: in version 1
/// within half a bin of it, in version 2 a multiple of four within two bins of it. Where
/// two are equally near, it is the greater.
pub proof fn bins_are_nearest(block_len: nat, rate: nat, freq: nat)
    requires
        rate > 0,
    ensures
        ({
            let exact = 2 * block_len * freq;
            let bin = frequency_bin(Version::V1, block_len, rate, freq);
            &&& 2 * (bin * rate - exact) <= rate
            &&& 2 * (exact - bin * rate) < rate
        }),
        ({
            let exact = 2 * block_len * freq;
            let bin = frequency_bin(Version::V2, block_len, rate, freq);
            &&& bin % 4 == 0
            &&& bin * rate - exact <= 2 * rate
            &&& exact - bin * rate < 2 * rate
        }),
{
    let n = 2 * block_len * freq;
    assert(block_len * 2 * freq == n) by (nonlinear_arith)
        requires
            n == 2 * block_len * freq,
    ;
    let r = rate as int;
    let a = n + r / 2;
    let q = a / r;
    vstd::arithmetic::div_mod::lemma_fundamental_div_mod(a, r);
    assert(q * r == r * q) by (nonlinear_arith);
    let b = n + 2 * r;
    let p = b / (4 * r);
    vstd::arithmetic::div_mod::lemma_fundamental_div_mod(b, 4 * r);
    assert((4 * p) * r == (4 * r) * p) by (nonlinear_arith);
}

/// An edge is the bin of its frequency, where that lies in the block, and else the
/// block's end.
pub proof fn edges_are_bins_in_the_block(version: Version, block_len: nat, rate: nat, k: int)
    requires
        bins_fit(version, block_len, rate),
        0 <= k < 25,
    ensures
        ({
            let bin = frequency_bin(version, block_len, rate, CRITICAL_BAND_FREQS_HZ@[k] as nat);
            let pos = edge(version, block_len, rate, k);
            &&& pos <= block_len
            &&& pos <= bin
            &&& pos == bin || pos == block_len
        }),
{
    assert(frequency_bin(version, block_len, rate, CRITICAL_BAND_FREQS_HZ@[k] as nat)
        < 0x1_0000_0000);
}

/// An edge never lies past the block, and where it lies before the block's end it is the
/// bin of its frequency, as far as 32 bits hold it.
pub proof fn edges_wrap_at_32_bits(version: Version, block_len: nat, rate: nat, freq: nat)
    ensures
        edge_at(version, block_len, rate, freq) <= block_len,
        edge_at(version, block_len, rate, freq) < block_len ==> edge_at(
            version,
            block_len,
            rate,
            freq,
        ) == frequency_bin(version, block_len, rate, freq) % 0x1_0000_0000,
        edge_at(version, block_len, rate, freq) == block_len ==> frequency_bin(
            version,
            block_len,
            rate,
            freq,
        ) % 0x1_0000_0000 >= block_len,
{
}

proof fn lemma_edges_in_order(version: Version, block_len: nat, rate: nat, j: int, k: int)
    requires
        rate > 0,
        bins_fit(version, block_len, rate),
        0 <= j <= k < 25,
    ensures
        edge(version, block_len, rate, j) <= edge(version, block_len, rate, k),
    decreases k - j,
{
    if j < k {
        lemma_edges_in_order(version, block_len, rate, j, k - 1);
        lemma_edges_ascend(version, block_len, rate, k - 1);
    }
}

/// Each edge from band `k` on is where some number of the bands from `low` on end.
proof fn lemma_edge_is_reached(
    version: Version,
    block_len: nat,
    rate: nat,
    k: int,
    low: nat,
    m: int,
) -> (n: int)
    requires
        block_len <= u32::MAX,
        rate > 0,
        bins_fit(version, block_len, rate),
        0 <= k <= m < 25,
        low <= edge(version, block_len, rate, k),
    ensures
        0 <= n <= band_widths(version, block_len, rate, k, low).len(),
        low + total(band_widths(version, block_len, rate, k, low).take(n)) == edge(
            version,
            block_len,
            rate,
            m,
        ),
    decreases m - k,
{
    let pos = edge(version, block_len, rate, k);
    let all = band_widths(version, block_len, rate, k, low);
    let rest = if pos >= block_len {
        Seq::empty()
    } else {
        band_widths(version, block_len, rate, k + 1, pos)
    };
    lemma_edges_in_order(version, block_len, rate, k, m);
    if pos > low {
        assert(all =~= seq![(pos - low) as u32] + rest);
    } else {
        assert(all =~= rest);
    }
    if m == k || pos >= block_len {
        if pos > low {
            lemma_total_prefix((pos - low) as u32, Seq::empty());
            assert(all.take(1) =~= seq![(pos - low) as u32] + Seq::<u32>::empty());
            1
        } else {
            assert(all.take(0) =~= Seq::<u32>::empty());
            0
        }
    } else {
        lemma_edges_ascend(version, block_len, rate, k);
        let n = lemma_edge_is_reached(version, block_len, rate, k + 1, pos, m);
        if pos > low {
            lemma_total_prefix((pos - low) as u32, rest.take(n));
            assert(all.take(n + 1) =~= seq![(pos - low) as u32] + rest.take(n));
            n + 1
        } else {
            n
        }
    }
}

/// Some number of bands, at least one, ends at an edge.
proof fn lemma_sum_is_edge(
    version: Version,
    block_len: nat,
    rate: nat,
    k: int,
    low: nat,
    n: int,
) -> (m: int)
    requires
        block_len <= u32::MAX,
        0 <= k,
        0 < n <= band_widths(version, block_len, rate, k, low).len(),
        rate > 0,
        bins_fit(version, block_len, rate),
        k < 25 ==> low <= edge(version, block_len, rate, k),
    ensures
        k <= m < 25,
        low + total(band_widths(version, block_len, rate, k, low).take(n)) == edge(
            version,
            block_len,
            rate,
            m,
        ),
    decreases 25 - k,
{
    let pos = edge(version, block_len, rate, k);
    let all = band_widths(version, block_len, rate, k, low);
    let rest = if pos >= block_len {
        Seq::empty()
    } else {
        band_widths(version, block_len, rate, k + 1, pos)
    };
    if k + 1 < 25 {
        lemma_edges_ascend(version, block_len, rate, k);
    }
    if pos > low {
        let w = (pos - low) as u32;
        assert(all =~= seq![w] + rest);
        lemma_total_prefix(w, rest.take(n - 1));
        assert(all.take(n) =~= seq![w] + rest.take(n - 1));
        if n == 1 {
            assert(rest.take(0) =~= Seq::<u32>::empty());
            k
        } else {
            lemma_sum_is_edge(version, block_len, rate, k + 1, pos, n - 1)
        }
    } else {
        assert(all =~= rest);
        lemma_sum_is_edge(version, block_len, rate, k + 1, pos, n)
    }
}

/// Bands end where the critical bands do: every edge above zero is the sum of the widths
/// of some number of bands.
pub proof fn every_edge_ends_a_band(version: Version, block_len: nat, rate: nat, k: int)
    requires
        block_len <= u32::MAX,
        rate > 0,
        bins_fit(version, block_len, rate),
        0 <= k < 25,
        edge(version, block_len, rate, k) > 0,
    ensures
        exists|n: int|
            0 < n <= band_widths(version, block_len, rate, 0, 0).len() && total(
                #[trigger] band_widths(version, block_len, rate, 0, 0).take(n),
            ) == edge(version, block_len, rate, k),
{
    let n = lemma_edge_is_reached(version, block_len, rate, 0, 0, k);
    assert(band_widths(version, block_len, rate, 0, 0).take(0) =~= Seq::<u32>::empty());
}

/// Bands end nowhere else: the widths of any number of bands add up to an edge.
pub proof fn every_band_ends_at_an_edge(version: Version, block_len: nat, rate: nat, n: int)
    requires
        block_len <= u32::MAX,
        rate > 0,
        bins_fit(version, block_len, rate),
        0 < n <= band_widths(version, block_len, rate, 0, 0).len(),
    ensures
        exists|k: int|
            0 <= k < 25 && total(band_widths(version, block_len, rate, 0, 0).take(n))
                == #[trigger] edge(version, block_len, rate, k),
{
    let k = lemma_sum_is_edge(version, block_len, rate, 0, 0, n);
    assert(total(band_widths(version, block_len, rate, 0, 0).take(n)) == edge(
        version,
        block_len,
        rate,
        k,
    ));
}

/// The bands together reach as far as the last edge: where that is the block's end, they
/// cover the block.
pub proof fn bands_cover_the_block(version: Version, block_len: nat, rate: nat)
    requires
        block_len <= u32::MAX,
        rate > 0,
        bins_fit(version, block_len, rate),
    ensures
        total(band_widths(version, block_len, rate, 0, 0)) == edge(version, block_len, rate, 24),
        edge(version, block_len, rate, 24) == block_len ==> total(
            band_widths(version, block_len, rate, 0, 0),
        ) == block_len,
{
    let all = band_widths(version, block_len, rate, 0, 0);
    let last = edge(version, block_len, rate, 24);
    let n = lemma_edge_is_reached(version, block_len, rate, 0, 0, 24);
    if all.len() > 0 {
        let m = lemma_sum_is_edge(version, block_len, rate, 0, 0, all.len() as int);
        lemma_edges_in_order(version, block_len, rate, m, 24);
        lemma_take_total(all, n);
    }
    assert(all.take(all.len() as int) =~= all);
    if all.len() == 0 {
        assert(all.take(n) =~= all);
    }
}

/// Fewer widths add up to no more.
proof fn lemma_take_total(widths: Seq<u32>, n: int)
    requires
        0 <= n <= widths.len(),
    ensures
        total(widths.take(n)) <= total(widths),
    decreases widths.len(),
{
    if n == 0 {
        assert(widths.take(0) =~= Seq::<u32>::empty());
    } else {
        assert(widths.take(n).skip(1) =~= widths.skip(1).take(n - 1));
        lemma_take_total(widths.skip(1), n - 1);
    }
}

/// The listed widths are used just for blocks of 128, 256 and 512 coefficients at 22050,
/// 32000 and 44100 Hz, each length with its row, where there is one. Elsewhere the
/// critical bands give the widths.
pub proof fn listed_widths_by_rate_and_length(
    overrides: BandOverrides,
    block_len: nat,
    rate: nat,
    frame_len_bits: int,
    i: int,
)
    ensures
        ({
            let widths = v2_widths(overrides, block_len, rate, frame_len_bits);
            let critical = band_widths(Version::V2, block_len, rate, 0, 0);
            let row = frame_len_bits - 7;
            &&& frame_len_bits < 7 || frame_len_bits > 9 ==> widths == critical
            &&& rate != 22_050 && rate != 32_000 && rate != 44_100 ==> widths == critical
            &&& 0 <= row < 3 && rate == 22_050 && row < overrides.at_22050@.len() ==> {
                &&& widths.len() == overrides.at_22050@[row]@.len()
                &&& 0 <= i < widths.len() ==> widths[i] == overrides.at_22050@[row]@[i]
            }
            &&& 0 <= row < 3 && rate == 32_000 && row < overrides.at_32000@.len() ==> {
                &&& widths.len() == overrides.at_32000@[row]@.len()
                &&& 0 <= i < widths.len() ==> widths[i] == overrides.at_32000@[row]@[i]
            }
            &&& 0 <= row < 3 && rate == 44_100 && row < overrides.at_44100@.len() ==> {
                &&& widths.len() == overrides.at_44100@[row]@.len()
                &&& 0 <= i < widths.len() ==> widths[i] == overrides.at_44100@[row]@[i]
            }
            &&& rate == 22_050 && row >= overrides.at_22050@.len() ==> widths == critical
            &&& rate == 32_000 && row >= overrides.at_32000@.len() ==> widths == critical
            &&& rate == 44_100 && row >= overrides.at_44100@.len() ==> widths == critical
        }),
{
}

// ------------------------------------------------------------ laws of books

/// How many pairs of a run and a level the first `n` levels have.
pub open spec fn pairs_below(levels: Seq<u16>, n: int) -> nat
    decreases n,
{
    if n <= 0 {
        0
    } else {
        pairs_below(levels, n - 1) + levels[n - 1] as nat
    }
}

proof fn lemma_pair_place(levels: Seq<u16>, from: int, level: int, k: int)
    requires
        0 <= from <= level < levels.len(),
        k >= 0,
    ensures
        pair_at(levels, from, pairs_below(levels, level) - pairs_below(levels, from) + k)
            == pair_at(levels, level, k),
        pairs_below(levels, from) <= pairs_below(levels, level),
    decreases level - from,
{
    if from < level {
        lemma_pair_place(levels, from + 1, level, k);
    }
}

proof fn lemma_no_pair(levels: Seq<u16>, from: int, k: int)
    requires
        0 <= from <= levels.len(),
        k >= pairs_below(levels, levels.len() as int) - pairs_below(levels, from),
    ensures
        pair_at(levels, from, k) is None,
    decreases levels.len() - from,
{
    if from < levels.len() {
        lemma_no_pair(levels, from + 1, k - levels[from]);
        lemma_pairs_grow(levels, from + 1, levels.len() as int);
    }
}

proof fn lemma_pairs_grow(levels: Seq<u16>, a: int, b: int)
    requires
        0 <= a <= b <= levels.len(),
    ensures
        pairs_below(levels, a) <= pairs_below(levels, b),
    decreases b - a,
{
    if a < b {
        lemma_pairs_grow(levels, a, b - 1);
    }
}

/// A book lists its pairs from symbol two on, level by level from one on, and in each
/// level by run from zero on: the symbol two plus the pairs of the levels below plus the
/// run stands for that run and that level.
pub proof fn pairs_are_listed_in_order(levels: Seq<u16>, run: int, level: int)
    requires
        1 <= level <= levels.len(),
        level <= 0xFFFF,
        0 <= run < levels[level - 1],
    ensures
        symbol_pair(levels, 2 + pairs_below(levels, level - 1) + run) == (
            run as u16,
            level as u16,
        ),
{
    lemma_pair_place(levels, 0, level - 1, run);
}

/// Symbols below two, and symbols past the pairs that the levels list, stand for no pair.
pub proof fn other_symbols_have_no_pair(levels: Seq<u16>, symbol: int)
    requires
        symbol < 2 || symbol >= 2 + pairs_below(levels, levels.len() as int),
    ensures
        symbol_pair(levels, symbol) == (0u16, 0u16),
{
    if symbol >= 2 {
        lemma_no_pair(levels, 0, symbol - 2);
    }
}

/// Whether entry `i` is the first that bits with its codeword match: it is a codeword of up
/// to 32 bits, no shorter entry spells its first bits, and no earlier one of its length is
/// the same.
pub open spec fn stands_alone(codes: Seq<u32>, lens: Seq<u8>, i: int) -> bool {
    &&& 0 <= i < lens.len()
    &&& 0 < lens[i] <= 32
    &&& codes[i] < pow2(lens[i] as nat)
    &&& forall|j: int|
        0 <= j < lens.len() && 0 < #[trigger] lens[j] && (lens[j] < lens[i] || (lens[j] == lens[i]
            && j < i)) ==> codes[j] != codes[i] as nat / pow2((lens[i] - lens[j]) as nat)
}

/// A codeword, as bits.
pub open spec fn codeword(codes: Seq<u32>, lens: Seq<u8>, i: int) -> Seq<bool> {
    bits_of(codes[i] as nat, lens[i] as nat)
}

/// What the first `n` bits of a text that starts with a codeword spell.
proof fn lemma_codeword_start(codes: Seq<u32>, lens: Seq<u8>, i: int, n: nat, bits: Seq<bool>)
    requires
        stands_alone(codes, lens, i),
        n <= lens[i],
        n <= bits.len(),
        bits.take(n as int) == codeword(codes, lens, i).take(n as int),
    ensures
        code_so_far(bits, n) == codes[i] as nat / pow2((lens[i] - n) as nat),
{
    let len = lens[i] as nat;
    let code = codes[i] as nat;
    crate::bits::lemma_bits_of_take(code, len, n);
    let v = code / pow2((len - n) as nat);
    crate::bits::lemma_value_of_low_bits(v, n);
    vstd::arithmetic::power2::lemma_pow2_pos((len - n) as nat);
    vstd::arithmetic::power2::lemma_pow2_pos(n);
    vstd::arithmetic::power2::lemma_pow2_adds(n, (len - n) as nat);
    let p = pow2((len - n) as nat) as int;
    let q = pow2(n) as int;
    assert(v < q) by (nonlinear_arith)
        requires
            v == code as int / p,
            code < q * p,
            p > 0,
            q > 0,
    ;
    vstd::arithmetic::div_mod::lemma_small_mod(v, q as nat);
    assert(v <= code) by (nonlinear_arith)
        requires
            v == code as int / p,
            p >= 1,
            code >= 0,
    ;
    vstd::arithmetic::div_mod::lemma_small_mod(v, 0x1_0000_0000);
}

proof fn lemma_longest(lens: Seq<u8>, i: int)
    requires
        0 <= i < lens.len(),
    ensures
        lens[i] <= max_length(lens),
    decreases lens.len(),
{
    if i < lens.len() - 1 {
        lemma_longest(lens.drop_last(), i);
    }
}

proof fn lemma_scan_codeword(
    codes: Seq<u32>,
    lens: Seq<u8>,
    i: int,
    n: nat,
    bits: Seq<bool>,
)
    requires
        codes.len() == lens.len() <= usize::MAX,
        stands_alone(codes, lens, i),
        n < lens[i],
        bits.len() <= lens[i] ==> bits == codeword(codes, lens, i).take(bits.len() as int),
        bits.len() > lens[i] ==> bits.take(lens[i] as int) == codeword(codes, lens, i),
        n <= bits.len(),
    ensures
        bits.len() >= lens[i] ==> scan_code(codes, lens, n, bits) == (
            Ok::<usize, ScanError>(i as usize),
            bits.skip(lens[i] as int),
        ),
        bits.len() < lens[i] ==> scan_code(codes, lens, n, bits) == (
            Err::<usize, ScanError>(ScanError::OutOfBits),
            bits.skip(bits.len() as int),
        ),
    decreases lens[i] - n,
{
    let len = lens[i] as nat;
    let word = codeword(codes, lens, i);
    crate::bits::lemma_bits_of_len(codes[i] as nat, len);
    lemma_longest(lens, i);
    lemma2_to64();
    if n < bits.len() {
        let m = n + 1;
        assert(bits.take(m as int) =~= word.take(m as int)) by {
            if bits.len() > len {
                assert(bits.take(m as int) =~= bits.take(len as int).take(m as int));
            } else {
                assert(bits.take(m as int) =~= word.take(bits.len() as int).take(m as int));
            }
        }
        lemma_codeword_start(codes, lens, i, m, bits);
        let c = code_so_far(bits, m);
        if m == len {
            assert(pow2(0) == 1);
            assert(codes[i] as nat / 1 == codes[i]);
            assert(is_first_entry(codes, lens, m, c, i)) by {
                assert forall|j: int| 0 <= j < i implies !((#[trigger] lens[j]) == m && codes[j]
                    == c) by {}
            }
            let k = choose|k: int| #[trigger] is_first_entry(codes, lens, m, c, k);
            assert(is_first_entry(codes, lens, m, c, k));
            assert(lens[k] == m);
            if k > i {
                assert(!(lens[i] == m && codes[i] == c));
            }
            assert(k == i);
        } else {
            assert forall|k: int| !#[trigger] is_first_entry(codes, lens, m, c, k) by {
                if is_first_entry(codes, lens, m, c, k) {
                    assert(lens[k] == m);
                    assert(k != i);
                }
            }
            lemma_scan_codeword(codes, lens, i, m, bits);
        }
    }
}

/// A codeword that stands alone is found again, whatever follows it, and nothing past it
/// is read.
pub proof fn codewords_are_found(codes: Seq<u32>, lens: Seq<u8>, i: int, rest: Seq<bool>)
    requires
        codes.len() == lens.len() <= usize::MAX,
        stands_alone(codes, lens, i),
    ensures
        scan_code(codes, lens, 0, codeword(codes, lens, i) + rest) == (
            Ok::<usize, ScanError>(i as usize),
            rest,
        ),
{
    let word = codeword(codes, lens, i);
    crate::bits::lemma_bits_of_len(codes[i] as nat, lens[i] as nat);
    let bits = word + rest;
    assert(bits.take(lens[i] as int) =~= word);
    assert(bits.skip(lens[i] as int) =~= rest);
    assert(rest.len() == 0 ==> bits =~= word.take(bits.len() as int));
    lemma_scan_codeword(codes, lens, i, 0, bits);
}

/// A codeword that stands alone and is cut short runs out of bits.
pub proof fn cut_codewords_run_out(codes: Seq<u32>, lens: Seq<u8>, i: int, n: int)
    requires
        codes.len() == lens.len() <= usize::MAX,
        stands_alone(codes, lens, i),
        0 <= n < lens[i],
    ensures
        scan_code(codes, lens, 0, codeword(codes, lens, i).take(n)) == (
            Err::<usize, ScanError>(ScanError::OutOfBits),
            Seq::<bool>::empty(),
        ),
{
    let word = codeword(codes, lens, i);
    crate::bits::lemma_bits_of_len(codes[i] as nat, lens[i] as nat);
    let bits = word.take(n);
    assert(bits.skip(n) =~= Seq::<bool>::empty());
    assert(bits =~= word.take(bits.len() as int));
    lemma_scan_codeword(codes, lens, i, 0, bits);
}

proof fn lemma_scan_unmatched(codes: Seq<u32>, lens: Seq<u8>, n: nat, bits: Seq<bool>)
    requires
        n <= max_length(lens) <= bits.len(),
        forall|m: nat, k: int|
            n < m <= max_length(lens) ==> !#[trigger] is_first_entry(
                codes,
                lens,
                m,
                code_so_far(bits, m),
                k,
            ),
    ensures
        scan_code(codes, lens, n, bits) == (
            Err::<usize, ScanError>(ScanError::Unmatched),
            bits.skip(max_length(lens) as int),
        ),
    decreases max_length(lens) - n,
{
    if n < max_length(lens) {
        assert forall|k: int| !#[trigger] is_first_entry(
            codes,
            lens,
            n + 1,
            code_so_far(bits, n + 1),
            k,
        ) by {}
        lemma_scan_unmatched(codes, lens, n + 1, bits);
    }
}

/// Bits that start with no codeword, as many as the longest has or more, match nothing,
/// and as many as the longest has are read.
pub proof fn other_bits_match_nothing(codes: Seq<u32>, lens: Seq<u8>, bits: Seq<bool>)
    requires
        codes.len() == lens.len(),
        max_length(lens) <= 32,
        max_length(lens) <= bits.len(),
        forall|i: int|
            0 <= i < lens.len() && 0 < #[trigger] lens[i] ==> value_of(bits.take(lens[i] as int))
                != codes[i],
    ensures
        scan_code(codes, lens, 0, bits) == (
            Err::<usize, ScanError>(ScanError::Unmatched),
            bits.skip(max_length(lens) as int),
        ),
{
    assert forall|m: nat, k: int| 0 < m <= max_length(lens) implies !#[trigger] is_first_entry(
        codes,
        lens,
        m,
        code_so_far(bits, m),
        k,
    ) by {
        if is_first_entry(codes, lens, m, code_so_far(bits, m), k) {
            let v = value_of(bits.take(m as int));
            crate::bits::lemma_value_bound(bits.take(m as int));
            lemma2_to64();
            if m < 32 {
                vstd::arithmetic::power2::lemma_pow2_strictly_increases(m, 32);
            }
            vstd::arithmetic::div_mod::lemma_small_mod(v, 0x1_0000_0000);
            assert(lens[k] == m);
        }
    }
    lemma_scan_unmatched(codes, lens, 0, bits);
}

proof fn lemma_scan_short(codes: Seq<u32>, lens: Seq<u8>, n: nat, bits: Seq<bool>)
    requires
        n <= bits.len() < max_length(lens),
        forall|m: nat, k: int|
            n < m <= bits.len() ==> !#[trigger] is_first_entry(
                codes,
                lens,
                m,
                code_so_far(bits, m),
                k,
            ),
    ensures
        scan_code(codes, lens, n, bits) == (
            Err::<usize, ScanError>(ScanError::OutOfBits),
            bits.skip(bits.len() as int),
        ),
    decreases bits.len() - n,
{
    if n < bits.len() {
        assert forall|k: int| !#[trigger] is_first_entry(
            codes,
            lens,
            n + 1,
            code_so_far(bits, n + 1),
            k,
        ) by {}
        lemma_scan_short(codes, lens, n + 1, bits);
    }
}

/// Bits that start with no codeword and are fewer than the longest has run out, all of them
/// read.
pub proof fn short_bits_run_out(codes: Seq<u32>, lens: Seq<u8>, bits: Seq<bool>)
    requires
        codes.len() == lens.len(),
        bits.len() < max_length(lens) <= 32,
        forall|i: int|
            0 <= i < lens.len() && 0 < #[trigger] lens[i] <= bits.len() ==> value_of(
                bits.take(lens[i] as int),
            ) != codes[i],
    ensures
        scan_code(codes, lens, 0, bits) == (
            Err::<usize, ScanError>(ScanError::OutOfBits),
            Seq::<bool>::empty(),
        ),
{
    assert forall|m: nat, k: int| 0 < m <= bits.len() implies !#[trigger] is_first_entry(
        codes,
        lens,
        m,
        code_so_far(bits, m),
        k,
    ) by {
        if is_first_entry(codes, lens, m, code_so_far(bits, m), k) {
            let v = value_of(bits.take(m as int));
            crate::bits::lemma_value_bound(bits.take(m as int));
            lemma2_to64();
            if m < 32 {
                vstd::arithmetic::power2::lemma_pow2_strictly_increases(m, 32);
            }
            vstd::arithmetic::div_mod::lemma_small_mod(v, 0x1_0000_0000);
            assert(lens[k] == m);
        }
    }
    lemma_scan_short(codes, lens, 0, bits);
    assert(bits.skip(bits.len() as int) =~= Seq::<bool>::empty());
}

/// Entry `i` of the scale table stands for a change of `i - 60`: between them, the entries
/// stand for every change from -60 to 60, each once.
pub proof fn scale_entries_are_changes(i: usize)
    requires
        i < 121,
    ensures
        scale_change(Ok(i)) == Ok::<int, WmaError>(i - 60),
        scale_change(Err(ScanError::OutOfBits)) == Err::<int, WmaError>(WmaError::OutOfBits),
        scale_change(Err(ScanError::Unmatched)) == Err::<int, WmaError>(WmaError::NoScaleCode),
{
}

} // verus!

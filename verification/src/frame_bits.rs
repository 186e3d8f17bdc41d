//! The wire form of frames and blocks.
//!
//! A frame is a header and, for each channel, its blocks. A block is a seven-bit
//! header, gain symbols, a coupling flag in streams of two channels, the
//! spectral envelope where it is coded, and the coefficients. Coefficients are
//! run-level symbols or escapes to literals, each followed by a sign bit; an
//! end-of-block symbol stands for trailing zeros and nothing else.
//!
//! What writing does is an [`Emission`]: the bits appended and the error, if
//! any, that stopped it. What reading does is a pair: the outcome and the bits
//! left.
use crate::binary64::Binary64;
use crate::bitio::{BitReader, BitWriter, BitstreamEnd};
use crate::bits::{bits_of, value_of};
use crate::coef_vlc::{
    event_of, pair_symbol, read_coef_symbol, CoefEvent, CoefVlc, CoefVlcError, COEF_EOB_SYMBOL,
    COEF_ESCAPE_SYMBOL,
};
use crate::envelope_vlc::{GainVlc, ScaleVlc};
use crate::huffman::{codeword, read_symbol, HuffmanCode, HuffmanError};
use crate::paircode::EscapeWidths;
use crate::text::{append_decimal, decimal};
use vstd::arithmetic::power2::{lemma2_to64, lemma_pow2_strictly_increases, pow2};
use vstd::prelude::*;
use vstd::string::*;

verus! {

/// Width of the block header.
pub const BLOCK_HEADER_BITS: u8 = 7;

/// The block header with all bits set.
pub const BLOCK_HEADER_MARKER: u8 = 0x7f;

/// Width of the envelope base.
pub const ENVELOPE_BASE_BITS: u8 = 5;

/// Width of a flag.
pub const FLAG_BITS: u8 = 1;

/// Why a frame or block could not be written or read.
#[derive(Debug, Clone, Copy, PartialEq, Eq)]
pub enum FrameBitsError {
    /// A field width is zero or above thirty-two.
    WidthOutOfRange {
        /// The field.
        field: &'static str,
        /// Its width.
        bits: u8,
    },
    /// A value does not fit its field.
    ValueTooWide {
        /// The field.
        field: &'static str,
        /// The value.
        value: u32,
        /// The field's width.
        bits: u8,
    },
    /// A plan is unusable, or a block or frame does not have its shape.
    PlanMismatch {
        /// What does not match.
        what: &'static str,
    },
    /// A run and magnitude have neither a symbol nor room in the literals.
    EscapeOverflow {
        /// The run.
        run: u16,
        /// The magnitude.
        abs_level: u32,
    },
    /// A run leads past the block.
    CoefficientOverflow {
        /// Where it leads.
        position: usize,
        /// Coefficients in the block.
        coef_count: usize,
    },
    /// A literal level is zero.
    EscapeLevelZero,
    /// The stream ended inside a field.
    Bitstream(BitstreamEnd),
    /// The coefficient code refused.
    Coef(CoefVlcError),
    /// The gain or scale code refused.
    Huffman(HuffmanError),
}

impl FrameBitsError {
    /// The number that the error shows.
    pub open spec fn number(&self) -> Option<Binary64> {
        match self {
            FrameBitsError::Coef(e) => e.number(),
            FrameBitsError::Huffman(e) => e.number(),
            _ => None,
        }
    }

    /// What `message` says, where `numeral` is how the number that the error shows reads
    /// in decimal.
    pub open spec fn text(&self, numeral: Seq<char>) -> Seq<char> {
        match self {
            FrameBitsError::WidthOutOfRange { field, bits } => {
                "oxideav-wma::frame_bits: field `"@ + field@ + "` width "@ + decimal(*bits as nat)
                    + " is outside 1..=32"@
            },
            FrameBitsError::ValueTooWide { field, value, bits } => {
                "oxideav-wma::frame_bits: value "@ + decimal(*value as nat) + " of field `"@
                    + field@ + "` does not fit "@ + decimal(*bits as nat) + " bits"@
            },
            FrameBitsError::PlanMismatch { what } => {
                "oxideav-wma::frame_bits: plan mismatch — "@ + what@
            },
            FrameBitsError::EscapeOverflow { run, abs_level } => {
                "oxideav-wma::frame_bits: pair (run "@ + decimal(*run as nat) + ", |level| "@
                    + decimal(*abs_level as nat)
                    + ") fits neither the VLC alphabet nor the escape literal widths"@
            },
            FrameBitsError::CoefficientOverflow { position, coef_count } => {
                "oxideav-wma::frame_bits: decoded run reaches position "@ + decimal(
                    *position as nat,
                ) + " in a "@ + decimal(*coef_count as nat) + "-coefficient block"@
            },
            FrameBitsError::EscapeLevelZero => {
                "oxideav-wma::frame_bits: escape literal level was zero (stream corruption)"@
            },
            FrameBitsError::Bitstream(e) => "oxideav-wma::frame_bits: "@ + e.text(),
            FrameBitsError::Coef(e) => "oxideav-wma::frame_bits: "@ + e.text(numeral),
            FrameBitsError::Huffman(e) => "oxideav-wma::frame_bits: "@ + e.text(numeral),
        }
    }

    /// The number that the error shows.
    pub fn shown_number(&self) -> (number: Option<Binary64>)
        ensures
            number == self.number(),
    {
        match self {
            FrameBitsError::Coef(e) => e.shown_number(),
            FrameBitsError::Huffman(e) => e.shown_number(),
            _ => None,
        }
    }

    /// A description for people. `numeral` is how the number that `shown_number` gives
    /// reads in decimal; where there is none it is left unused.
    pub fn message(&self, numeral: &str) -> (s: String)
        ensures
            s@ == self.text(numeral@),
    {
        match self {
            FrameBitsError::WidthOutOfRange { field, bits } => {
                let mut s = String::from_str("oxideav-wma::frame_bits: field `");
                s.append(field);
                s.append("` width ");
                append_decimal(&mut s, *bits as u64);
                s.append(" is outside 1..=32");
                s
            },
            FrameBitsError::ValueTooWide { field, value, bits } => {
                let mut s = String::from_str("oxideav-wma::frame_bits: value ");
                append_decimal(&mut s, *value as u64);
                s.append(" of field `");
                s.append(field);
                s.append("` does not fit ");
                append_decimal(&mut s, *bits as u64);
                s.append(" bits");
                s
            },
            FrameBitsError::PlanMismatch { what } => {
                let mut s = String::from_str("oxideav-wma::frame_bits: plan mismatch — ");
                s.append(what);
                s
            },
            FrameBitsError::EscapeOverflow { run, abs_level } => {
                let mut s = String::from_str("oxideav-wma::frame_bits: pair (run ");
                append_decimal(&mut s, *run as u64);
                s.append(", |level| ");
                append_decimal(&mut s, *abs_level as u64);
                s.append(") fits neither the VLC alphabet nor the escape literal widths");
                s
            },
            FrameBitsError::CoefficientOverflow { position, coef_count } => {
                let mut s = String::from_str(
                    "oxideav-wma::frame_bits: decoded run reaches position ",
                );
                append_decimal(&mut s, *position as u64);
                s.append(" in a ");
                append_decimal(&mut s, *coef_count as u64);
                s.append("-coefficient block");
                s
            },
            FrameBitsError::EscapeLevelZero => String::from_str(
                "oxideav-wma::frame_bits: escape literal level was zero (stream corruption)",
            ),
            FrameBitsError::Bitstream(e) => {
                let mut s = String::from_str("oxideav-wma::frame_bits: ");
                s.append(e.message().as_str());
                s
            },
            FrameBitsError::Coef(e) => {
                let mut s = String::from_str("oxideav-wma::frame_bits: ");
                s.append(e.message(numeral).as_str());
                s
            },
            FrameBitsError::Huffman(e) => {
                let mut s = String::from_str("oxideav-wma::frame_bits: ");
                s.append(e.message(numeral).as_str());
                s
            },
        }
    }
}

impl From<BitstreamEnd> for FrameBitsError {
    fn from(e: BitstreamEnd) -> (r: Self) {
        FrameBitsError::Bitstream(e)
    }
}

impl vstd::std_specs::convert::FromSpecImpl<BitstreamEnd> for FrameBitsError {
    open spec fn obeys_from_spec() -> bool {
        true
    }

    open spec fn from_spec(e: BitstreamEnd) -> Self {
        FrameBitsError::Bitstream(e)
    }
}

impl From<CoefVlcError> for FrameBitsError {
    fn from(e: CoefVlcError) -> (r: Self) {
        FrameBitsError::Coef(e)
    }
}

impl vstd::std_specs::convert::FromSpecImpl<CoefVlcError> for FrameBitsError {
    open spec fn obeys_from_spec() -> bool {
        true
    }

    open spec fn from_spec(e: CoefVlcError) -> Self {
        FrameBitsError::Coef(e)
    }
}

impl From<HuffmanError> for FrameBitsError {
    fn from(e: HuffmanError) -> (r: Self) {
        FrameBitsError::Huffman(e)
    }
}

impl vstd::std_specs::convert::FromSpecImpl<HuffmanError> for FrameBitsError {
    open spec fn obeys_from_spec() -> bool {
        true
    }

    open spec fn from_spec(e: HuffmanError) -> Self {
        FrameBitsError::Huffman(e)
    }
}

// ------------------------------------------------------------ what is written

/// The bits that writing appends, and the error that stops it.
pub type Emission = (Seq<bool>, Option<FrameBitsError>);

/// Writing one thing after another.
pub open spec fn chain(first: Emission, second: Emission) -> Emission {
    if first.1 is Some {
        first
    } else {
        (first.0 + second.0, second.1)
    }
}

/// Writing nothing.
pub open spec fn nothing() -> Emission {
    (Seq::empty(), None)
}

/// Writing these bits.
pub open spec fn just(bits: Seq<bool>) -> Emission {
    (bits, None)
}

/// Refusing to write.
pub open spec fn refuse(e: FrameBitsError) -> Emission {
    (Seq::empty(), Some(e))
}

/// An emission's error as a result.
pub open spec fn result_of(error: Option<FrameBitsError>) -> Result<(), FrameBitsError> {
    match error {
        None => Ok(()),
        Some(e) => Err(e),
    }
}

/// Writing a value into a field of `bits` bits.
pub open spec fn emit_field(field: &'static str, value: u32, bits: u8) -> Emission {
    if value >= pow2(bits as nat) {
        refuse(FrameBitsError::ValueTooWide { field, value, bits })
    } else {
        just(bits_of(value as nat, bits as nat))
    }
}

/// Writing one gain or scale symbol.
pub open spec fn emit_symbol(lens: Seq<u8>, symbol: usize) -> Emission {
    if symbol < lens.len() {
        just(codeword(lens, symbol as int))
    } else {
        refuse(
            FrameBitsError::Huffman(
                HuffmanError::SymbolOutOfRange { symbol, alphabet: lens.len() as usize },
            ),
        )
    }
}

/// Writing gain or scale symbols in order.
pub open spec fn emit_symbols(lens: Seq<u8>, symbols: Seq<usize>) -> Emission
    decreases symbols.len(),
{
    if symbols.len() == 0 {
        nothing()
    } else {
        chain(emit_symbols(lens, symbols.drop_last()), emit_symbol(lens, symbols.last()))
    }
}

/// Writing one coefficient symbol.
pub open spec fn emit_coef_symbol(lens: Seq<u8>, symbol: usize) -> Emission {
    if symbol < lens.len() {
        just(codeword(lens, symbol as int))
    } else {
        refuse(
            FrameBitsError::Coef(
                CoefVlcError::Huffman(
                    HuffmanError::SymbolOutOfRange { symbol, alphabet: lens.len() as usize },
                ),
            ),
        )
    }
}

/// The magnitude of a coefficient.
pub open spec fn magnitude(value: i32) -> nat {
    if value < 0 {
        (-value) as nat
    } else {
        value as nat
    }
}

/// The symbol of a run and a magnitude, where the alphabet has one.
pub open spec fn alphabet_symbol(vlc: CoefVlc, run: nat, level: nat) -> Option<usize> {
    if run <= u16::MAX && level <= u16::MAX {
        pair_symbol(vlc.pairs(), vlc.lens().len(), run as u16, level as u16)
    } else {
        None
    }
}

/// Writing a run and a magnitude: their symbol, or else the escape symbol and
/// both as literals.
pub open spec fn emit_pair(vlc: CoefVlc, escape: EscapeWidths, run: nat, level: nat) -> Emission {
    match alphabet_symbol(vlc, run, level) {
        Some(symbol) => emit_coef_symbol(vlc.lens(), symbol),
        None => if run >= pow2(escape.run_bits as nat) || level >= pow2(escape.level_bits as nat) {
            refuse(
                FrameBitsError::EscapeOverflow { run: run as u16, abs_level: level as u32 },
            )
        } else {
            chain(
                emit_coef_symbol(vlc.lens(), 1),
                just(
                    bits_of(run, escape.run_bits as nat) + bits_of(level, escape.level_bits as nat),
                ),
            )
        },
    }
}

/// Place of the first coefficient from `start` on that is not zero, or the
/// length where there is none.
pub open spec fn next_nonzero(c: Seq<i32>, start: int) -> int
    decreases c.len() - start,
{
    if start >= c.len() {
        c.len() as int
    } else if c[start] != 0 {
        start
    } else {
        next_nonzero(c, start + 1)
    }
}

/// A run as the writer counts it, which stops at the largest 16-bit number.
pub open spec fn counted_run(zeros: int) -> nat {
    if zeros <= u16::MAX {
        zeros as nat
    } else {
        u16::MAX as nat
    }
}

/// Writing the coefficients from `start` on, which follows a coefficient that is
/// not zero or the start of the block: a pair and a sign for each one that is
/// not zero, and the end-of-block symbol where zeros are left.
pub open spec fn emit_coefficients(
    c: Seq<i32>,
    start: int,
    vlc: CoefVlc,
    escape: EscapeWidths,
) -> Emission
    decreases c.len() - start,
{
    let p = next_nonzero(c, start);
    if p >= c.len() || p < start {
        if start < c.len() {
            emit_coef_symbol(vlc.lens(), 0)
        } else {
            nothing()
        }
    } else {
        chain(
            chain(
                emit_pair(vlc, escape, counted_run(p - start), magnitude(c[p])),
                just(seq![c[p] < 0]),
            ),
            emit_coefficients(c, p + 1, vlc, escape),
        )
    }
}

// ------------------------------------------------------------ what is read

/// Reading a number of `n` bits.
pub open spec fn read_number(bits: Seq<bool>, n: nat) -> (Result<nat, FrameBitsError>, Seq<bool>) {
    if bits.len() < n {
        (
            Err(
                FrameBitsError::Bitstream(
                    BitstreamEnd { requested: n as usize, remaining: bits.len() as usize },
                ),
            ),
            bits,
        )
    } else {
        (Ok(value_of(bits.take(n as int))), bits.skip(n as int))
    }
}

/// Reading a flag.
pub open spec fn read_flag(bits: Seq<bool>) -> (Result<bool, FrameBitsError>, Seq<bool>) {
    if bits.len() == 0 {
        (
            Err(FrameBitsError::Bitstream(BitstreamEnd { requested: 1, remaining: 0 })),
            bits,
        )
    } else {
        (Ok(bits[0]), bits.skip(1))
    }
}

/// Reading `n` gain or scale symbols.
pub open spec fn read_symbols(lens: Seq<u8>, n: nat, bits: Seq<bool>) -> (
    Result<Seq<usize>, FrameBitsError>,
    Seq<bool>,
)
    decreases n,
{
    if n == 0 {
        (Ok(Seq::empty()), bits)
    } else {
        match read_symbols(lens, (n - 1) as nat, bits) {
            (Err(e), rest) => (Err(e), rest),
            (Ok(done), rest) => match read_symbol(lens, rest) {
                (Ok(s), rest) => (Ok(done.push(s)), rest),
                (Err(e), rest) => (Err(FrameBitsError::Huffman(e)), rest),
            },
        }
    }
}

/// Reading one run-level event: a run and a magnitude, or `None` at the end of
/// the block.
pub open spec fn read_event(vlc: CoefVlc, escape: EscapeWidths, bits: Seq<bool>) -> (
    Result<Option<(nat, nat)>, FrameBitsError>,
    Seq<bool>,
) {
    match read_coef_symbol(vlc.lens(), bits) {
        (Err(e), rest) => (Err(FrameBitsError::Coef(e)), rest),
        (Ok(symbol), rest) => match event_of(vlc.pairs(), symbol as int) {
            None => (
                Err(
                    FrameBitsError::Coef(
                        CoefVlcError::RunLevelUnavailable { mode: vlc.which(), symbol },
                    ),
                ),
                rest,
            ),
            Some(CoefEvent::EndOfBlock) => (Ok(None), rest),
            Some(CoefEvent::Pair { run, abs_level }) => (
                Ok(Some((run as nat, abs_level as nat))),
                rest,
            ),
            Some(CoefEvent::Escape) => match read_number(rest, escape.run_bits as nat) {
                (Err(e), rest) => (Err(e), rest),
                (Ok(run), rest) => match read_number(rest, escape.level_bits as nat) {
                    (Err(e), rest) => (Err(e), rest),
                    (Ok(level), rest) => if level == 0 {
                        (Err(FrameBitsError::EscapeLevelZero), rest)
                    } else {
                        (Ok(Some((run, level))), rest)
                    },
                },
            },
        },
    }
}

/// The coefficient of a magnitude of at most thirty-two bits and a sign, in
/// two's complement.
pub open spec fn signed(level: nat, negative: bool) -> i32 {
    let m = if level < 0x8000_0000 {
        level as int
    } else {
        level - 0x1_0000_0000
    };
    if negative && m != i32::MIN {
        (-m) as i32
    } else {
        m as i32
    }
}

/// Reading the coefficients of a block of `count` from `position` on, `done`
/// being the block as read so far.
pub open spec fn read_coefs(
    count: nat,
    position: nat,
    done: Seq<i32>,
    vlc: CoefVlc,
    escape: EscapeWidths,
    bits: Seq<bool>,
) -> (Result<Seq<i32>, FrameBitsError>, Seq<bool>)
    decreases count - position,
{
    if position >= count {
        (Ok(done), bits)
    } else {
        match read_event(vlc, escape, bits) {
            (Err(e), rest) => (Err(e), rest),
            (Ok(None), rest) => (Ok(done), rest),
            (Ok(Some((run, level))), rest) => {
                let target = position + run;
                if target >= count {
                    (
                        Err(
                            FrameBitsError::CoefficientOverflow {
                                position: (if target <= usize::MAX {
                                    target as usize
                                } else {
                                    usize::MAX
                                }),
                                coef_count: count as usize,
                            },
                        ),
                        rest,
                    )
                } else {
                    match read_flag(rest) {
                        (Err(e), rest) => (Err(e), rest),
                        (Ok(negative), rest) => read_coefs(
                            count,
                            target + 1,
                            done.update(target as int, signed(level, negative)),
                            vlc,
                            escape,
                            rest,
                        ),
                    }
                }
            },
        }
    }
}

/// A block of `n` zeros.
pub open spec fn zeros(n: nat) -> Seq<i32> {
    Seq::new(n, |i: int| 0i32)
}

/// An outcome with its value replaced by the value's view.
pub open spec fn viewed<T>(r: Result<Vec<T>, FrameBitsError>) -> Result<Seq<T>, FrameBitsError> {
    match r {
        Ok(v) => Ok(v@),
        Err(e) => Err(e),
    }
}

// ------------------------------------------------------------ coefficients

fn write_checked(writer: &mut BitWriter, field: &'static str, value: u32, bits: u8) -> (done: Result<
    (),
    FrameBitsError,
>)
    requires
        old(writer).wf(),
        1 <= bits <= 32,
    ensures
        final(writer).wf(),
        done == result_of(emit_field(field, value, bits).1),
        final(writer)@ == old(writer)@ + emit_field(field, value, bits).0,
{
    proof {
        lemma2_to64();
        vstd::bits::lemma_u64_shl_is_mul(1, bits as u64);
        if bits < 32 {
            lemma_pow2_strictly_increases(bits as nat, 32);
        }
    }
    if bits < 32 && value as u64 >= (1u64 << (bits as u64)) {
        assert(writer@ =~= old(writer)@ + Seq::<bool>::empty());
        return Err(FrameBitsError::ValueTooWide { field, value, bits });
    }
    writer.write_bits(value as u64, bits);
    Ok(())
}

fn unsigned_abs(value: i32) -> (m: u32)
    ensures
        m == magnitude(value),
{
    if value < 0 {
        (-(value as i64)) as u32
    } else {
        value as u32
    }
}

fn with_sign(level: u32, negative: bool) -> (value: i32)
    ensures
        value == signed(level as nat, negative),
{
    let m: i64 = if level < 0x8000_0000 {
        level as i64
    } else {
        level as i64 - 0x1_0000_0000
    };
    if negative && m != i32::MIN as i64 {
        (-m) as i32
    } else {
        m as i32
    }
}

proof fn lemma_next_nonzero(c: Seq<i32>, start: int)
    requires
        0 <= start <= c.len(),
    ensures
        start <= next_nonzero(c, start) <= c.len(),
        forall|k: int| start <= k < next_nonzero(c, start) ==> #[trigger] c[k] == 0,
        next_nonzero(c, start) < c.len() ==> c[next_nonzero(c, start)] != 0,
    decreases c.len() - start,
{
    if start < c.len() && c[start] == 0 {
        lemma_next_nonzero(c, start + 1);
    }
}

proof fn lemma_next_nonzero_at(c: Seq<i32>, start: int, p: int)
    requires
        0 <= start <= p <= c.len(),
        forall|k: int| start <= k < p ==> #[trigger] c[k] == 0,
        p < c.len() ==> c[p] != 0,
    ensures
        next_nonzero(c, start) == p,
{
    lemma_next_nonzero(c, start);
    let q = next_nonzero(c, start);
    if q < p {
        assert(c[q] == 0);
    } else if p < q {
        assert(c[p] == 0);
    }
}

/// Write the pair of a run and a magnitude.
fn write_pair(vlc: &CoefVlc, escape: EscapeWidths, run: u16, level: u32, writer: &mut BitWriter) -> (
done: Result<(), FrameBitsError>)
    requires
        old(writer).wf(),
        vlc.wf(),
        escape.wf(),
    ensures
        final(writer).wf(),
        done == result_of(emit_pair(*vlc, escape, run as nat, level as nat).1),
        final(writer)@ == old(writer)@ + emit_pair(*vlc, escape, run as nat, level as nat).0,
{
    let ghost start = writer@;
    proof {
        assert(start + Seq::<bool>::empty() =~= start);
    }
    let in_alphabet: Option<usize> = if level <= u16::MAX as u32 {
        vlc.symbol_for_pair(run, level as u16)
    } else {
        None
    };
    match in_alphabet {
        Some(symbol) => match vlc.encode_symbol(symbol, writer) {
            Ok(_) => Ok(()),
            Err(e) => Err(FrameBitsError::from(e)),
        },
        None => {
            if run as u32 > escape.max_run() || level > escape.max_level() {
                return Err(FrameBitsError::EscapeOverflow { run, abs_level: level });
            }
            match vlc.encode_symbol(COEF_ESCAPE_SYMBOL as usize, writer) {
                Ok(_) => {},
                Err(e) => {
                    return Err(FrameBitsError::from(e));
                },
            }
            writer.write_bits(run as u64, escape.run_bits);
            writer.write_bits(level as u64, escape.level_bits);
            proof {
                let a = codeword(vlc.lens(), 1);
                let b = bits_of(run as nat, escape.run_bits as nat);
                let c = bits_of(level as nat, escape.level_bits as nat);
                assert(start + a + b + c =~= start + (a + (b + c)));
            }
            Ok(())
        },
    }
}

/// Write the coefficients of one block.
pub fn write_coefficients(
    coefficients: &[i32],
    vlc: &CoefVlc,
    escape: EscapeWidths,
    writer: &mut BitWriter,
) -> (done: Result<(), FrameBitsError>)
    requires
        vlc.wf(),
        escape.wf(),
        old(writer).wf(),
    ensures
        final(writer).wf(),
        done == result_of(emit_coefficients(coefficients@, 0, *vlc, escape).1),
        final(writer)@ == old(writer)@ + emit_coefficients(coefficients@, 0, *vlc, escape).0,
{
    let ghost c = coefficients@;
    let ghost begin = writer@;
    let ghost whole = emit_coefficients(c, 0, *vlc, escape);
    let n: usize = coefficients.len();
    let mut run: u16 = 0;
    let mut emitted_up_to: usize = 0;
    let mut i: usize = 0;
    let ghost mut written = Seq::<bool>::empty();
    proof {
        assert(written + whole.0 =~= whole.0);
        assert(begin + written =~= begin);
    }
    while i < n
        invariant
            vlc.wf(),
            escape.wf(),
            writer.wf(),
            n == coefficients@.len(),
            c == coefficients@,
            begin == old(writer)@,
            emitted_up_to <= i <= n,
            forall|k: int| emitted_up_to <= k < i ==> #[trigger] c[k] == 0,
            run == counted_run(i - emitted_up_to),
            whole == emit_coefficients(c, 0, *vlc, escape),
            writer@ == begin + written,
            whole == (
                written + emit_coefficients(c, emitted_up_to as int, *vlc, escape).0,
                emit_coefficients(c, emitted_up_to as int, *vlc, escape).1,
            ),
        decreases n - i,
    {
        let value: i32 = coefficients[i];
        if value == 0 {
            if run < u16::MAX {
                run = run + 1;
            }
        } else {
            let level: u32 = unsigned_abs(value);
            let ghost from = emitted_up_to as int;
            let ghost pair = emit_pair(*vlc, escape, run as nat, level as nat);
            let ghost tail = emit_coefficients(c, i + 1, *vlc, escape);
            proof {
                lemma_next_nonzero_at(c, from, i as int);
                assert(emit_coefficients(c, from, *vlc, escape) == chain(
                    chain(pair, just(seq![value < 0])),
                    tail,
                ));
            }
            match write_pair(vlc, escape, run, level, writer) {
                Ok(_) => {},
                Err(e) => {
                    proof {
                        assert(begin + written + pair.0 =~= begin + whole.0);
                    }
                    return Err(e);
                },
            }
            writer.write_bit(value < 0);
            proof {
                let done = written + (pair.0 + seq![value < 0]);
                assert(writer@ =~= begin + done);
                assert(whole.0 =~= done + tail.0);
                written = done;
            }
            run = 0;
            emitted_up_to = i + 1;
        }
        i = i + 1;
    }
    proof {
        lemma_next_nonzero_at(c, emitted_up_to as int, n as int);
    }
    if emitted_up_to < n {
        match vlc.encode_symbol(COEF_EOB_SYMBOL as usize, writer) {
            Ok(_) => {},
            Err(e) => {
                proof {
                    assert(begin + written =~= begin + whole.0);
                }
                return Err(FrameBitsError::from(e));
            },
        }
        proof {
            assert(begin + written + codeword(vlc.lens(), 0) =~= begin + whole.0);
        }
    } else {
        proof {
            assert(written + Seq::<bool>::empty() =~= written);
        }
    }
    Ok(())
}

/// Read a number of `n` bits.
fn read_uint(reader: &mut BitReader<'_>, n: u8) -> (value: Result<u32, FrameBitsError>)
    requires
        old(reader).wf(),
        n <= 32,
    ensures
        final(reader).wf(),
        final(reader).consumed() == old(reader).consumed() + (old(reader)@.len()
            - final(reader)@.len()),
        final(reader)@ == read_number(old(reader)@, n as nat).1,
        match value {
            Ok(v) => read_number(old(reader)@, n as nat).0 == Ok::<nat, FrameBitsError>(v as nat)
                && v < pow2(n as nat),
            Err(e) => read_number(old(reader)@, n as nat).0 == Err::<nat, FrameBitsError>(e),
        },
{
    match reader.read_bits(n) {
        Ok(v) => {
            proof {
                crate::bits::lemma_value_bound(old(reader)@.take(n as int));
                lemma2_to64();
                if n < 32 {
                    lemma_pow2_strictly_increases(n as nat, 32);
                }
            }
            Ok(v as u32)
        },
        Err(e) => Err(FrameBitsError::from(e)),
    }
}

/// Read a flag.
fn read_bool(reader: &mut BitReader<'_>) -> (value: Result<bool, FrameBitsError>)
    requires
        old(reader).wf(),
    ensures
        final(reader).wf(),
        final(reader).consumed() == old(reader).consumed() + (old(reader)@.len()
            - final(reader)@.len()),
        (value, final(reader)@) == read_flag(old(reader)@),
{
    match reader.read_bit() {
        Ok(b) => Ok(b),
        Err(e) => Err(FrameBitsError::from(e)),
    }
}

/// Read one run-level event.
fn read_run_level(vlc: &CoefVlc, escape: EscapeWidths, reader: &mut BitReader<'_>) -> (event: Result<
    Option<(u32, u32)>,
    FrameBitsError,
>)
    requires
        vlc.wf(),
        escape.wf(),
        old(reader).wf(),
    ensures
        final(reader).wf(),
        final(reader).consumed() == old(reader).consumed() + (old(reader)@.len()
            - final(reader)@.len()),
        final(reader)@ == read_event(*vlc, escape, old(reader)@).1,
        read_event(*vlc, escape, old(reader)@).0 == (match event {
            Ok(Some((run, level))) => Ok::<Option<(nat, nat)>, FrameBitsError>(
                Some((run as nat, level as nat)),
            ),
            Ok(None) => Ok(None),
            Err(e) => Err(e),
        }),
{
    let symbol: usize = match vlc.decode_symbol(reader) {
        Ok(s) => s,
        Err(e) => {
            return Err(FrameBitsError::from(e));
        },
    };
    let event = match vlc.expand(symbol) {
        Ok(event) => event,
        Err(e) => {
            return Err(FrameBitsError::from(e));
        },
    };
    match event {
        CoefEvent::EndOfBlock => Ok(None),
        CoefEvent::Pair { run, abs_level } => Ok(Some((run as u32, abs_level as u32))),
        CoefEvent::Escape => {
            let run: u32 = match read_uint(reader, escape.run_bits) {
                Ok(run) => run,
                Err(e) => {
                    return Err(e);
                },
            };
            let level: u32 = match read_uint(reader, escape.level_bits) {
                Ok(level) => level,
                Err(e) => {
                    return Err(e);
                },
            };
            if level == 0 {
                return Err(FrameBitsError::EscapeLevelZero);
            }
            Ok(Some((run, level)))
        },
    }
}

/// Read the coefficients of one block of `coef_count`.
pub fn read_coefficients(
    coef_count: usize,
    vlc: &CoefVlc,
    escape: EscapeWidths,
    reader: &mut BitReader<'_>,
) -> (coefficients: Result<Vec<i32>, FrameBitsError>)
    requires
        vlc.wf(),
        escape.wf(),
        old(reader).wf(),
    ensures
        final(reader).wf(),
        final(reader).consumed() == old(reader).consumed() + (old(reader)@.len()
            - final(reader)@.len()),
        (viewed(coefficients), final(reader)@) == read_coefs(
            coef_count as nat,
            0,
            zeros(coef_count as nat),
            *vlc,
            escape,
            old(reader)@,
        ),
        coefficients matches Ok(c) ==> c@.len() == coef_count,
{
    let mut coefficients: Vec<i32> = vec![0i32; coef_count];
    let mut position: usize = 0;
    let ghost whole = read_coefs(
        coef_count as nat,
        0,
        zeros(coef_count as nat),
        *vlc,
        escape,
        reader@,
    );
    assert(coefficients@ =~= zeros(coef_count as nat));
    while position < coef_count
        invariant
            vlc.wf(),
            escape.wf(),
            reader.wf(),
            coefficients@.len() == coef_count,
            position <= coef_count,
            reader.consumed() == old(reader).consumed() + (old(reader)@.len() - reader@.len()),
            whole == read_coefs(
                coef_count as nat,
                0,
                zeros(coef_count as nat),
                *vlc,
                escape,
                old(reader)@,
            ),
            whole == read_coefs(
                coef_count as nat,
                position as nat,
                coefficients@,
                *vlc,
                escape,
                reader@,
            ),
        decreases coef_count - position,
    {
        let (run, level): (u32, u32) = match read_run_level(vlc, escape, reader) {
            Ok(Some(pair)) => pair,
            Ok(None) => {
                return Ok(coefficients);
            },
            Err(e) => {
                return Err(e);
            },
        };
        let target: usize = position.saturating_add(run as usize);
        if target >= coef_count {
            return Err(FrameBitsError::CoefficientOverflow { position: target, coef_count });
        }
        let negative = match read_bool(reader) {
            Ok(b) => b,
            Err(e) => {
                return Err(e);
            },
        };
        coefficients[target] = with_sign(level, negative);
        position = target + 1;
    }
    Ok(coefficients)
}

// ------------------------------------------------------------ laws of coefficients

/// Whether no run of zeros is too long for the writer to count.
pub open spec fn runs_fit(c: Seq<i32>) -> bool {
    forall|i: int|
        0 <= i < c.len() && (#[trigger] next_nonzero(c, i)) < c.len() ==> next_nonzero(c, i) - i
            <= u16::MAX
}

proof fn lemma_regroup(a: Seq<bool>, b: Seq<bool>, c: Seq<bool>, d: Seq<bool>)
    ensures
        a + b + c + d == a + (b + (c + d)),
{
    assert(a + b + c + d =~= a + (b + (c + d)));
}

/// A number in its field is read back.
proof fn lemma_number_round_trip(v: nat, n: nat, rest: Seq<bool>)
    requires
        v < pow2(n),
    ensures
        read_number(bits_of(v, n) + rest, n) == (Ok::<nat, FrameBitsError>(v), rest),
{
    let bits = bits_of(v, n) + rest;
    crate::bits::lemma_bits_of_len(v, n);
    crate::bits::lemma_value_of_bits(v, n);
    assert(bits.take(n as int) =~= bits_of(v, n));
    assert(bits.skip(n as int) =~= rest);
}

proof fn lemma_flag_round_trip(b: bool, rest: Seq<bool>)
    ensures
        read_flag(seq![b] + rest) == (Ok::<bool, FrameBitsError>(b), rest),
{
    assert((seq![b] + rest).skip(1) =~= rest);
}

/// Literals after an escape symbol are read back.
proof fn lemma_escape_round_trip(
    vlc: CoefVlc,
    escape: EscapeWidths,
    run: nat,
    level: nat,
    rest: Seq<bool>,
)
    requires
        vlc.wf(),
        level > 0,
        run < pow2(escape.run_bits as nat),
        level < pow2(escape.level_bits as nat),
        vlc.lens().len() > 1,
    ensures
        read_event(
            vlc,
            escape,
            codeword(vlc.lens(), 1) + (bits_of(run, escape.run_bits as nat) + bits_of(
                level,
                escape.level_bits as nat,
            )) + rest,
        ) == (Ok::<Option<(nat, nat)>, FrameBitsError>(Some((run, level))), rest),
{
    vlc.lemma_wf();
    let a = codeword(vlc.lens(), 1);
    let b = bits_of(run, escape.run_bits as nat);
    let c = bits_of(level, escape.level_bits as nat);
    assert(a + (b + c) + rest =~= a + (b + (c + rest)));
    crate::huffman::decode_inverts_encode(vlc.lens(), 1, b + (c + rest));
    lemma_number_round_trip(run, escape.run_bits as nat, c + rest);
    lemma_number_round_trip(level, escape.level_bits as nat, rest);
}

proof fn lemma_pair_round_trip(
    vlc: CoefVlc,
    escape: EscapeWidths,
    run: nat,
    level: nat,
    rest: Seq<bool>,
)
    requires
        vlc.wf(),
        escape.wf(),
        run <= u16::MAX,
        0 < level <= u32::MAX,
        emit_pair(vlc, escape, run, level).1 is None,
    ensures
        read_event(vlc, escape, emit_pair(vlc, escape, run, level).0 + rest) == (
            Ok::<Option<(nat, nat)>, FrameBitsError>(Some((run, level))),
            rest,
        ),
{
    match alphabet_symbol(vlc, run, level) {
        Some(symbol) => {
            vlc.lemma_wf();
            crate::coef_vlc::pair_symbol_expands_back(
                vlc.pairs(),
                vlc.lens().len(),
                run as u16,
                level as u16,
            );
            crate::huffman::decode_inverts_encode(vlc.lens(), symbol, rest);
        },
        None => {
            lemma_escape_round_trip(vlc, escape, run, level, rest);
        },
    }
}

/// Placing the next coefficient that is not zero.
proof fn lemma_placed(c: Seq<i32>, start: int, p: int)
    requires
        0 <= start <= p < c.len(),
        forall|k: int| start <= k < p ==> #[trigger] c[k] == 0,
    ensures
        (c.take(start) + zeros((c.len() - start) as nat)).update(p, c[p]) == c.take(p + 1) + zeros(
            (c.len() - (p + 1)) as nat,
        ),
{
    let done = c.take(start) + zeros((c.len() - start) as nat);
    let next = c.take(p + 1) + zeros((c.len() - (p + 1)) as nat);
    assert forall|k: int| 0 <= k < c.len() implies done.update(p, c[p])[k] == next[k] by {
        if start <= k < p {
            assert(c[k] == 0);
        }
    }
    assert(done.update(p, c[p]) =~= next);
}

/// Reading one event and its sign, and then the rest.
proof fn lemma_read_step(
    count: nat,
    position: nat,
    done: Seq<i32>,
    vlc: CoefVlc,
    escape: EscapeWidths,
    bits: Seq<bool>,
    event: (nat, nat),
    signed_bits: Seq<bool>,
    negative: bool,
    rest: Seq<bool>,
)
    requires
        position + event.0 < count,
        read_event(vlc, escape, bits) == (
            Ok::<Option<(nat, nat)>, FrameBitsError>(Some(event)),
            signed_bits,
        ),
        read_flag(signed_bits) == (Ok::<bool, FrameBitsError>(negative), rest),
    ensures
        read_coefs(count, position, done, vlc, escape, bits) == read_coefs(
            count,
            position + event.0 + 1,
            done.update((position + event.0) as int, signed(event.1, negative)),
            vlc,
            escape,
            rest,
        ),
{
}

/// Writing the next coefficient that is not zero, and then the rest.
proof fn lemma_emit_step(
    c: Seq<i32>,
    start: int,
    p: int,
    vlc: CoefVlc,
    escape: EscapeWidths,
    rest: Seq<bool>,
)
    requires
        0 <= start <= p < c.len(),
        p == next_nonzero(c, start),
        p - start <= u16::MAX,
        emit_coefficients(c, start, vlc, escape).1 is None,
    ensures
        ({
            let pair = emit_pair(vlc, escape, (p - start) as nat, magnitude(c[p]));
            let tail = emit_coefficients(c, p + 1, vlc, escape);
            &&& pair.1 is None
            &&& tail.1 is None
            &&& emit_coefficients(c, start, vlc, escape).0 + rest == pair.0 + (seq![c[p] < 0] + (
            tail.0 + rest))
        }),
{
    let pair = emit_pair(vlc, escape, counted_run(p - start), magnitude(c[p]));
    let sign = seq![c[p] < 0];
    let tail = emit_coefficients(c, p + 1, vlc, escape);
    let out = emit_coefficients(c, start, vlc, escape);
    assert(out == chain(chain(pair, just(sign)), tail));
    assert(out.0 == pair.0 + sign + tail.0);
    lemma_regroup(pair.0, sign, tail.0, rest);
}

/// A coefficient is its magnitude with its sign.
proof fn lemma_signed(value: i32)
    requires
        value != 0,
    ensures
        0 < magnitude(value) <= u32::MAX,
        signed(magnitude(value), value < 0) == value,
{
}

/// What is left of a block without further coefficients that are not zero.
proof fn lemma_end_round_trip(
    c: Seq<i32>,
    start: int,
    vlc: CoefVlc,
    escape: EscapeWidths,
    rest: Seq<bool>,
)
    requires
        vlc.wf(),
        0 <= start <= c.len(),
        next_nonzero(c, start) >= c.len(),
        emit_coefficients(c, start, vlc, escape).1 is None,
    ensures
        read_coefs(
            c.len(),
            start as nat,
            c,
            vlc,
            escape,
            emit_coefficients(c, start, vlc, escape).0 + rest,
        ) == (Ok::<Seq<i32>, FrameBitsError>(c), rest),
{
    if start < c.len() {
        vlc.lemma_wf();
        crate::huffman::decode_inverts_encode(vlc.lens(), 0, rest);
    } else {
        assert(Seq::<bool>::empty() + rest =~= rest);
    }
}

proof fn lemma_coefficients_round_trip(
    c: Seq<i32>,
    start: int,
    vlc: CoefVlc,
    escape: EscapeWidths,
    rest: Seq<bool>,
)
    requires
        vlc.wf(),
        escape.wf(),
        runs_fit(c),
        0 <= start <= c.len(),
        emit_coefficients(c, start, vlc, escape).1 is None,
    ensures
        read_coefs(
            c.len(),
            start as nat,
            c.take(start) + zeros((c.len() - start) as nat),
            vlc,
            escape,
            emit_coefficients(c, start, vlc, escape).0 + rest,
        ) == (Ok::<Seq<i32>, FrameBitsError>(c), rest),
    decreases c.len() - start,
{
    let p = next_nonzero(c, start);
    let done = c.take(start) + zeros((c.len() - start) as nat);
    lemma_next_nonzero(c, start);
    if p >= c.len() {
        assert(done =~= c);
        lemma_end_round_trip(c, start, vlc, escape, rest);
    } else {
        let run = (p - start) as nat;
        let level = magnitude(c[p]);
        let sign = seq![c[p] < 0];
        let after = emit_coefficients(c, p + 1, vlc, escape).0 + rest;
        assert(run <= u16::MAX);
        lemma_emit_step(c, start, p, vlc, escape, rest);
        lemma_signed(c[p]);
        lemma_pair_round_trip(vlc, escape, run, level, sign + after);
        lemma_flag_round_trip(c[p] < 0, after);
        lemma_read_step(
            c.len(),
            start as nat,
            done,
            vlc,
            escape,
            emit_coefficients(c, start, vlc, escape).0 + rest,
            (run, level),
            sign + after,
            c[p] < 0,
            after,
        );
        lemma_placed(c, start, p);
        lemma_coefficients_round_trip(c, p + 1, vlc, escape, rest);
    }
}

/// Coefficients that were written are read back, and what follows them is left.
/// Runs that the writer cannot count are left out.
pub proof fn coefficients_round_trip(
    c: Seq<i32>,
    vlc: CoefVlc,
    escape: EscapeWidths,
    rest: Seq<bool>,
)
    requires
        vlc.wf(),
        escape.wf(),
        runs_fit(c),
        emit_coefficients(c, 0, vlc, escape).1 is None,
    ensures
        read_coefs(
            c.len(),
            0,
            zeros(c.len()),
            vlc,
            escape,
            emit_coefficients(c, 0, vlc, escape).0 + rest,
        ) == (Ok::<Seq<i32>, FrameBitsError>(c), rest),
{
    assert(c.take(0) + zeros(c.len()) =~= zeros(c.len()));
    lemma_coefficients_round_trip(c, 0, vlc, escape, rest);
}

/// A block without a coefficient that is not zero is the end-of-block symbol
/// alone.
pub proof fn zero_block_is_end_of_block(n: nat, vlc: CoefVlc, escape: EscapeWidths)
    requires
        vlc.wf(),
        n > 0,
    ensures
        emit_coefficients(zeros(n), 0, vlc, escape) == just(codeword(vlc.lens(), 0)),
{
    vlc.lemma_wf();
    lemma_next_nonzero_at(zeros(n), 0, n as int);
}

/// A block whose last coefficient is not zero ends with that coefficient's sign:
/// no end-of-block symbol follows.
pub proof fn full_block_ends_with_its_sign(
    c: Seq<i32>,
    start: int,
    vlc: CoefVlc,
    escape: EscapeWidths,
)
    requires
        0 <= start < c.len(),
        c.last() != 0,
        emit_coefficients(c, start, vlc, escape).1 is None,
    ensures
        emit_coefficients(c, start, vlc, escape).0.len() > 0,
        emit_coefficients(c, start, vlc, escape).0.last() == (c.last() < 0),
    decreases c.len() - start,
{
    lemma_next_nonzero(c, start);
    let p = next_nonzero(c, start);
    assert(p < c.len()) by {
        if p == c.len() {
            assert(c[c.len() - 1] == 0);
        }
    }
    let pair = emit_pair(vlc, escape, counted_run(p - start), magnitude(c[p]));
    let tail = emit_coefficients(c, p + 1, vlc, escape);
    let out = emit_coefficients(c, start, vlc, escape);
    assert(out == chain(chain(pair, just(seq![c[p] < 0])), tail));
    if p + 1 < c.len() {
        full_block_ends_with_its_sign(c, p + 1, vlc, escape);
        assert(out.0.last() == tail.0.last());
    } else {
        assert(tail == nothing());
        assert(out.0 =~= pair.0 + seq![c[p] < 0]);
    }
}

// ------------------------------------------------------------ success needs no more bits

proof fn lemma_symbol_extends(lens: Seq<u8>, x: Seq<bool>, y: Seq<bool>)
    requires
        crate::huffman::lengths_ok(lens),
        crate::huffman::is_prefix_code(lens),
        lens.len() <= usize::MAX,
        read_symbol(lens, x).0 is Ok,
    ensures
        read_symbol(lens, x + y) == (read_symbol(lens, x).0, read_symbol(lens, x).1 + y),
{
    let s = read_symbol(lens, x).0->Ok_0 as int;
    assert(crate::huffman::starts_with_codeword(lens, s, x));
    assert((x + y).take(lens[s] as int) =~= x.take(lens[s] as int));
    crate::huffman::lemma_read_symbol(lens, s, x + y);
    assert((x + y).skip(lens[s] as int) =~= x.skip(lens[s] as int) + y);
}

proof fn lemma_number_extends(x: Seq<bool>, y: Seq<bool>, n: nat)
    requires
        read_number(x, n).0 is Ok,
    ensures
        read_number(x + y, n) == (read_number(x, n).0, read_number(x, n).1 + y),
{
    assert((x + y).take(n as int) =~= x.take(n as int));
    assert((x + y).skip(n as int) =~= x.skip(n as int) + y);
}

proof fn lemma_flag_extends(x: Seq<bool>, y: Seq<bool>)
    requires
        read_flag(x).0 is Ok,
    ensures
        read_flag(x + y) == (read_flag(x).0, read_flag(x).1 + y),
{
    assert((x + y).skip(1) =~= x.skip(1) + y);
}

proof fn lemma_symbols_extend(lens: Seq<u8>, n: nat, x: Seq<bool>, y: Seq<bool>)
    requires
        crate::huffman::lengths_ok(lens),
        crate::huffman::is_prefix_code(lens),
        lens.len() <= usize::MAX,
        read_symbols(lens, n, x).0 is Ok,
    ensures
        read_symbols(lens, n, x + y) == (read_symbols(lens, n, x).0, read_symbols(lens, n, x).1 + y),
    decreases n,
{
    if n > 0 {
        lemma_symbols_extend(lens, (n - 1) as nat, x, y);
        lemma_symbol_extends(lens, read_symbols(lens, (n - 1) as nat, x).1, y);
    }
}

proof fn lemma_event_extends(vlc: CoefVlc, escape: EscapeWidths, x: Seq<bool>, y: Seq<bool>)
    requires
        vlc.wf(),
        read_event(vlc, escape, x).0 is Ok,
    ensures
        read_event(vlc, escape, x + y) == (
            read_event(vlc, escape, x).0,
            read_event(vlc, escape, x).1 + y,
        ),
{
    vlc.lemma_wf();
    lemma_symbol_extends(vlc.lens(), x, y);
    let (symbol, rest) = read_symbol(vlc.lens(), x);
    if event_of(vlc.pairs(), symbol->Ok_0 as int) == Some(CoefEvent::Escape) {
        lemma_number_extends(rest, y, escape.run_bits as nat);
        lemma_number_extends(
            read_number(rest, escape.run_bits as nat).1,
            y,
            escape.level_bits as nat,
        );
    }
}

proof fn lemma_coefs_extend(
    count: nat,
    position: nat,
    done: Seq<i32>,
    vlc: CoefVlc,
    escape: EscapeWidths,
    x: Seq<bool>,
    y: Seq<bool>,
)
    requires
        vlc.wf(),
        read_coefs(count, position, done, vlc, escape, x).0 is Ok,
    ensures
        read_coefs(count, position, done, vlc, escape, x + y) == (
            read_coefs(count, position, done, vlc, escape, x).0,
            read_coefs(count, position, done, vlc, escape, x).1 + y,
        ),
    decreases count - position,
{
    if position < count {
        lemma_event_extends(vlc, escape, x, y);
        let (event, rest) = read_event(vlc, escape, x);
        if let Some((run, level)) = event->Ok_0 {
            lemma_flag_extends(rest, y);
            let (negative, rest) = read_flag(rest);
            let target = position + run;
            lemma_coefs_extend(
                count,
                target + 1,
                done.update(target as int, signed(level, negative->Ok_0)),
                vlc,
                escape,
                rest,
                y,
            );
        }
    }
}

/// Coefficients are self-delimiting: short of its last bit, what was written is
/// not read as a block.
pub proof fn truncated_coefficients_fail(c: Seq<i32>, vlc: CoefVlc, escape: EscapeWidths, k: int)
    requires
        vlc.wf(),
        escape.wf(),
        runs_fit(c),
        emit_coefficients(c, 0, vlc, escape).1 is None,
        0 <= k < emit_coefficients(c, 0, vlc, escape).0.len(),
    ensures
        read_coefs(
            c.len(),
            0,
            zeros(c.len()),
            vlc,
            escape,
            emit_coefficients(c, 0, vlc, escape).0.take(k),
        ).0 is Err,
{
    let out = emit_coefficients(c, 0, vlc, escape).0;
    let (read, rest) = read_coefs(c.len(), 0, zeros(c.len()), vlc, escape, out.take(k));
    if read is Ok {
        lemma_coefs_extend(c.len(), 0, zeros(c.len()), vlc, escape, out.take(k), out.skip(k));
        assert(out.take(k) + out.skip(k) =~= out + Seq::<bool>::empty());
        coefficients_round_trip(c, vlc, escape, Seq::empty());
        assert((rest + out.skip(k)).len() > 0);
    }
}

// ------------------------------------------------------------ frame header

/// Widths of the two frame header fields whose width the stream fixes.
#[derive(Debug, Clone, Copy, PartialEq, Eq, Structural)]
pub struct FrameFieldWidths {
    /// Width of the reservoir offset.
    pub byte_offset_bits: u8,
    /// Width of the side field.
    pub side_field_bits: u8,
}

impl FrameFieldWidths {
    /// The invariant: each width is one to thirty-two bits.
    pub open spec fn wf(&self) -> bool {
        1 <= self.byte_offset_bits <= 32 && 1 <= self.side_field_bits <= 32
    }

    /// The widths, where both are one to thirty-two bits.
    pub fn new(byte_offset_bits: u8, side_field_bits: u8) -> (widths: Result<Self, FrameBitsError>)
        ensures
            widths == (if byte_offset_bits == 0 || byte_offset_bits > 32 {
                Err(
                    FrameBitsError::WidthOutOfRange {
                        field: "byte_offset_bits",
                        bits: byte_offset_bits,
                    },
                )
            } else if side_field_bits == 0 || side_field_bits > 32 {
                Err(
                    FrameBitsError::WidthOutOfRange {
                        field: "side_field_bits",
                        bits: side_field_bits,
                    },
                )
            } else {
                Ok(FrameFieldWidths { byte_offset_bits, side_field_bits })
            }),
    {
        if byte_offset_bits == 0 || byte_offset_bits > 32 {
            return Err(
                FrameBitsError::WidthOutOfRange {
                    field: "byte_offset_bits",
                    bits: byte_offset_bits,
                },
            );
        }
        if side_field_bits == 0 || side_field_bits > 32 {
            return Err(
                FrameBitsError::WidthOutOfRange { field: "side_field_bits", bits: side_field_bits },
            );
        }
        Ok(FrameFieldWidths { byte_offset_bits, side_field_bits })
    }
}

/// The frame header.
#[derive(Debug, Clone, Copy, PartialEq, Eq, Structural)]
pub struct FrameHeaderFields {
    /// Where the frame starts in the bit reservoir.
    pub reservoir_offset: u32,
    /// The side field.
    pub side_field: u32,
    /// The frame flag.
    pub flag: bool,
}

/// Writing a frame header.
pub open spec fn emit_header(h: FrameHeaderFields, widths: FrameFieldWidths) -> Emission {
    chain(
        chain(
            emit_field("reservoir_offset", h.reservoir_offset, widths.byte_offset_bits),
            emit_field("side_field", h.side_field, widths.side_field_bits),
        ),
        just(seq![h.flag]),
    )
}

/// Reading a frame header.
pub open spec fn read_header(widths: FrameFieldWidths, bits: Seq<bool>) -> (
    Result<FrameHeaderFields, FrameBitsError>,
    Seq<bool>,
) {
    match read_number(bits, widths.byte_offset_bits as nat) {
        (Err(e), rest) => (Err(e), rest),
        (Ok(offset), rest) => match read_number(rest, widths.side_field_bits as nat) {
            (Err(e), rest) => (Err(e), rest),
            (Ok(side), rest) => match read_flag(rest) {
                (Err(e), rest) => (Err(e), rest),
                (Ok(flag), rest) => (
                    Ok(
                        FrameHeaderFields {
                            reservoir_offset: offset as u32,
                            side_field: side as u32,
                            flag,
                        },
                    ),
                    rest,
                ),
            },
        },
    }
}

impl FrameHeaderFields {
    /// Write the header.
    pub fn write(&self, widths: &FrameFieldWidths, writer: &mut BitWriter) -> (done: Result<
        (),
        FrameBitsError,
    >)
        requires
            widths.wf(),
            old(writer).wf(),
        ensures
            final(writer).wf(),
            done == result_of(emit_header(*self, *widths).1),
            final(writer)@ == old(writer)@ + emit_header(*self, *widths).0,
    {
        let ghost begin = writer@;
        let ghost a = emit_field("reservoir_offset", self.reservoir_offset, widths.byte_offset_bits);
        let ghost b = emit_field("side_field", self.side_field, widths.side_field_bits);
        match write_checked(
            writer,
            "reservoir_offset",
            self.reservoir_offset,
            widths.byte_offset_bits,
        ) {
            Ok(_) => {},
            Err(e) => {
                return Err(e);
            },
        }
        match write_checked(writer, "side_field", self.side_field, widths.side_field_bits) {
            Ok(_) => {},
            Err(e) => {
                assert(writer@ =~= begin + (a.0 + b.0));
                return Err(e);
            },
        }
        writer.write_bit(self.flag);
        assert(writer@ =~= begin + (a.0 + b.0 + seq![self.flag]));
        Ok(())
    }

    /// Read a header.
    pub fn read(widths: &FrameFieldWidths, reader: &mut BitReader<'_>) -> (header: Result<
        Self,
        FrameBitsError,
    >)
        requires
            widths.wf(),
            old(reader).wf(),
        ensures
            final(reader).wf(),
            final(reader).consumed() == old(reader).consumed() + (old(reader)@.len()
                - final(reader)@.len()),
            (header, final(reader)@) == read_header(*widths, old(reader)@),
    {
        let reservoir_offset: u32 = match read_uint(reader, widths.byte_offset_bits) {
            Ok(v) => v,
            Err(e) => {
                return Err(e);
            },
        };
        let side_field: u32 = match read_uint(reader, widths.side_field_bits) {
            Ok(v) => v,
            Err(e) => {
                return Err(e);
            },
        };
        let flag = match read_bool(reader) {
            Ok(v) => v,
            Err(e) => {
                return Err(e);
            },
        };
        Ok(FrameHeaderFields { reservoir_offset, side_field, flag })
    }
}

/// A header that was written is read back, and what follows it is left.
pub proof fn header_round_trip(h: FrameHeaderFields, widths: FrameFieldWidths, rest: Seq<bool>)
    requires
        widths.wf(),
        emit_header(h, widths).1 is None,
    ensures
        read_header(widths, emit_header(h, widths).0 + rest) == (
            Ok::<FrameHeaderFields, FrameBitsError>(h),
            rest,
        ),
{
    let a = bits_of(h.reservoir_offset as nat, widths.byte_offset_bits as nat);
    let b = bits_of(h.side_field as nat, widths.side_field_bits as nat);
    let f = seq![h.flag];
    assert(emit_header(h, widths).0 == a + b + f);
    lemma_regroup(a, b, f, rest);
    lemma_number_round_trip(
        h.reservoir_offset as nat,
        widths.byte_offset_bits as nat,
        b + (f + rest),
    );
    lemma_number_round_trip(h.side_field as nat, widths.side_field_bits as nat, f + rest);
    lemma_flag_round_trip(h.flag, rest);
}

proof fn lemma_header_extends(widths: FrameFieldWidths, x: Seq<bool>, y: Seq<bool>)
    requires
        read_header(widths, x).0 is Ok,
    ensures
        read_header(widths, x + y) == (read_header(widths, x).0, read_header(widths, x).1 + y),
{
    lemma_number_extends(x, y, widths.byte_offset_bits as nat);
    let (_, rest) = read_number(x, widths.byte_offset_bits as nat);
    lemma_number_extends(rest, y, widths.side_field_bits as nat);
    let (_, rest) = read_number(rest, widths.side_field_bits as nat);
    lemma_flag_extends(rest, y);
}

// ------------------------------------------------------------ blocks

/// What a block holds and how: its codes, literal widths and counts.
#[derive(Debug, Clone)]
pub struct BlockPlan<'a> {
    /// The coefficient code.
    pub coef_vlc: &'a CoefVlc,
    /// The gain code.
    pub gain_vlc: &'a GainVlc,
    /// The scale code.
    pub scale_vlc: &'a ScaleVlc,
    /// Widths of the escape literals.
    pub escape: EscapeWidths,
    /// Channels of the stream: one or two.
    pub channels: u8,
    /// Whether the envelope is coded.
    pub envelope_coded: bool,
    /// Gain symbols in a block.
    pub gain_count: usize,
    /// Scale symbols in a block whose envelope is coded.
    pub scale_count: usize,
    /// Coefficients in a block.
    pub coef_count: usize,
}

impl<'a> BlockPlan<'a> {
    /// Whether the codes and widths are sound.
    pub open spec fn wf(&self) -> bool {
        &&& self.coef_vlc.wf()
        &&& self.gain_vlc.wf()
        &&& self.scale_vlc.wf()
        &&& self.escape.wf()
    }

    /// Why no block can be written or read by the plan.
    pub open spec fn fault(&self) -> Option<FrameBitsError> {
        if self.channels != 1 && self.channels != 2 {
            Some(FrameBitsError::PlanMismatch { what: "channel count (must be 1 or 2)" })
        } else if self.coef_count == 0 {
            Some(FrameBitsError::PlanMismatch { what: "coefficient count (must be positive)" })
        } else {
            None
        }
    }

    /// Scale symbols that a block holds.
    pub open spec fn scales(&self) -> nat {
        if self.envelope_coded {
            self.scale_count as nat
        } else {
            0
        }
    }
}

/// The fields of one block.
#[derive(Debug, Clone, PartialEq, Eq)]
pub struct WireBlock {
    /// The block header.
    pub header: u8,
    /// The gain symbols.
    pub gain_symbols: Vec<usize>,
    /// The coupling flag, in streams of two channels.
    pub stereo_coupling: Option<bool>,
    /// The envelope base, zero where the envelope is not coded.
    pub envelope_base: u8,
    /// The scale symbols.
    pub scale_symbols: Vec<usize>,
    /// The coefficients.
    pub coefficients: Vec<i32>,
}

/// The fields of one block, as values.
#[verifier::ext_equal]
pub struct BlockFields {
    /// The block header.
    pub header: u8,
    /// The gain symbols.
    pub gain_symbols: Seq<usize>,
    /// The coupling flag.
    pub stereo_coupling: Option<bool>,
    /// The envelope base.
    pub envelope_base: u8,
    /// The scale symbols.
    pub scale_symbols: Seq<usize>,
    /// The coefficients.
    pub coefficients: Seq<i32>,
}

impl View for WireBlock {
    type V = BlockFields;

    open spec fn view(&self) -> BlockFields {
        BlockFields {
            header: self.header,
            gain_symbols: self.gain_symbols@,
            stereo_coupling: self.stereo_coupling,
            envelope_base: self.envelope_base,
            scale_symbols: self.scale_symbols@,
            coefficients: self.coefficients@,
        }
    }
}

/// Why a block does not have the shape of its plan.
pub open spec fn shape_fault(b: BlockFields, plan: BlockPlan) -> Option<FrameBitsError> {
    if plan.fault() is Some {
        plan.fault()
    } else if b.gain_symbols.len() != plan.gain_count {
        Some(FrameBitsError::PlanMismatch { what: "gain symbol count" })
    } else if (b.stereo_coupling is Some) != (plan.channels == 2) {
        Some(FrameBitsError::PlanMismatch { what: "stereo flag presence" })
    } else if b.scale_symbols.len() != plan.scales() {
        Some(FrameBitsError::PlanMismatch { what: "scale symbol count" })
    } else if b.coefficients.len() != plan.coef_count {
        Some(FrameBitsError::PlanMismatch { what: "coefficient count" })
    } else {
        None
    }
}

/// Writing the coupling flag, where there is one.
pub open spec fn emit_coupling(flag: Option<bool>) -> Emission {
    match flag {
        Some(f) => just(seq![f]),
        None => nothing(),
    }
}

/// Writing the envelope, where it is coded.
pub open spec fn emit_envelope(b: BlockFields, plan: BlockPlan) -> Emission {
    if plan.envelope_coded {
        chain(
            emit_field("envelope_base", b.envelope_base as u32, ENVELOPE_BASE_BITS),
            emit_symbols(plan.scale_vlc.lens(), b.scale_symbols),
        )
    } else {
        nothing()
    }
}

/// Writing what comes before the coefficients.
pub open spec fn emit_side(b: BlockFields, plan: BlockPlan) -> Emission {
    chain(
        chain(
            chain(
                emit_field("block_header", b.header as u32, BLOCK_HEADER_BITS),
                emit_symbols(plan.gain_vlc.lens(), b.gain_symbols),
            ),
            emit_coupling(b.stereo_coupling),
        ),
        emit_envelope(b, plan),
    )
}

/// Writing a block.
pub open spec fn emit_block(b: BlockFields, plan: BlockPlan) -> Emission {
    match shape_fault(b, plan) {
        Some(e) => refuse(e),
        None => chain(
            emit_side(b, plan),
            emit_coefficients(b.coefficients, 0, *plan.coef_vlc, plan.escape),
        ),
    }
}

/// Reading the coupling flag, where there is one.
pub open spec fn read_coupling(plan: BlockPlan, bits: Seq<bool>) -> (
    Result<Option<bool>, FrameBitsError>,
    Seq<bool>,
) {
    if plan.channels == 2 {
        match read_flag(bits) {
            (Err(e), rest) => (Err(e), rest),
            (Ok(f), rest) => (Ok(Some(f)), rest),
        }
    } else {
        (Ok(None), bits)
    }
}

/// Reading the envelope, where it is coded.
pub open spec fn read_envelope(plan: BlockPlan, bits: Seq<bool>) -> (
    Result<(u8, Seq<usize>), FrameBitsError>,
    Seq<bool>,
) {
    if plan.envelope_coded {
        match read_number(bits, ENVELOPE_BASE_BITS as nat) {
            (Err(e), rest) => (Err(e), rest),
            (Ok(base), rest) => match read_symbols(
                plan.scale_vlc.lens(),
                plan.scale_count as nat,
                rest,
            ) {
                (Err(e), rest) => (Err(e), rest),
                (Ok(symbols), rest) => (Ok((base as u8, symbols)), rest),
            },
        }
    } else {
        (Ok((0u8, Seq::empty())), bits)
    }
}

/// Reading what comes before the coefficients; the coefficients are left empty.
pub open spec fn read_side(plan: BlockPlan, bits: Seq<bool>) -> (
    Result<BlockFields, FrameBitsError>,
    Seq<bool>,
) {
    match read_number(bits, BLOCK_HEADER_BITS as nat) {
        (Err(e), rest) => (Err(e), rest),
        (Ok(header), rest) => match read_symbols(
            plan.gain_vlc.lens(),
            plan.gain_count as nat,
            rest,
        ) {
            (Err(e), rest) => (Err(e), rest),
            (Ok(gains), rest) => match read_coupling(plan, rest) {
                (Err(e), rest) => (Err(e), rest),
                (Ok(coupling), rest) => match read_envelope(plan, rest) {
                    (Err(e), rest) => (Err(e), rest),
                    (Ok((base, scales)), rest) => (
                        Ok(
                            BlockFields {
                                header: header as u8,
                                gain_symbols: gains,
                                stereo_coupling: coupling,
                                envelope_base: base,
                                scale_symbols: scales,
                                coefficients: Seq::empty(),
                            },
                        ),
                        rest,
                    ),
                },
            },
        },
    }
}

/// Reading a block.
pub open spec fn read_fields(plan: BlockPlan, bits: Seq<bool>) -> (
    Result<BlockFields, FrameBitsError>,
    Seq<bool>,
) {
    match plan.fault() {
        Some(e) => (Err(e), bits),
        None => match read_side(plan, bits) {
            (Err(e), rest) => (Err(e), rest),
            (Ok(side), rest) => match read_coefs(
                plan.coef_count as nat,
                0,
                zeros(plan.coef_count as nat),
                *plan.coef_vlc,
                plan.escape,
                rest,
            ) {
                (Err(e), rest) => (Err(e), rest),
                (Ok(c), rest) => (Ok(BlockFields { coefficients: c, ..side }), rest),
            },
        },
    }
}

fn validate_plan(plan: &BlockPlan<'_>) -> (done: Result<(), FrameBitsError>)
    ensures
        done == result_of(plan.fault()),
{
    if plan.channels != 1 && plan.channels != 2 {
        return Err(FrameBitsError::PlanMismatch { what: "channel count (must be 1 or 2)" });
    }
    if plan.coef_count == 0 {
        return Err(FrameBitsError::PlanMismatch { what: "coefficient count (must be positive)" });
    }
    Ok(())
}

fn check_shape(block: &WireBlock, plan: &BlockPlan<'_>) -> (done: Result<(), FrameBitsError>)
    ensures
        done == result_of(shape_fault(block@, *plan)),
{
    match validate_plan(plan) {
        Ok(_) => {},
        Err(e) => {
            return Err(e);
        },
    }
    if block.gain_symbols.len() != plan.gain_count {
        return Err(FrameBitsError::PlanMismatch { what: "gain symbol count" });
    }
    if block.stereo_coupling.is_some() != (plan.channels == 2) {
        return Err(FrameBitsError::PlanMismatch { what: "stereo flag presence" });
    }
    let scales: usize = if plan.envelope_coded {
        plan.scale_count
    } else {
        0
    };
    if block.scale_symbols.len() != scales {
        return Err(FrameBitsError::PlanMismatch { what: "scale symbol count" });
    }
    if block.coefficients.len() != plan.coef_count {
        return Err(FrameBitsError::PlanMismatch { what: "coefficient count" });
    }
    Ok(())
}

/// Write gain or scale symbols in order.
fn write_symbols(code: &HuffmanCode, symbols: &Vec<usize>, writer: &mut BitWriter) -> (done: Result<
    (),
    FrameBitsError,
>)
    requires
        code.wf(),
        old(writer).wf(),
    ensures
        final(writer).wf(),
        done == result_of(emit_symbols(code@, symbols@).1),
        final(writer)@ == old(writer)@ + emit_symbols(code@, symbols@).0,
{
    let ghost begin = writer@;
    let mut i: usize = 0;
    proof {
        assert(begin + Seq::<bool>::empty() =~= begin);
    }
    while i < symbols.len()
        invariant
            code.wf(),
            writer.wf(),
            i <= symbols@.len(),
            begin == old(writer)@,
            emit_symbols(code@, symbols@.take(i as int)).1 is None,
            writer@ == begin + emit_symbols(code@, symbols@.take(i as int)).0,
        decreases symbols@.len() - i,
    {
        let ghost before = emit_symbols(code@, symbols@.take(i as int)).0;
        proof {
            assert(symbols@.take(i + 1).drop_last() =~= symbols@.take(i as int));
            assert(before + Seq::<bool>::empty() =~= before);
        }
        match code.encode_symbol(symbols[i], writer) {
            Ok(_) => {},
            Err(e) => {
                proof {
                    lemma_emit_symbols_stop(code@, symbols@, i + 1);
                }
                return Err(FrameBitsError::from(e));
            },
        }
        proof {
            let w = codeword(code@, symbols@[i as int] as int);
            assert(begin + before + w =~= begin + (before + w));
        }
        i = i + 1;
    }
    assert(symbols@.take(i as int) =~= symbols@);
    Ok(())
}

/// Once writing symbols has stopped, further symbols change nothing.
proof fn lemma_emit_symbols_stop(lens: Seq<u8>, symbols: Seq<usize>, k: int)
    requires
        0 <= k <= symbols.len(),
        emit_symbols(lens, symbols.take(k)).1 is Some,
    ensures
        emit_symbols(lens, symbols) == emit_symbols(lens, symbols.take(k)),
    decreases symbols.len() - k,
{
    if k == symbols.len() {
        assert(symbols.take(k) =~= symbols);
    } else {
        assert(symbols.take(k + 1).drop_last() =~= symbols.take(k));
        lemma_emit_symbols_stop(lens, symbols, k + 1);
    }
}

/// Write what comes before the coefficients.
fn write_side(block: &WireBlock, plan: &BlockPlan<'_>, writer: &mut BitWriter) -> (done: Result<
    (),
    FrameBitsError,
>)
    requires
        plan.wf(),
        old(writer).wf(),
    ensures
        final(writer).wf(),
        done == result_of(emit_side(block@, *plan).1),
        final(writer)@ == old(writer)@ + emit_side(block@, *plan).0,
{
    let ghost begin = writer@;
    let ghost b = block@;
    let ghost header = emit_field("block_header", b.header as u32, BLOCK_HEADER_BITS);
    let ghost gains = emit_symbols(plan.gain_vlc.lens(), b.gain_symbols);
    let ghost coupling = emit_coupling(b.stereo_coupling);
    match write_checked(writer, "block_header", block.header as u32, BLOCK_HEADER_BITS) {
        Ok(_) => {},
        Err(e) => {
            return Err(e);
        },
    }
    match write_symbols(plan.gain_vlc.code(), &block.gain_symbols, writer) {
        Ok(_) => {},
        Err(e) => {
            assert(writer@ =~= begin + (header.0 + gains.0));
            return Err(e);
        },
    }
    if let Some(flag) = block.stereo_coupling {
        writer.write_bit(flag);
    }
    let ghost front = header.0 + gains.0 + coupling.0;
    assert(writer@ =~= begin + front);
    if plan.envelope_coded {
        let ghost base = emit_field("envelope_base", b.envelope_base as u32, ENVELOPE_BASE_BITS);
        let ghost scales = emit_symbols(plan.scale_vlc.lens(), b.scale_symbols);
        match write_checked(
            writer,
            "envelope_base",
            block.envelope_base as u32,
            ENVELOPE_BASE_BITS,
        ) {
            Ok(_) => {},
            Err(e) => {
                assert(writer@ =~= begin + (front + base.0));
                return Err(e);
            },
        }
        match write_symbols(plan.scale_vlc.code(), &block.scale_symbols, writer) {
            Ok(_) => {
                assert(writer@ =~= begin + (front + (base.0 + scales.0)));
            },
            Err(e) => {
                assert(writer@ =~= begin + (front + (base.0 + scales.0)));
                return Err(e);
            },
        }
    } else {
        assert(begin + front =~= begin + (front + Seq::<bool>::empty()));
    }
    Ok(())
}

/// Write a block.
pub fn write_block(block: &WireBlock, plan: &BlockPlan<'_>, writer: &mut BitWriter) -> (done: Result<
    (),
    FrameBitsError,
>)
    requires
        plan.wf(),
        old(writer).wf(),
    ensures
        final(writer).wf(),
        done == result_of(emit_block(block@, *plan).1),
        final(writer)@ == old(writer)@ + emit_block(block@, *plan).0,
{
    let ghost begin = writer@;
    match check_shape(block, plan) {
        Ok(_) => {},
        Err(e) => {
            assert(writer@ =~= begin + Seq::<bool>::empty());
            return Err(e);
        },
    }
    let ghost side = emit_side(block@, *plan);
    match write_side(block, plan, writer) {
        Ok(_) => {},
        Err(e) => {
            return Err(e);
        },
    }
    let done = write_coefficients(
        block.coefficients.as_slice(),
        plan.coef_vlc,
        plan.escape,
        writer,
    );
    proof {
        let c = emit_coefficients(block.coefficients@, 0, *plan.coef_vlc, plan.escape);
        assert(begin + side.0 + c.0 =~= begin + (side.0 + c.0));
    }
    done
}

/// Read `n` gain or scale symbols.
fn read_in_order(code: &HuffmanCode, n: usize, reader: &mut BitReader<'_>) -> (symbols: Result<
    Vec<usize>,
    FrameBitsError,
>)
    requires
        code.wf(),
        old(reader).wf(),
    ensures
        final(reader).wf(),
        final(reader).consumed() == old(reader).consumed() + (old(reader)@.len()
            - final(reader)@.len()),
        (viewed(symbols), final(reader)@) == read_symbols(code@, n as nat, old(reader)@),
        symbols matches Ok(s) ==> s@.len() == n,
{
    let mut symbols: Vec<usize> = Vec::new();
    let mut i: usize = 0;
    while i < n
        invariant
            code.wf(),
            reader.wf(),
            i <= n,
            symbols@.len() == i,
            reader.consumed() == old(reader).consumed() + (old(reader)@.len() - reader@.len()),
            read_symbols(code@, i as nat, old(reader)@) == (
                Ok::<Seq<usize>, FrameBitsError>(symbols@),
                reader@,
            ),
        decreases n - i,
    {
        match code.decode_symbol(reader) {
            Ok(s) => {
                symbols.push(s);
            },
            Err(e) => {
                proof {
                    lemma_read_symbols_stop(code@, (i + 1) as nat, n as nat, old(reader)@);
                }
                return Err(FrameBitsError::from(e));
            },
        }
        i = i + 1;
    }
    Ok(symbols)
}

/// Once reading symbols has failed, asking for more changes nothing.
proof fn lemma_read_symbols_stop(lens: Seq<u8>, k: nat, n: nat, bits: Seq<bool>)
    requires
        k <= n,
        read_symbols(lens, k, bits).0 is Err,
    ensures
        read_symbols(lens, n, bits) == read_symbols(lens, k, bits),
    decreases n - k,
{
    if k < n {
        lemma_read_symbols_stop(lens, k, (n - 1) as nat, bits);
    }
}

/// Read a block.
pub fn read_block(plan: &BlockPlan<'_>, reader: &mut BitReader<'_>) -> (block: Result<
    WireBlock,
    FrameBitsError,
>)
    requires
        plan.wf(),
        old(reader).wf(),
    ensures
        final(reader).wf(),
        final(reader).consumed() == old(reader).consumed() + (old(reader)@.len()
            - final(reader)@.len()),
        final(reader)@ == read_fields(*plan, old(reader)@).1,
        read_fields(*plan, old(reader)@).0 == (match block {
            Ok(b) => Ok::<BlockFields, FrameBitsError>(b@),
            Err(e) => Err(e),
        }),
{
    match validate_plan(plan) {
        Ok(_) => {},
        Err(e) => {
            return Err(e);
        },
    }
    let header: u32 = match read_uint(reader, BLOCK_HEADER_BITS) {
        Ok(v) => v,
        Err(e) => {
            return Err(e);
        },
    };
    proof {
        lemma2_to64();
    }
    let gain_symbols: Vec<usize> = match read_in_order(plan.gain_vlc.code(), plan.gain_count, reader) {
        Ok(v) => v,
        Err(e) => {
            return Err(e);
        },
    };
    let stereo_coupling: Option<bool> = if plan.channels == 2 {
        match read_bool(reader) {
            Ok(f) => Some(f),
            Err(e) => {
                return Err(e);
            },
        }
    } else {
        None
    };
    let mut envelope_base: u8 = 0;
    let mut scale_symbols: Vec<usize> = Vec::new();
    if plan.envelope_coded {
        let base: u32 = match read_uint(reader, ENVELOPE_BASE_BITS) {
            Ok(v) => v,
            Err(e) => {
                return Err(e);
            },
        };
        envelope_base = base as u8;
        scale_symbols = match read_in_order(plan.scale_vlc.code(), plan.scale_count, reader) {
            Ok(v) => v,
            Err(e) => {
                return Err(e);
            },
        };
    }
    let coefficients: Vec<i32> = match read_coefficients(
        plan.coef_count,
        plan.coef_vlc,
        plan.escape,
        reader,
    ) {
        Ok(v) => v,
        Err(e) => {
            return Err(e);
        },
    };
    Ok(
        WireBlock {
            header: header as u8,
            gain_symbols,
            stereo_coupling,
            envelope_base,
            scale_symbols,
            coefficients,
        },
    )
}

proof fn lemma_symbols_round_trip(lens: Seq<u8>, symbols: Seq<usize>, rest: Seq<bool>)
    requires
        crate::huffman::lengths_ok(lens),
        crate::huffman::is_prefix_code(lens),
        emit_symbols(lens, symbols).1 is None,
    ensures
        read_symbols(lens, symbols.len(), emit_symbols(lens, symbols).0 + rest) == (
            Ok::<Seq<usize>, FrameBitsError>(symbols),
            rest,
        ),
    decreases symbols.len(),
{
    if symbols.len() == 0 {
        assert(Seq::<bool>::empty() + rest =~= rest);
        assert(symbols =~= Seq::<usize>::empty());
    } else {
        let init = symbols.drop_last();
        let last = symbols.last();
        let word = codeword(lens, last as int);
        let before = emit_symbols(lens, init).0;
        assert(before + word + rest =~= before + (word + rest));
        lemma_symbols_round_trip(lens, init, word + rest);
        crate::huffman::decode_inverts_encode(lens, last, rest);
        assert(init.push(last) =~= symbols);
    }
}

/// Whether a block holds only what its wire form carries: no run too long to
/// count, and no envelope base where the envelope is not coded.
pub open spec fn carried(b: BlockFields, plan: BlockPlan) -> bool {
    runs_fit(b.coefficients) && (!plan.envelope_coded ==> b.envelope_base == 0)
}

proof fn lemma_coupling_round_trip(flag: Option<bool>, plan: BlockPlan, rest: Seq<bool>)
    requires
        (flag is Some) == (plan.channels == 2),
    ensures
        read_coupling(plan, emit_coupling(flag).0 + rest) == (
            Ok::<Option<bool>, FrameBitsError>(flag),
            rest,
        ),
{
    match flag {
        Some(f) => lemma_flag_round_trip(f, rest),
        None => assert(emit_coupling(flag).0 + rest =~= rest),
    }
}

proof fn lemma_envelope_round_trip(b: BlockFields, plan: BlockPlan, rest: Seq<bool>)
    requires
        plan.wf(),
        b.scale_symbols.len() == plan.scales(),
        !plan.envelope_coded ==> b.envelope_base == 0,
        emit_envelope(b, plan).1 is None,
    ensures
        read_envelope(plan, emit_envelope(b, plan).0 + rest) == (
            Ok::<(u8, Seq<usize>), FrameBitsError>((b.envelope_base, b.scale_symbols)),
            rest,
        ),
{
    let out = emit_envelope(b, plan).0 + rest;
    if plan.envelope_coded {
        lemma2_to64();
        plan.scale_vlc.lemma_wf();
        let base = emit_field("envelope_base", b.envelope_base as u32, ENVELOPE_BASE_BITS);
        let scales = emit_symbols(plan.scale_vlc.lens(), b.scale_symbols);
        assert(out =~= base.0 + (scales.0 + rest));
        lemma_number_round_trip(
            b.envelope_base as nat,
            ENVELOPE_BASE_BITS as nat,
            scales.0 + rest,
        );
        lemma_symbols_round_trip(plan.scale_vlc.lens(), b.scale_symbols, rest);
    } else {
        assert(out =~= rest);
        assert(b.scale_symbols =~= Seq::<usize>::empty());
    }
}

proof fn lemma_side_round_trip(b: BlockFields, plan: BlockPlan, rest: Seq<bool>)
    requires
        plan.wf(),
        !plan.envelope_coded ==> b.envelope_base == 0,
        shape_fault(b, plan) is None,
        emit_side(b, plan).1 is None,
    ensures
        read_side(plan, emit_side(b, plan).0 + rest) == (
            Ok::<BlockFields, FrameBitsError>(BlockFields { coefficients: Seq::empty(), ..b }),
            rest,
        ),
{
    lemma2_to64();
    plan.gain_vlc.lemma_wf();
    let header = emit_field("block_header", b.header as u32, BLOCK_HEADER_BITS);
    let gains = emit_symbols(plan.gain_vlc.lens(), b.gain_symbols);
    let coupling = emit_coupling(b.stereo_coupling);
    let envelope = emit_envelope(b, plan);
    let r3 = envelope.0 + rest;
    let r2 = coupling.0 + r3;
    let r1 = gains.0 + r2;
    assert(emit_side(b, plan).0 + rest =~= header.0 + r1);
    lemma_number_round_trip(b.header as nat, BLOCK_HEADER_BITS as nat, r1);
    lemma_symbols_round_trip(plan.gain_vlc.lens(), b.gain_symbols, r2);
    lemma_coupling_round_trip(b.stereo_coupling, plan, r3);
    lemma_envelope_round_trip(b, plan, rest);
}

/// A block that was written is read back, and what follows it is left.
pub proof fn block_round_trip(b: BlockFields, plan: BlockPlan, rest: Seq<bool>)
    requires
        plan.wf(),
        carried(b, plan),
        emit_block(b, plan).1 is None,
    ensures
        read_fields(plan, emit_block(b, plan).0 + rest) == (
            Ok::<BlockFields, FrameBitsError>(b),
            rest,
        ),
{
    let side = emit_side(b, plan);
    let coefs = emit_coefficients(b.coefficients, 0, *plan.coef_vlc, plan.escape);
    assert(emit_block(b, plan).0 + rest =~= side.0 + (coefs.0 + rest));
    lemma_side_round_trip(b, plan, coefs.0 + rest);
    coefficients_round_trip(b.coefficients, *plan.coef_vlc, plan.escape, rest);
}

proof fn lemma_side_extends(plan: BlockPlan, x: Seq<bool>, y: Seq<bool>)
    requires
        plan.wf(),
        read_side(plan, x).0 is Ok,
    ensures
        read_side(plan, x + y) == (read_side(plan, x).0, read_side(plan, x).1 + y),
{
    plan.gain_vlc.lemma_wf();
    plan.scale_vlc.lemma_wf();
    lemma_number_extends(x, y, BLOCK_HEADER_BITS as nat);
    let (_, r1) = read_number(x, BLOCK_HEADER_BITS as nat);
    lemma_symbols_extend(plan.gain_vlc.lens(), plan.gain_count as nat, r1, y);
    let (_, r2) = read_symbols(plan.gain_vlc.lens(), plan.gain_count as nat, r1);
    if plan.channels == 2 {
        lemma_flag_extends(r2, y);
    }
    let (_, r3) = read_coupling(plan, r2);
    if plan.envelope_coded {
        lemma_number_extends(r3, y, ENVELOPE_BASE_BITS as nat);
        let (_, r4) = read_number(r3, ENVELOPE_BASE_BITS as nat);
        lemma_symbols_extend(plan.scale_vlc.lens(), plan.scale_count as nat, r4, y);
    }
}

proof fn lemma_fields_extend(plan: BlockPlan, x: Seq<bool>, y: Seq<bool>)
    requires
        plan.wf(),
        read_fields(plan, x).0 is Ok,
    ensures
        read_fields(plan, x + y) == (read_fields(plan, x).0, read_fields(plan, x).1 + y),
{
    lemma_side_extends(plan, x, y);
    let (_, rest) = read_side(plan, x);
    lemma_coefs_extend(
        plan.coef_count as nat,
        0,
        zeros(plan.coef_count as nat),
        *plan.coef_vlc,
        plan.escape,
        rest,
        y,
    );
}

/// Blocks are self-delimiting: short of its last bit, what was written is not
/// read as a block.
pub proof fn truncated_block_fails(b: BlockFields, plan: BlockPlan, k: int)
    requires
        plan.wf(),
        carried(b, plan),
        emit_block(b, plan).1 is None,
        0 <= k < emit_block(b, plan).0.len(),
    ensures
        read_fields(plan, emit_block(b, plan).0.take(k)).0 is Err,
{
    let out = emit_block(b, plan).0;
    let (read, rest) = read_fields(plan, out.take(k));
    if read is Ok {
        lemma_fields_extend(plan, out.take(k), out.skip(k));
        assert(out.take(k) + out.skip(k) =~= out + Seq::<bool>::empty());
        block_round_trip(b, plan, Seq::empty());
        assert((rest + out.skip(k)).len() > 0);
    }
}

// ------------------------------------------------------------ frames

/// A frame: its header and each channel's blocks.
#[derive(Debug, Clone, PartialEq, Eq)]
pub struct WireFrame {
    /// The header.
    pub header: FrameHeaderFields,
    /// The blocks of each channel.
    pub channel_blocks: Vec<Vec<WireBlock>>,
}

/// A frame, as values.
#[verifier::ext_equal]
pub struct FrameFields {
    /// The header.
    pub header: FrameHeaderFields,
    /// The blocks of each channel.
    pub channel_blocks: Seq<Seq<BlockFields>>,
}

/// The fields of each of a channel's blocks.
pub open spec fn blocks_view(blocks: Seq<WireBlock>) -> Seq<BlockFields> {
    Seq::new(blocks.len(), |i: int| blocks[i]@)
}

/// The fields of each channel's blocks.
pub open spec fn channels_view(channels: Seq<Vec<WireBlock>>) -> Seq<Seq<BlockFields>> {
    Seq::new(channels.len(), |i: int| blocks_view(channels[i]@))
}

impl View for WireFrame {
    type V = FrameFields;

    open spec fn view(&self) -> FrameFields {
        FrameFields { header: self.header, channel_blocks: channels_view(self.channel_blocks@) }
    }
}

/// Whether every plan is sound.
pub open spec fn plans_wf(plans: Seq<BlockPlan>) -> bool {
    forall|i: int| 0 <= i < plans.len() ==> (#[trigger] plans[i]).wf()
}

/// Why no frame can be written or read by these plans.
pub open spec fn plans_fault(plans: Seq<BlockPlan>) -> Option<FrameBitsError> {
    if plans.len() == 0 {
        Some(FrameBitsError::PlanMismatch { what: "empty plan list" })
    } else if exists|i: int|
        0 <= i < plans.len() && (#[trigger] plans[i]).channels != plans[0].channels {
        Some(FrameBitsError::PlanMismatch { what: "plans disagree on channel count" })
    } else {
        None
    }
}

/// Writing the first `k` blocks of a channel.
pub open spec fn emit_blocks(blocks: Seq<BlockFields>, plans: Seq<BlockPlan>, k: nat) -> Emission
    decreases k,
{
    if k == 0 {
        nothing()
    } else {
        chain(emit_blocks(blocks, plans, (k - 1) as nat), emit_block(blocks[k - 1], plans[k - 1]))
    }
}

/// Writing a channel.
pub open spec fn emit_channel(blocks: Seq<BlockFields>, plans: Seq<BlockPlan>) -> Emission {
    if blocks.len() != plans.len() {
        refuse(FrameBitsError::PlanMismatch { what: "blocks per channel" })
    } else {
        emit_blocks(blocks, plans, blocks.len())
    }
}

/// Writing the first `k` channels.
pub open spec fn emit_channels(
    channels: Seq<Seq<BlockFields>>,
    plans: Seq<BlockPlan>,
    k: nat,
) -> Emission
    decreases k,
{
    if k == 0 {
        nothing()
    } else {
        chain(emit_channels(channels, plans, (k - 1) as nat), emit_channel(channels[k - 1], plans))
    }
}

/// Writing a frame.
pub open spec fn emit_frame(
    f: FrameFields,
    widths: FrameFieldWidths,
    plans: Seq<BlockPlan>,
) -> Emission {
    if plans_fault(plans) is Some {
        (Seq::empty(), plans_fault(plans))
    } else if f.channel_blocks.len() != plans[0].channels {
        refuse(FrameBitsError::PlanMismatch { what: "channel list length" })
    } else {
        chain(
            emit_header(f.header, widths),
            emit_channels(f.channel_blocks, plans, f.channel_blocks.len()),
        )
    }
}

/// Reading the first `k` blocks of a channel.
pub open spec fn read_blocks(plans: Seq<BlockPlan>, k: nat, bits: Seq<bool>) -> (
    Result<Seq<BlockFields>, FrameBitsError>,
    Seq<bool>,
)
    decreases k,
{
    if k == 0 {
        (Ok(Seq::empty()), bits)
    } else {
        match read_blocks(plans, (k - 1) as nat, bits) {
            (Err(e), rest) => (Err(e), rest),
            (Ok(done), rest) => match read_fields(plans[k - 1], rest) {
                (Err(e), rest) => (Err(e), rest),
                (Ok(b), rest) => (Ok(done.push(b)), rest),
            },
        }
    }
}

/// Reading `k` channels.
pub open spec fn read_channels(plans: Seq<BlockPlan>, k: nat, bits: Seq<bool>) -> (
    Result<Seq<Seq<BlockFields>>, FrameBitsError>,
    Seq<bool>,
)
    decreases k,
{
    if k == 0 {
        (Ok(Seq::empty()), bits)
    } else {
        match read_channels(plans, (k - 1) as nat, bits) {
            (Err(e), rest) => (Err(e), rest),
            (Ok(done), rest) => match read_blocks(plans, plans.len(), rest) {
                (Err(e), rest) => (Err(e), rest),
                (Ok(blocks), rest) => (Ok(done.push(blocks)), rest),
            },
        }
    }
}

/// Reading a frame.
pub open spec fn read_frame_fields(
    widths: FrameFieldWidths,
    plans: Seq<BlockPlan>,
    bits: Seq<bool>,
) -> (Result<FrameFields, FrameBitsError>, Seq<bool>) {
    match plans_fault(plans) {
        Some(e) => (Err(e), bits),
        None => match read_header(widths, bits) {
            (Err(e), rest) => (Err(e), rest),
            (Ok(header), rest) => match read_channels(plans, plans[0].channels as nat, rest) {
                (Err(e), rest) => (Err(e), rest),
                (Ok(channel_blocks), rest) => (Ok(FrameFields { header, channel_blocks }), rest),
            },
        },
    }
}

fn frame_channels(plans: &[BlockPlan<'_>]) -> (channels: Result<u8, FrameBitsError>)
    ensures
        match channels {
            Ok(n) => plans_fault(plans@) is None && n == plans@[0].channels,
            Err(e) => plans_fault(plans@) == Some(e),
        },
{
    if plans.len() == 0 {
        return Err(FrameBitsError::PlanMismatch { what: "empty plan list" });
    }
    let channels: u8 = plans[0].channels;
    let mut i: usize = 0;
    while i < plans.len()
        invariant
            i <= plans@.len(),
            plans@.len() > 0,
            channels == plans@[0].channels,
            forall|k: int| 0 <= k < i ==> (#[trigger] plans@[k]).channels == channels,
        decreases plans@.len() - i,
    {
        if plans[i].channels != channels {
            assert(plans@[i as int].channels != plans@[0].channels);
            return Err(FrameBitsError::PlanMismatch { what: "plans disagree on channel count" });
        }
        i = i + 1;
    }
    Ok(channels)
}

/// Once writing a channel's blocks has stopped, further blocks change nothing.
proof fn lemma_emit_blocks_stop(
    blocks: Seq<BlockFields>,
    plans: Seq<BlockPlan>,
    k: nat,
    n: nat,
)
    requires
        k <= n,
        emit_blocks(blocks, plans, k).1 is Some,
    ensures
        emit_blocks(blocks, plans, n) == emit_blocks(blocks, plans, k),
    decreases n - k,
{
    if k < n {
        lemma_emit_blocks_stop(blocks, plans, k, (n - 1) as nat);
    }
}

/// Once writing channels has stopped, further channels change nothing.
proof fn lemma_emit_channels_stop(
    channels: Seq<Seq<BlockFields>>,
    plans: Seq<BlockPlan>,
    k: nat,
    n: nat,
)
    requires
        k <= n,
        emit_channels(channels, plans, k).1 is Some,
    ensures
        emit_channels(channels, plans, n) == emit_channels(channels, plans, k),
    decreases n - k,
{
    if k < n {
        lemma_emit_channels_stop(channels, plans, k, (n - 1) as nat);
    }
}

/// Once reading blocks has failed, asking for more changes nothing.
proof fn lemma_read_blocks_stop(plans: Seq<BlockPlan>, k: nat, n: nat, bits: Seq<bool>)
    requires
        k <= n,
        read_blocks(plans, k, bits).0 is Err,
    ensures
        read_blocks(plans, n, bits) == read_blocks(plans, k, bits),
    decreases n - k,
{
    if k < n {
        lemma_read_blocks_stop(plans, k, (n - 1) as nat, bits);
    }
}

/// Once reading channels has failed, asking for more changes nothing.
proof fn lemma_read_channels_stop(plans: Seq<BlockPlan>, k: nat, n: nat, bits: Seq<bool>)
    requires
        k <= n,
        read_channels(plans, k, bits).0 is Err,
    ensures
        read_channels(plans, n, bits) == read_channels(plans, k, bits),
    decreases n - k,
{
    if k < n {
        lemma_read_channels_stop(plans, k, (n - 1) as nat, bits);
    }
}

/// Write a channel's blocks.
fn write_channel(blocks: &Vec<WireBlock>, plans: &[BlockPlan<'_>], writer: &mut BitWriter) -> (
done: Result<(), FrameBitsError>)
    requires
        plans_wf(plans@),
        old(writer).wf(),
    ensures
        final(writer).wf(),
        done == result_of(emit_channel(blocks_view(blocks@), plans@).1),
        final(writer)@ == old(writer)@ + emit_channel(blocks_view(blocks@), plans@).0,
{
    let ghost begin = writer@;
    let ghost fields = blocks_view(blocks@);
    proof {
        assert(begin + Seq::<bool>::empty() =~= begin);
    }
    if blocks.len() != plans.len() {
        return Err(FrameBitsError::PlanMismatch { what: "blocks per channel" });
    }
    let mut i: usize = 0;
    while i < blocks.len()
        invariant
            plans_wf(plans@),
            writer.wf(),
            i <= blocks@.len() == plans@.len(),
            fields == blocks_view(blocks@),
            begin == old(writer)@,
            emit_blocks(fields, plans@, i as nat).1 is None,
            writer@ == begin + emit_blocks(fields, plans@, i as nat).0,
        decreases blocks@.len() - i,
    {
        let ghost before = emit_blocks(fields, plans@, i as nat).0;
        let ghost one = emit_block(blocks@[i as int]@, plans@[i as int]);
        assert(plans@[i as int].wf());
        assert(fields[i as int] == blocks@[i as int]@);
        match write_block(&blocks[i], &plans[i], writer) {
            Ok(_) => {},
            Err(e) => {
                proof {
                    assert(begin + before + one.0 =~= begin + (before + one.0));
                    lemma_emit_blocks_stop(fields, plans@, (i + 1) as nat, blocks@.len());
                }
                return Err(e);
            },
        }
        proof {
            assert(begin + before + one.0 =~= begin + (before + one.0));
        }
        i = i + 1;
    }
    Ok(())
}

/// Write a frame. A channel's block count is looked at when its turn comes.
pub fn write_frame(
    frame: &WireFrame,
    widths: &FrameFieldWidths,
    plans: &[BlockPlan<'_>],
    writer: &mut BitWriter,
) -> (done: Result<(), FrameBitsError>)
    requires
        widths.wf(),
        plans_wf(plans@),
        old(writer).wf(),
    ensures
        final(writer).wf(),
        done == result_of(emit_frame(frame@, *widths, plans@).1),
        final(writer)@ == old(writer)@ + emit_frame(frame@, *widths, plans@).0,
{
    let ghost begin = writer@;
    let ghost channels = channels_view(frame.channel_blocks@);
    let ghost header = emit_header(frame.header, *widths);
    proof {
        assert(begin + Seq::<bool>::empty() =~= begin);
    }
    let count: u8 = match frame_channels(plans) {
        Ok(n) => n,
        Err(e) => {
            return Err(e);
        },
    };
    if frame.channel_blocks.len() != count as usize {
        return Err(FrameBitsError::PlanMismatch { what: "channel list length" });
    }
    match frame.header.write(widths, writer) {
        Ok(_) => {},
        Err(e) => {
            return Err(e);
        },
    }
    let ghost mid = writer@;
    let mut i: usize = 0;
    proof {
        assert(mid + Seq::<bool>::empty() =~= mid);
    }
    while i < frame.channel_blocks.len()
        invariant
            plans_wf(plans@),
            writer.wf(),
            begin == old(writer)@,
            mid == begin + header.0,
            header == emit_header(frame.header, *widths),
            header.1 is None,
            plans_fault(plans@) is None,
            frame.channel_blocks@.len() == plans@[0].channels,
            i <= frame.channel_blocks@.len(),
            channels == channels_view(frame.channel_blocks@),
            emit_channels(channels, plans@, i as nat).1 is None,
            writer@ == mid + emit_channels(channels, plans@, i as nat).0,
        decreases frame.channel_blocks@.len() - i,
    {
        let ghost before = emit_channels(channels, plans@, i as nat).0;
        let ghost one = emit_channel(channels[i as int], plans@);
        match write_channel(&frame.channel_blocks[i], plans, writer) {
            Ok(_) => {},
            Err(e) => {
                proof {
                    assert(begin + header.0 + before + one.0 =~= begin + (header.0 + (before
                        + one.0)));
                    lemma_emit_channels_stop(channels, plans@, (i + 1) as nat, channels.len());
                }
                return Err(e);
            },
        }
        proof {
            assert(mid + before + one.0 =~= mid + (before + one.0));
        }
        i = i + 1;
    }
    proof {
        let all = emit_channels(channels, plans@, channels.len()).0;
        assert(begin + header.0 + all =~= begin + (header.0 + all));
    }
    Ok(())
}

/// Read a channel's blocks.
fn read_channel(plans: &[BlockPlan<'_>], reader: &mut BitReader<'_>) -> (blocks: Result<
    Vec<WireBlock>,
    FrameBitsError,
>)
    requires
        plans_wf(plans@),
        old(reader).wf(),
    ensures
        final(reader).wf(),
        final(reader).consumed() == old(reader).consumed() + (old(reader)@.len()
            - final(reader)@.len()),
        final(reader)@ == read_blocks(plans@, plans@.len(), old(reader)@).1,
        read_blocks(plans@, plans@.len(), old(reader)@).0 == (match blocks {
            Ok(b) => Ok::<Seq<BlockFields>, FrameBitsError>(blocks_view(b@)),
            Err(e) => Err(e),
        }),
{
    let mut blocks: Vec<WireBlock> = Vec::new();
    let mut i: usize = 0;
    proof {
        assert(blocks_view(blocks@) =~= Seq::<BlockFields>::empty());
    }
    while i < plans.len()
        invariant
            plans_wf(plans@),
            reader.wf(),
            i <= plans@.len(),
            reader.consumed() == old(reader).consumed() + (old(reader)@.len() - reader@.len()),
            read_blocks(plans@, i as nat, old(reader)@) == (
                Ok::<Seq<BlockFields>, FrameBitsError>(blocks_view(blocks@)),
                reader@,
            ),
        decreases plans@.len() - i,
    {
        assert(plans@[i as int].wf());
        let ghost before = blocks@;
        match read_block(&plans[i], reader) {
            Ok(b) => {
                blocks.push(b);
                assert(blocks_view(blocks@) =~= blocks_view(before).push(b@));
            },
            Err(e) => {
                proof {
                    lemma_read_blocks_stop(plans@, (i + 1) as nat, plans@.len(), old(reader)@);
                }
                return Err(e);
            },
        }
        i = i + 1;
    }
    Ok(blocks)
}

/// Read a frame.
pub fn read_frame(
    widths: &FrameFieldWidths,
    plans: &[BlockPlan<'_>],
    reader: &mut BitReader<'_>,
) -> (frame: Result<WireFrame, FrameBitsError>)
    requires
        widths.wf(),
        plans_wf(plans@),
        old(reader).wf(),
    ensures
        final(reader).wf(),
        final(reader).consumed() == old(reader).consumed() + (old(reader)@.len()
            - final(reader)@.len()),
        final(reader)@ == read_frame_fields(*widths, plans@, old(reader)@).1,
        read_frame_fields(*widths, plans@, old(reader)@).0 == (match frame {
            Ok(f) => Ok::<FrameFields, FrameBitsError>(f@),
            Err(e) => Err(e),
        }),
{
    let count: u8 = match frame_channels(plans) {
        Ok(n) => n,
        Err(e) => {
            return Err(e);
        },
    };
    let header = match FrameHeaderFields::read(widths, reader) {
        Ok(h) => h,
        Err(e) => {
            return Err(e);
        },
    };
    let ghost mid = reader@;
    let mut channel_blocks: Vec<Vec<WireBlock>> = Vec::new();
    let mut i: u8 = 0;
    proof {
        assert(channels_view(channel_blocks@) =~= Seq::<Seq<BlockFields>>::empty());
    }
    while i < count
        invariant
            plans_wf(plans@),
            reader.wf(),
            i <= count,
            plans_fault(plans@) is None,
            count == plans@[0].channels,
            read_header(*widths, old(reader)@) == (
                Ok::<FrameHeaderFields, FrameBitsError>(header),
                mid,
            ),
            reader.consumed() == old(reader).consumed() + (old(reader)@.len() - reader@.len()),
            read_channels(plans@, i as nat, mid) == (
                Ok::<Seq<Seq<BlockFields>>, FrameBitsError>(channels_view(channel_blocks@)),
                reader@,
            ),
        decreases count - i,
    {
        let ghost before = channel_blocks@;
        match read_channel(plans, reader) {
            Ok(b) => {
                channel_blocks.push(b);
                assert(channels_view(channel_blocks@) =~= channels_view(before).push(
                    blocks_view(b@),
                ));
            },
            Err(e) => {
                proof {
                    lemma_read_channels_stop(plans@, (i + 1) as nat, count as nat, mid);
                }
                return Err(e);
            },
        }
        i = i + 1;
    }
    Ok(WireFrame { header, channel_blocks })
}

/// Whether every block holds only what its wire form carries.
pub open spec fn frame_carried(f: FrameFields, plans: Seq<BlockPlan>) -> bool {
    forall|c: int, b: int|
        0 <= c < f.channel_blocks.len() && 0 <= b < f.channel_blocks[c].len() && b < plans.len()
            ==> carried(#[trigger] f.channel_blocks[c][b], plans[b])
}

proof fn lemma_blocks_round_trip(
    blocks: Seq<BlockFields>,
    plans: Seq<BlockPlan>,
    k: nat,
    rest: Seq<bool>,
)
    requires
        plans_wf(plans),
        k <= blocks.len() == plans.len(),
        forall|b: int| 0 <= b < k ==> carried(#[trigger] blocks[b], plans[b]),
        emit_blocks(blocks, plans, k).1 is None,
    ensures
        read_blocks(plans, k, emit_blocks(blocks, plans, k).0 + rest) == (
            Ok::<Seq<BlockFields>, FrameBitsError>(blocks.take(k as int)),
            rest,
        ),
    decreases k,
{
    if k == 0 {
        assert(Seq::<bool>::empty() + rest =~= rest);
        assert(blocks.take(0) =~= Seq::<BlockFields>::empty());
    } else {
        let j = (k - 1) as nat;
        let before = emit_blocks(blocks, plans, j).0;
        let one = emit_block(blocks[j as int], plans[j as int]).0;
        assert(before + one + rest =~= before + (one + rest));
        lemma_blocks_round_trip(blocks, plans, j, one + rest);
        assert(plans[j as int].wf());
        block_round_trip(blocks[j as int], plans[j as int], rest);
        assert(blocks.take(j as int).push(blocks[j as int]) =~= blocks.take(k as int));
    }
}

proof fn lemma_channels_round_trip(f: FrameFields, plans: Seq<BlockPlan>, k: nat, rest: Seq<bool>)
    requires
        plans_wf(plans),
        frame_carried(f, plans),
        k <= f.channel_blocks.len(),
        emit_channels(f.channel_blocks, plans, k).1 is None,
    ensures
        read_channels(plans, k, emit_channels(f.channel_blocks, plans, k).0 + rest) == (
            Ok::<Seq<Seq<BlockFields>>, FrameBitsError>(f.channel_blocks.take(k as int)),
            rest,
        ),
    decreases k,
{
    let all = f.channel_blocks;
    if k == 0 {
        assert(Seq::<bool>::empty() + rest =~= rest);
        assert(all.take(0) =~= Seq::<Seq<BlockFields>>::empty());
    } else {
        let j = (k - 1) as nat;
        let blocks = all[j as int];
        let before = emit_channels(all, plans, j).0;
        let one = emit_channel(blocks, plans).0;
        assert(before + one + rest =~= before + (one + rest));
        lemma_channels_round_trip(f, plans, j, one + rest);
        assert forall|b: int| 0 <= b < blocks.len() implies carried(
            #[trigger] blocks[b],
            plans[b],
        ) by {
            assert(carried(f.channel_blocks[j as int][b], plans[b]));
        }
        lemma_blocks_round_trip(blocks, plans, blocks.len(), rest);
        assert(blocks.take(blocks.len() as int) =~= blocks);
        assert(all.take(j as int).push(blocks) =~= all.take(k as int));
    }
}

/// A frame that was written is read back, and what follows it is left.
pub proof fn frame_round_trip(
    f: FrameFields,
    widths: FrameFieldWidths,
    plans: Seq<BlockPlan>,
    rest: Seq<bool>,
)
    requires
        widths.wf(),
        plans_wf(plans),
        frame_carried(f, plans),
        emit_frame(f, widths, plans).1 is None,
    ensures
        read_frame_fields(widths, plans, emit_frame(f, widths, plans).0 + rest) == (
            Ok::<FrameFields, FrameBitsError>(f),
            rest,
        ),
{
    let n = f.channel_blocks.len();
    let header = emit_header(f.header, widths).0;
    let body = emit_channels(f.channel_blocks, plans, n).0;
    assert(emit_frame(f, widths, plans).0 + rest =~= header + (body + rest));
    header_round_trip(f.header, widths, body + rest);
    lemma_channels_round_trip(f, plans, n, rest);
    assert(f.channel_blocks.take(n as int) =~= f.channel_blocks);
}

proof fn lemma_blocks_extend(plans: Seq<BlockPlan>, k: nat, x: Seq<bool>, y: Seq<bool>)
    requires
        plans_wf(plans),
        k <= plans.len(),
        read_blocks(plans, k, x).0 is Ok,
    ensures
        read_blocks(plans, k, x + y) == (read_blocks(plans, k, x).0, read_blocks(plans, k, x).1 + y),
    decreases k,
{
    if k > 0 {
        lemma_blocks_extend(plans, (k - 1) as nat, x, y);
        assert(plans[k - 1].wf());
        lemma_fields_extend(plans[k - 1], read_blocks(plans, (k - 1) as nat, x).1, y);
    }
}

proof fn lemma_channels_extend(plans: Seq<BlockPlan>, k: nat, x: Seq<bool>, y: Seq<bool>)
    requires
        plans_wf(plans),
        read_channels(plans, k, x).0 is Ok,
    ensures
        read_channels(plans, k, x + y) == (
            read_channels(plans, k, x).0,
            read_channels(plans, k, x).1 + y,
        ),
    decreases k,
{
    if k > 0 {
        lemma_channels_extend(plans, (k - 1) as nat, x, y);
        lemma_blocks_extend(plans, plans.len(), read_channels(plans, (k - 1) as nat, x).1, y);
    }
}

/// A frame that is read is read whatever follows it.
proof fn lemma_frame_extends(
    widths: FrameFieldWidths,
    plans: Seq<BlockPlan>,
    x: Seq<bool>,
    y: Seq<bool>,
)
    requires
        plans_wf(plans),
        read_frame_fields(widths, plans, x).0 is Ok,
    ensures
        read_frame_fields(widths, plans, x + y) == (
            read_frame_fields(widths, plans, x).0,
            read_frame_fields(widths, plans, x).1 + y,
        ),
{
    lemma_header_extends(widths, x, y);
    lemma_channels_extend(plans, plans[0].channels as nat, read_header(widths, x).1, y);
}

proof fn lemma_cut(out: Seq<bool>, k: int)
    requires
        0 <= k < out.len(),
    ensures
        out.take(k) + out.skip(k) == out + Seq::<bool>::empty(),
        out.skip(k).len() > 0,
{
    assert(out.take(k) + out.skip(k) =~= out + Seq::<bool>::empty());
}

/// Frames are self-delimiting: short of its last bit, what was written is not
/// read as a frame.
pub proof fn truncated_frame_fails(
    f: FrameFields,
    widths: FrameFieldWidths,
    plans: Seq<BlockPlan>,
    k: int,
)
    requires
        widths.wf(),
        plans_wf(plans),
        frame_carried(f, plans),
        emit_frame(f, widths, plans).1 is None,
        0 <= k < emit_frame(f, widths, plans).0.len(),
    ensures
        read_frame_fields(widths, plans, emit_frame(f, widths, plans).0.take(k)).0 is Err,
{
    let out = emit_frame(f, widths, plans).0;
    let x = out.take(k);
    let y = out.skip(k);
    let (read, rest) = read_frame_fields(widths, plans, x);
    if read is Ok {
        lemma_frame_extends(widths, plans, x, y);
        lemma_cut(out, k);
        frame_round_trip(f, widths, plans, Seq::empty());
        assert((rest + y).len() > 0);
    }
}

} // verus!

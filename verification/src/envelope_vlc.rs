//! The gain-delta and scale-delta codes of the spectral envelope.
//!
//! A symbol stands for a signed delta: the symbol's distance from the code's
//! centre symbol.
use crate::bitio::{BitReader, BitWriter};
use crate::huffman::{
    build_outcome, codeword, max_length, read_symbol, HuffmanCode, HuffmanError,
};
use vstd::prelude::*;

verus! {

/// The scale symbol that stands for no change.
pub const SCALE_DELTA_CENTER: usize = 60;

/// Number of scale symbols.
pub const SCALE_SYMBOLS: usize = 121;

/// The gain symbol that stands for no change.
pub const GAIN_DELTA_CENTER: usize = 18;

/// Number of gain symbols.
pub const GAIN_SYMBOLS: usize = 37;

/// The delta that `symbol` of an alphabet of `count` stands for.
pub open spec fn delta_in(count: int, center: int, symbol: int) -> Option<int> {
    if 0 <= symbol < count {
        Some(symbol - center)
    } else {
        None
    }
}

/// The symbol of an alphabet of `count` that stands for `delta`.
pub open spec fn symbol_in(count: int, center: int, delta: int) -> Option<int> {
    if 0 <= delta + center < count {
        Some(delta + center)
    } else {
        None
    }
}

/// Deltas and symbols name each other.
pub proof fn deltas_round_trip(count: int, center: int, symbol: int, delta: int)
    ensures
        delta_in(count, center, symbol) matches Some(d) ==> symbol_in(count, center, d) == Some(
            symbol,
        ),
        symbol_in(count, center, delta) matches Some(s) ==> delta_in(count, center, s) == Some(
            delta,
        ),
{
}

/// The scale-delta code.
#[derive(Debug, Clone, PartialEq, Eq)]
pub struct ScaleVlc {
    code: HuffmanCode,
}

impl ScaleVlc {
    /// The code's lengths.
    pub closed spec fn lens(&self) -> Seq<u8> {
        self.code@
    }

    /// The invariant: a code over all scale symbols.
    pub closed spec fn wf(&self) -> bool {
        self.code.wf() && self.code@.len() == SCALE_SYMBOLS
    }

    /// Build the code from its lengths, which must fill the code space.
    pub fn new(lengths: &[u8; 121]) -> (vlc: Result<Self, HuffmanError>)
        ensures
            match vlc {
                Ok(v) => {
                    &&& v.wf()
                    &&& v.lens() == lengths@
                    &&& crate::huffman::lengths_ok(lengths@)
                    &&& crate::huffman::is_complete(lengths@)
                },
                Err(e) => build_outcome(lengths@, true, Err(e)),
            },
    {
        match HuffmanCode::from_lengths(lengths.as_slice()) {
            Ok(code) => Ok(ScaleVlc { code }),
            Err(e) => Err(e),
        }
    }

    /// What `wf` says of the lengths.
    pub proof fn lemma_wf(&self)
        requires
            self.wf(),
        ensures
            crate::huffman::lengths_ok(self.lens()),
            crate::huffman::is_prefix_code(self.lens()),
            self.lens().len() == SCALE_SYMBOLS,
    {
        self.code.lemma_wf();
    }

    /// Number of symbols.
    pub fn symbol_count(&self) -> (n: usize)
        requires
            self.wf(),
        ensures
            n == self.lens().len(),
            n == SCALE_SYMBOLS,
    {
        self.code.len()
    }

    /// Longest code length.
    pub fn max_len(&self) -> (len: u8)
        requires
            self.wf(),
        ensures
            len == max_length(self.lens()),
    {
        self.code.max_len()
    }

    /// The prefix code.
    pub fn code(&self) -> (code: &HuffmanCode)
        requires
            self.wf(),
        ensures
            code.wf(),
            code@ == self.lens(),
    {
        &self.code
    }

    /// The delta that `symbol` stands for.
    pub fn delta_of(&self, symbol: usize) -> (delta: Option<i32>)
        requires
            self.wf(),
        ensures
            match delta {
                Some(d) => delta_in(121, 60, symbol as int) == Some(d as int),
                None => delta_in(121, 60, symbol as int) is None,
            },
    {
        if symbol < self.symbol_count() {
            Some(symbol as i32 - SCALE_DELTA_CENTER as i32)
        } else {
            None
        }
    }

    /// The symbol that stands for `delta`.
    pub fn symbol_of_delta(&self, delta: i32) -> (symbol: Option<usize>)
        requires
            self.wf(),
        ensures
            match symbol {
                Some(s) => symbol_in(121, 60, delta as int) == Some(s as int),
                None => symbol_in(121, 60, delta as int) is None,
            },
    {
        match delta.checked_add(SCALE_DELTA_CENTER as i32) {
            Some(symbol) if symbol >= 0 && (symbol as usize) < self.symbol_count() => Some(
                symbol as usize,
            ),
            _ => None,
        }
    }

    /// Append the codeword of `symbol`.
    pub fn encode_symbol(&self, symbol: usize, writer: &mut BitWriter) -> (done: Result<
        (),
        HuffmanError,
    >)
        requires
            self.wf(),
            old(writer).wf(),
        ensures
            final(writer).wf(),
            match done {
                Ok(_) => {
                    &&& symbol < self.lens().len()
                    &&& final(writer)@ == old(writer)@ + codeword(self.lens(), symbol as int)
                },
                Err(e) => {
                    &&& symbol >= self.lens().len()
                    &&& e == (HuffmanError::SymbolOutOfRange {
                        symbol,
                        alphabet: self.lens().len() as usize,
                    })
                    &&& *final(writer) == *old(writer)
                },
            },
    {
        self.code.encode_symbol(symbol, writer)
    }

    /// Read one codeword and return its symbol.
    pub fn decode_symbol(&self, reader: &mut BitReader<'_>) -> (symbol: Result<usize, HuffmanError>)
        requires
            self.wf(),
            old(reader).wf(),
        ensures
            final(reader).wf(),
            (symbol, final(reader)@) == read_symbol(self.lens(), old(reader)@),
            final(reader).consumed() == old(reader).consumed() + (old(reader)@.len()
                - final(reader)@.len()),
            symbol matches Ok(s) ==> s < self.lens().len(),
    {
        self.code.decode_symbol(reader)
    }
}

/// The gain-delta code.
#[derive(Debug, Clone, PartialEq, Eq)]
pub struct GainVlc {
    code: HuffmanCode,
}

impl GainVlc {
    /// The code's lengths.
    pub closed spec fn lens(&self) -> Seq<u8> {
        self.code@
    }

    /// The invariant: a code over all gain symbols.
    pub closed spec fn wf(&self) -> bool {
        self.code.wf() && self.code@.len() == GAIN_SYMBOLS
    }

    /// Build the code from its lengths, which must fill the code space.
    pub fn new(lengths: &[u8; 37]) -> (vlc: Result<Self, HuffmanError>)
        ensures
            match vlc {
                Ok(v) => {
                    &&& v.wf()
                    &&& v.lens() == lengths@
                    &&& crate::huffman::lengths_ok(lengths@)
                    &&& crate::huffman::is_complete(lengths@)
                },
                Err(e) => build_outcome(lengths@, true, Err(e)),
            },
    {
        match HuffmanCode::from_lengths(lengths.as_slice()) {
            Ok(code) => Ok(GainVlc { code }),
            Err(e) => Err(e),
        }
    }

    /// What `wf` says of the lengths.
    pub proof fn lemma_wf(&self)
        requires
            self.wf(),
        ensures
            crate::huffman::lengths_ok(self.lens()),
            crate::huffman::is_prefix_code(self.lens()),
            self.lens().len() == GAIN_SYMBOLS,
    {
        self.code.lemma_wf();
    }

    /// Number of symbols.
    pub fn symbol_count(&self) -> (n: usize)
        requires
            self.wf(),
        ensures
            n == self.lens().len(),
            n == GAIN_SYMBOLS,
    {
        self.code.len()
    }

    /// Longest code length.
    pub fn max_len(&self) -> (len: u8)
        requires
            self.wf(),
        ensures
            len == max_length(self.lens()),
    {
        self.code.max_len()
    }

    /// The prefix code.
    pub fn code(&self) -> (code: &HuffmanCode)
        requires
            self.wf(),
        ensures
            code.wf(),
            code@ == self.lens(),
    {
        &self.code
    }

    /// The delta that `symbol` stands for.
    pub fn delta_of(&self, symbol: usize) -> (delta: Option<i32>)
        requires
            self.wf(),
        ensures
            match delta {
                Some(d) => delta_in(37, 18, symbol as int) == Some(d as int),
                None => delta_in(37, 18, symbol as int) is None,
            },
    {
        if symbol < self.symbol_count() {
            Some(symbol as i32 - GAIN_DELTA_CENTER as i32)
        } else {
            None
        }
    }

    /// The symbol that stands for `delta`.
    pub fn symbol_of_delta(&self, delta: i32) -> (symbol: Option<usize>)
        requires
            self.wf(),
        ensures
            match symbol {
                Some(s) => symbol_in(37, 18, delta as int) == Some(s as int),
                None => symbol_in(37, 18, delta as int) is None,
            },
    {
        match delta.checked_add(GAIN_DELTA_CENTER as i32) {
            Some(symbol) if symbol >= 0 && (symbol as usize) < self.symbol_count() => Some(
                symbol as usize,
            ),
            _ => None,
        }
    }

    /// Append the codeword of `symbol`.
    pub fn encode_symbol(&self, symbol: usize, writer: &mut BitWriter) -> (done: Result<
        (),
        HuffmanError,
    >)
        requires
            self.wf(),
            old(writer).wf(),
        ensures
            final(writer).wf(),
            match done {
                Ok(_) => {
                    &&& symbol < self.lens().len()
                    &&& final(writer)@ == old(writer)@ + codeword(self.lens(), symbol as int)
                },
                Err(e) => {
                    &&& symbol >= self.lens().len()
                    &&& e == (HuffmanError::SymbolOutOfRange {
                        symbol,
                        alphabet: self.lens().len() as usize,
                    })
                    &&& *final(writer) == *old(writer)
                },
            },
    {
        self.code.encode_symbol(symbol, writer)
    }

    /// Read one codeword and return its symbol.
    pub fn decode_symbol(&self, reader: &mut BitReader<'_>) -> (symbol: Result<usize, HuffmanError>)
        requires
            self.wf(),
            old(reader).wf(),
        ensures
            final(reader).wf(),
            (symbol, final(reader)@) == read_symbol(self.lens(), old(reader)@),
            final(reader).consumed() == old(reader).consumed() + (old(reader)@.len()
                - final(reader)@.len()),
            symbol matches Ok(s) ==> s < self.lens().len(),
    {
        self.code.decode_symbol(reader)
    }
}

/// Both alphabets are symmetric about their centre: 121 scale symbols stand for the deltas
/// from -60 to 60, and 37 gain symbols for those from -18 to 18, and the symbols of a delta
/// and of its opposite add up to the last symbol.
pub proof fn alphabets_are_symmetric(delta: int)
    ensures
        symbol_in(121, 60, delta) is Some <==> -60 <= delta <= 60,
        symbol_in(37, 18, delta) is Some <==> -18 <= delta <= 18,
        -60 <= delta <= 60 ==> symbol_in(121, 60, delta)->0 + symbol_in(121, 60, -delta)->0 == 120,
        -18 <= delta <= 18 ==> symbol_in(37, 18, delta)->0 + symbol_in(37, 18, -delta)->0 == 36,
        symbol_in(121, 60, delta) is Some && symbol_in(121, 60, delta + 1) is Some ==> symbol_in(
            121,
            60,
            delta + 1,
        )->0 == symbol_in(121, 60, delta)->0 + 1,
        symbol_in(37, 18, delta) is Some && symbol_in(37, 18, delta + 1) is Some ==> symbol_in(
            37,
            18,
            delta + 1,
        )->0 == symbol_in(37, 18, delta)->0 + 1,
{
}

} // verus!

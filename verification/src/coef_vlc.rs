//! The coefficient run-level codes: which table a stream uses, and what its
//! symbols stand for.
//!
//! Symbol 0 ends a block, symbol 1 escapes to literals, and each further symbol
//! stands for a run and a magnitude, listed in a companion map. The sign of a
//! coefficient is not part of its symbol.
use crate::binary64::Binary64;
use crate::bitio::{BitReader, BitWriter};
use crate::huffman::{
    build_outcome, codeword, max_length, read_symbol, HuffmanCode, HuffmanError,
};
use crate::text::{append_decimal, decimal};
use vstd::prelude::*;
use vstd::string::*;

verus! {

/// A run and a magnitude.
pub type RunLevel = (u16, u16);

/// The symbol that ends a block.
pub const COEF_EOB_SYMBOL: u16 = 0;

/// The symbol that escapes to literals.
pub const COEF_ESCAPE_SYMBOL: u16 = 1;

/// The first symbol that stands for a run and a magnitude.
pub const COEF_RUNLEVEL_BASE_SYMBOL: u16 = 2;

/// The code lengths of the five coefficient codes and the companion maps of the
/// three primary ones.
#[derive(Debug, Clone)]
pub struct CoefTables {
    /// Code lengths of class 1.
    pub mode1_lengths: Vec<u8>,
    /// Code lengths of class 2.
    pub mode2_lengths: Vec<u8>,
    /// Code lengths of class 3.
    pub mode3_lengths: Vec<u8>,
    /// Code lengths of the alternative of class 1.
    pub class1_alt_lengths: Vec<u8>,
    /// Code lengths of the alternative of class 3.
    pub class3_alt_lengths: Vec<u8>,
    /// Companion map of class 1.
    pub mode1_runlevel: Vec<RunLevel>,
    /// Companion map of class 2.
    pub mode2_runlevel: Vec<RunLevel>,
    /// Companion map of class 3.
    pub mode3_runlevel: Vec<RunLevel>,
}

/// Which coefficient code a stream uses.
#[derive(Debug, Clone, Copy, PartialEq, Eq, Hash, Structural)]
pub enum CoefDecodeMode {
    /// Class 1, primary.
    Mode1,
    /// Class 2, primary; its lengths leave part of the code space unassigned.
    Mode2,
    /// Class 3, primary.
    Mode3,
    /// Class 1, alternative.
    Class1Alt,
    /// Class 3, alternative.
    Class3Alt,
}

impl CoefDecodeMode {
    /// Every code.
    pub const ALL: [CoefDecodeMode; 5] = [
        CoefDecodeMode::Mode1,
        CoefDecodeMode::Mode2,
        CoefDecodeMode::Mode3,
        CoefDecodeMode::Class1Alt,
        CoefDecodeMode::Class3Alt,
    ];

    /// The code's lengths in `tables`.
    pub open spec fn lengths_in(self, tables: CoefTables) -> Seq<u8> {
        match self {
            CoefDecodeMode::Mode1 => tables.mode1_lengths@,
            CoefDecodeMode::Mode2 => tables.mode2_lengths@,
            CoefDecodeMode::Mode3 => tables.mode3_lengths@,
            CoefDecodeMode::Class1Alt => tables.class1_alt_lengths@,
            CoefDecodeMode::Class3Alt => tables.class3_alt_lengths@,
        }
    }

    /// The code's companion map in `tables`; an alternative has none.
    pub open spec fn map_in(self, tables: CoefTables) -> Option<Seq<RunLevel>> {
        match self {
            CoefDecodeMode::Mode1 => Some(tables.mode1_runlevel@),
            CoefDecodeMode::Mode2 => Some(tables.mode2_runlevel@),
            CoefDecodeMode::Mode3 => Some(tables.mode3_runlevel@),
            CoefDecodeMode::Class1Alt | CoefDecodeMode::Class3Alt => None,
        }
    }

    /// The code's lengths.
    pub fn lengths(self, tables: &CoefTables) -> (lengths: &[u8])
        ensures
            lengths@ == self.lengths_in(*tables),
    {
        match self {
            CoefDecodeMode::Mode1 => tables.mode1_lengths.as_slice(),
            CoefDecodeMode::Mode2 => tables.mode2_lengths.as_slice(),
            CoefDecodeMode::Mode3 => tables.mode3_lengths.as_slice(),
            CoefDecodeMode::Class1Alt => tables.class1_alt_lengths.as_slice(),
            CoefDecodeMode::Class3Alt => tables.class3_alt_lengths.as_slice(),
        }
    }

    /// The code's companion map.
    pub fn runlevel_map(self, tables: &CoefTables) -> (map: Option<&[RunLevel]>)
        ensures
            match map {
                Some(m) => self.map_in(*tables) == Some(m@),
                None => self.map_in(*tables) is None,
            },
    {
        match self {
            CoefDecodeMode::Mode1 => Some(tables.mode1_runlevel.as_slice()),
            CoefDecodeMode::Mode2 => Some(tables.mode2_runlevel.as_slice()),
            CoefDecodeMode::Mode3 => Some(tables.mode3_runlevel.as_slice()),
            CoefDecodeMode::Class1Alt | CoefDecodeMode::Class3Alt => None,
        }
    }

    /// The code's class, as a number.
    pub open spec fn class_number(self) -> u8 {
        match self {
            CoefDecodeMode::Mode1 | CoefDecodeMode::Class1Alt => 1,
            CoefDecodeMode::Mode2 => 2,
            CoefDecodeMode::Mode3 | CoefDecodeMode::Class3Alt => 3,
        }
    }

    /// The code's class.
    pub fn class(self) -> (class: u8)
        ensures
            class == self.class_number(),
    {
        match self {
            CoefDecodeMode::Mode1 | CoefDecodeMode::Class1Alt => 1,
            CoefDecodeMode::Mode2 => 2,
            CoefDecodeMode::Mode3 | CoefDecodeMode::Class3Alt => 3,
        }
    }

    /// Whether the code is an alternative.
    pub fn is_alt(self) -> (alt: bool)
        ensures
            alt == (self == CoefDecodeMode::Class1Alt || self == CoefDecodeMode::Class3Alt),
    {
        matches!(self, CoefDecodeMode::Class1Alt | CoefDecodeMode::Class3Alt)
    }

    /// The context value the code is registered under: its class.
    pub fn context_value(self) -> (value: u8)
        ensures
            value == self.class_number(),
    {
        self.class()
    }

    /// The code's name.
    pub open spec fn name(self) -> Seq<char> {
        match self {
            CoefDecodeMode::Mode1 => "Mode1"@,
            CoefDecodeMode::Mode2 => "Mode2"@,
            CoefDecodeMode::Mode3 => "Mode3"@,
            CoefDecodeMode::Class1Alt => "Class1Alt"@,
            CoefDecodeMode::Class3Alt => "Class3Alt"@,
        }
    }

    fn name_str(self) -> (name: &'static str)
        ensures
            name@ == self.name(),
    {
        match self {
            CoefDecodeMode::Mode1 => "Mode1",
            CoefDecodeMode::Mode2 => "Mode2",
            CoefDecodeMode::Mode3 => "Mode3",
            CoefDecodeMode::Class1Alt => "Class1Alt",
            CoefDecodeMode::Class3Alt => "Class3Alt",
        }
    }
}

/// Exactly the alternatives have no companion map.
pub proof fn alternatives_have_no_map(mode: CoefDecodeMode, tables: CoefTables)
    ensures
        mode.map_in(tables) is None <==> (mode == CoefDecodeMode::Class1Alt || mode
            == CoefDecodeMode::Class3Alt),
{
}

/// What a coefficient symbol stands for.
#[derive(Debug, Clone, Copy, PartialEq, Eq, Structural)]
pub enum CoefEvent {
    /// The rest of the block is zero.
    EndOfBlock,
    /// A literal run and a literal level follow.
    Escape,
    /// A run of zeros, then a coefficient of this magnitude.
    Pair {
        /// Length of the run.
        run: u16,
        /// Magnitude of the coefficient.
        abs_level: u16,
    },
}

/// Why a coefficient symbol could not be used.
#[derive(Debug, Clone, Copy, PartialEq, Eq, Structural)]
pub enum CoefVlcError {
    /// No companion entry says what the symbol stands for.
    RunLevelUnavailable {
        /// The code.
        mode: CoefDecodeMode,
        /// The symbol.
        symbol: usize,
    },
    /// The prefix code refused.
    Huffman(HuffmanError),
}

impl CoefVlcError {
    /// The number that the error shows.
    pub open spec fn number(&self) -> Option<Binary64> {
        match self {
            CoefVlcError::Huffman(e) => e.number(),
            _ => None,
        }
    }

    /// What `message` says, where `numeral` is how the number that the error shows reads
    /// in decimal.
    pub open spec fn text(&self, numeral: Seq<char>) -> Seq<char> {
        match self {
            CoefVlcError::RunLevelUnavailable { mode, symbol } => {
                "oxideav-wma::coef_vlc: no staged (run, level) expansion for symbol "@ + decimal(
                    *symbol as nat,
                ) + " of mode "@ + mode.name()
                    + " (alt-variant companion tables are a docs-staging gap)"@
            },
            CoefVlcError::Huffman(e) => "oxideav-wma::coef_vlc: "@ + e.text(numeral),
        }
    }

    /// The number that the error shows.
    pub fn shown_number(&self) -> (number: Option<Binary64>)
        ensures
            number == self.number(),
    {
        match self {
            CoefVlcError::Huffman(e) => e.shown_number(),
            _ => None,
        }
    }

    /// A description for people. `numeral` is how the number that `shown_number` gives
    /// reads in decimal; where there is none it is left unused.
    pub fn message(&self, numeral: &str) -> (s: String)
        ensures
            s@ == self.text(numeral@),
    {
        match self {
            CoefVlcError::RunLevelUnavailable { mode, symbol } => {
                let mut s = String::from_str(
                    "oxideav-wma::coef_vlc: no staged (run, level) expansion for symbol ",
                );
                append_decimal(&mut s, *symbol as u64);
                s.append(" of mode ");
                s.append(mode.name_str());
                s.append(" (alt-variant companion tables are a docs-staging gap)");
                s
            },
            CoefVlcError::Huffman(e) => {
                let mut s = String::from_str("oxideav-wma::coef_vlc: ");
                s.append(e.message(numeral).as_str());
                s
            },
        }
    }
}

impl From<HuffmanError> for CoefVlcError {
    fn from(e: HuffmanError) -> (r: Self) {
        CoefVlcError::Huffman(e)
    }
}

impl vstd::std_specs::convert::FromSpecImpl<HuffmanError> for CoefVlcError {
    open spec fn obeys_from_spec() -> bool {
        true
    }

    open spec fn from_spec(e: HuffmanError) -> Self {
        CoefVlcError::Huffman(e)
    }
}

/// What `symbol` stands for under a companion map.
pub open spec fn event_of(map: Option<Seq<RunLevel>>, symbol: int) -> Option<CoefEvent> {
    if symbol == 0 {
        Some(CoefEvent::EndOfBlock)
    } else if symbol == 1 {
        Some(CoefEvent::Escape)
    } else {
        match map {
            Some(m) if symbol - 2 < m.len() => Some(
                CoefEvent::Pair { run: m[symbol - 2].0, abs_level: m[symbol - 2].1 },
            ),
            _ => None,
        }
    }
}

/// Whether `symbol` is the first symbol of an alphabet of `count` that stands
/// for the pair.
pub open spec fn is_first_pair(
    map: Option<Seq<RunLevel>>,
    count: nat,
    run: u16,
    abs_level: u16,
    symbol: int,
) -> bool {
    &&& 2 <= symbol < count
    &&& event_of(map, symbol) == Some(CoefEvent::Pair { run, abs_level })
    &&& forall|t: int|
        2 <= t < symbol ==> #[trigger] event_of(map, t) != Some(CoefEvent::Pair { run, abs_level })
}

/// The first symbol of an alphabet of `count` that stands for the pair.
pub open spec fn pair_symbol(
    map: Option<Seq<RunLevel>>,
    count: nat,
    run: u16,
    abs_level: u16,
) -> Option<usize> {
    if exists|s: int| #[trigger] is_first_pair(map, count, run, abs_level, s) {
        Some((choose|s: int| #[trigger] is_first_pair(map, count, run, abs_level, s)) as usize)
    } else {
        None
    }
}

/// What reading one coefficient symbol gives, and the bits left after it.
pub open spec fn read_coef_symbol(lens: Seq<u8>, bits: Seq<bool>) -> (
    Result<usize, CoefVlcError>,
    Seq<bool>,
) {
    match read_symbol(lens, bits) {
        (Ok(s), rest) => (Ok(s), rest),
        (Err(e), rest) => (Err(CoefVlcError::Huffman(e)), rest),
    }
}

/// A coefficient code: a prefix code and its companion map.
#[derive(Debug, Clone, PartialEq, Eq)]
pub struct CoefVlc {
    mode: CoefDecodeMode,
    code: HuffmanCode,
    map: Option<Vec<RunLevel>>,
}

impl CoefVlc {
    /// Which code this is.
    pub closed spec fn which(&self) -> CoefDecodeMode {
        self.mode
    }

    /// The code's lengths.
    pub closed spec fn lens(&self) -> Seq<u8> {
        self.code@
    }

    /// The companion map.
    pub closed spec fn pairs(&self) -> Option<Seq<RunLevel>> {
        match self.map {
            Some(m) => Some(m@),
            None => None,
        }
    }

    /// The invariant.
    pub closed spec fn wf(&self) -> bool {
        self.code.wf()
    }

    /// Build the code of `mode` from `tables`. Only class 2 may leave part of
    /// the code space unassigned.
    pub fn new(mode: CoefDecodeMode, tables: &CoefTables) -> (vlc: Result<Self, CoefVlcError>)
        ensures
            match vlc {
                Ok(v) => {
                    &&& v.wf()
                    &&& v.which() == mode
                    &&& v.lens() == mode.lengths_in(*tables)
                    &&& v.pairs() == mode.map_in(*tables)
                    &&& crate::huffman::lengths_ok(v.lens())
                    &&& if mode == CoefDecodeMode::Mode2 {
                        crate::huffman::is_prefix_code(v.lens())
                    } else {
                        crate::huffman::is_complete(v.lens())
                    }
                },
                Err(CoefVlcError::Huffman(e)) => build_outcome(
                    mode.lengths_in(*tables),
                    mode != CoefDecodeMode::Mode2,
                    Err(e),
                ),
                Err(_) => false,
            },
    {
        let lengths = mode.lengths(tables);
        let built = if mode == CoefDecodeMode::Mode2 {
            HuffmanCode::from_lengths_prefix(lengths)
        } else {
            HuffmanCode::from_lengths(lengths)
        };
        let code = match built {
            Ok(code) => code,
            Err(e) => {
                return Err(CoefVlcError::from(e));
            },
        };
        let map = match mode.runlevel_map(tables) {
            Some(m) => Some(vstd::slice::slice_to_vec(m)),
            None => None,
        };
        Ok(CoefVlc { mode, code, map })
    }

    /// Which code this is.
    pub fn mode(&self) -> (mode: CoefDecodeMode)
        ensures
            mode == self.which(),
    {
        self.mode
    }

    /// Number of symbols.
    pub fn symbol_count(&self) -> (n: usize)
        requires
            self.wf(),
        ensures
            n == self.lens().len(),
    {
        self.code.len()
    }

    /// Longest code length.
    pub fn max_len(&self) -> (len: u8)
        requires
            self.wf(),
        ensures
            len == max_length(self.lens()),
    {
        self.code.max_len()
    }

    /// The prefix code.
    pub fn code(&self) -> (code: &HuffmanCode)
        requires
            self.wf(),
        ensures
            code.wf(),
            code@ == self.lens(),
    {
        &self.code
    }

    /// What `wf` says of the lengths.
    pub proof fn lemma_wf(&self)
        requires
            self.wf(),
        ensures
            crate::huffman::lengths_ok(self.lens()),
            crate::huffman::is_prefix_code(self.lens()),
            self.lens().len() <= usize::MAX,
    {
        self.code.lemma_wf();
        self.code.lemma_len();
    }

    /// What `symbol` stands for.
    pub fn expand(&self, symbol: usize) -> (event: Result<CoefEvent, CoefVlcError>)
        ensures
            match event {
                Ok(e) => event_of(self.pairs(), symbol as int) == Some(e),
                Err(e) => {
                    &&& event_of(self.pairs(), symbol as int) is None
                    &&& e == (CoefVlcError::RunLevelUnavailable { mode: self.which(), symbol })
                },
            },
    {
        if symbol == COEF_EOB_SYMBOL as usize {
            return Ok(CoefEvent::EndOfBlock);
        }
        if symbol == COEF_ESCAPE_SYMBOL as usize {
            return Ok(CoefEvent::Escape);
        }
        let at: usize = symbol - COEF_RUNLEVEL_BASE_SYMBOL as usize;
        match &self.map {
            Some(map) if at < map.len() => {
                let entry: RunLevel = map[at];
                Ok(CoefEvent::Pair { run: entry.0, abs_level: entry.1 })
            },
            _ => Err(CoefVlcError::RunLevelUnavailable { mode: self.mode, symbol }),
        }
    }

    /// The first symbol of the alphabet that stands for the pair.
    pub fn symbol_for_pair(&self, run: u16, abs_level: u16) -> (symbol: Option<usize>)
        requires
            self.wf(),
        ensures
            symbol == pair_symbol(self.pairs(), self.lens().len(), run, abs_level),
            match symbol {
                Some(s) => is_first_pair(
                    self.pairs(),
                    self.lens().len(),
                    run,
                    abs_level,
                    s as int,
                ),
                None => forall|s: int|
                    2 <= s < self.lens().len() ==> #[trigger] event_of(self.pairs(), s) != Some(
                        CoefEvent::Pair { run, abs_level },
                    ),
            },
    {
        let ghost pairs = self.pairs();
        let count: usize = self.symbol_count();
        if let Some(map) = &self.map {
            let mut s: usize = COEF_RUNLEVEL_BASE_SYMBOL as usize;
            while s < count && s - 2 < map.len()
                invariant
                    2 <= s,
                    pairs == Some(map@),
                    forall|t: int|
                        2 <= t < s ==> #[trigger] event_of(pairs, t) != Some(
                            CoefEvent::Pair { run, abs_level },
                        ),
                    pairs == self.pairs(),
                    count == self.lens().len(),
                decreases count - s,
            {
                let entry: RunLevel = map[s - 2];
                if entry.0 == run && entry.1 == abs_level {
                    proof {
                        assert(event_of(pairs, s as int) == Some(
                            CoefEvent::Pair { run, abs_level },
                        ));
                        assert(is_first_pair(pairs, count as nat, run, abs_level, s as int));
                        let c = choose|c: int|
                            #[trigger] is_first_pair(pairs, count as nat, run, abs_level, c);
                        assert(c == s) by {
                            if c < s {
                                assert(event_of(pairs, c) != Some(
                                    CoefEvent::Pair { run, abs_level },
                                ));
                            } else if c > s {
                                assert(event_of(pairs, s as int) != Some(
                                    CoefEvent::Pair { run, abs_level },
                                ));
                            }
                        }
                    }
                    return Some(s);
                }
                s = s + 1;
            }
        }
        proof {
            assert forall|s: int| 2 <= s < count implies #[trigger] event_of(pairs, s) != Some(
                CoefEvent::Pair { run, abs_level },
            ) by {}
            assert forall|s: int| !is_first_pair(pairs, count as nat, run, abs_level, s) by {
                if is_first_pair(pairs, count as nat, run, abs_level, s) {
                    assert(event_of(pairs, s) != Some(CoefEvent::Pair { run, abs_level }));
                }
            }
        }
        None
    }

    /// Append the codeword of `symbol`.
    pub fn encode_symbol(&self, symbol: usize, writer: &mut BitWriter) -> (done: Result<
        (),
        CoefVlcError,
    >)
        requires
            self.wf(),
            old(writer).wf(),
        ensures
            final(writer).wf(),
            match done {
                Ok(_) => {
                    &&& symbol < self.lens().len()
                    &&& final(writer)@ == old(writer)@ + codeword(self.lens(), symbol as int)
                },
                Err(e) => {
                    &&& symbol >= self.lens().len()
                    &&& e == CoefVlcError::Huffman(
                        HuffmanError::SymbolOutOfRange {
                            symbol,
                            alphabet: self.lens().len() as usize,
                        },
                    )
                    &&& *final(writer) == *old(writer)
                },
            },
    {
        match self.code.encode_symbol(symbol, writer) {
            Ok(_) => Ok(()),
            Err(e) => Err(CoefVlcError::from(e)),
        }
    }

    /// Read one codeword and return its symbol.
    pub fn decode_symbol(&self, reader: &mut BitReader<'_>) -> (symbol: Result<usize, CoefVlcError>)
        requires
            self.wf(),
            old(reader).wf(),
        ensures
            final(reader).wf(),
            (symbol, final(reader)@) == read_coef_symbol(self.lens(), old(reader)@),
            final(reader).consumed() == old(reader).consumed() + (old(reader)@.len()
                - final(reader)@.len()),
            symbol matches Ok(s) ==> s < self.lens().len(),
    {
        match self.code.decode_symbol(reader) {
            Ok(s) => Ok(s),
            Err(e) => Err(CoefVlcError::from(e)),
        }
    }
}

/// The symbol found for a pair stands for that pair.
pub proof fn pair_symbol_expands_back(
    map: Option<Seq<RunLevel>>,
    count: nat,
    run: u16,
    abs_level: u16,
)
    requires
        count <= usize::MAX,
    ensures
        pair_symbol(map, count, run, abs_level) matches Some(s) ==> {
            &&& 2 <= s < count
            &&& event_of(map, s as int) == Some(CoefEvent::Pair { run, abs_level })
        },
{
}

/// Where a companion map lists no pair twice, looking up what a symbol of the
/// alphabet stands for finds that symbol.
pub proof fn pair_symbol_inverts_expand(map: Seq<RunLevel>, count: nat, symbol: usize)
    requires
        count <= usize::MAX,
        2 <= symbol < count,
        symbol - 2 < map.len(),
        forall|i: int, j: int| 0 <= i < j < map.len() ==> #[trigger] map[i] != #[trigger] map[j],
    ensures
        pair_symbol(Some(map), count, map[symbol - 2].0, map[symbol - 2].1) == Some(symbol),
{
    let run = map[symbol - 2].0;
    let abs_level = map[symbol - 2].1;
    assert forall|t: int| 2 <= t < symbol implies #[trigger] event_of(Some(map), t) != Some(
        CoefEvent::Pair { run, abs_level },
    ) by {
        assert(map[t - 2] != map[symbol - 2]);
    }
    assert(is_first_pair(Some(map), count, run, abs_level, symbol as int));
    let c = choose|c: int| #[trigger] is_first_pair(Some(map), count, run, abs_level, c);
    if c < symbol {
        assert(event_of(Some(map), c) != Some(CoefEvent::Pair { run, abs_level }));
    } else if c > symbol {
        assert(event_of(Some(map), symbol as int) != Some(CoefEvent::Pair { run, abs_level }));
    }
}

} // verus!

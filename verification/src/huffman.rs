//! Canonical prefix codes built from code lengths.
//!
//! A canonical code is determined by its lengths alone: codewords are handed
//! out in order of length, and among equal lengths in order of symbol, each
//! codeword the successor of the one before.
use crate::bitio::{BitReader, BitWriter, BitstreamEnd};
use crate::bits::{
    bits_of, lemma_bits_of_inj, lemma_bits_of_len, lemma_bits_of_take, lemma_bits_of_value,
    lemma_value_bound, value_of,
};
use crate::binary64::Binary64;
use crate::text::{append_decimal, decimal};
use vstd::arithmetic::power2::{
    lemma2_to64, lemma2_to64_rest, lemma_pow2_adds, lemma_pow2_pos, lemma_pow2_strictly_increases,
    lemma_pow2_unfold, pow2,
};
use vstd::prelude::*;
use vstd::string::*;

verus! {

/// Number of symbols whose code has `l` bits.
pub open spec fn count_len(lens: Seq<u8>, l: nat) -> nat
    decreases lens.len(),
{
    if lens.len() == 0 {
        0
    } else {
        count_len(lens.drop_last(), l) + if lens.last() == l { 1nat } else { 0nat }
    }
}

/// Number of symbols below `s` whose code is as long as that of `s`.
pub open spec fn rank(lens: Seq<u8>, s: int) -> nat {
    count_len(lens.take(s), lens[s] as nat)
}

/// The number of the first codeword of `l` bits.
pub open spec fn first_code(lens: Seq<u8>, l: nat) -> nat
    decreases l,
{
    if l == 0 {
        0
    } else {
        2 * (first_code(lens, (l - 1) as nat) + count_len(lens, (l - 1) as nat))
    }
}

/// The number that the codeword of `s` spells.
pub open spec fn code_value(lens: Seq<u8>, s: int) -> nat {
    first_code(lens, lens[s] as nat) + rank(lens, s)
}

/// The codeword of `s`.
pub open spec fn codeword(lens: Seq<u8>, s: int) -> Seq<bool> {
    bits_of(code_value(lens, s), lens[s] as nat)
}

/// The share of the code space taken by codewords of at most `l` bits, where
/// the whole space has size two to the sixty-four.
pub open spec fn space_upto(lens: Seq<u8>, l: nat) -> nat
    decreases lens.len(),
{
    if lens.len() == 0 {
        0
    } else {
        space_upto(lens.drop_last(), l) + if lens.last() <= l {
            pow2((64 - lens.last()) as nat)
        } else {
            0nat
        }
    }
}

/// The share of the code space that a code of these lengths takes.
pub open spec fn space(lens: Seq<u8>) -> nat {
    space_upto(lens, 64)
}

/// The longest code length.
pub open spec fn max_length(lens: Seq<u8>) -> nat
    decreases lens.len(),
{
    if lens.len() == 0 {
        0
    } else if lens.last() > max_length(lens.drop_last()) {
        lens.last() as nat
    } else {
        max_length(lens.drop_last())
    }
}

/// Whether a code length is one a code may have.
pub open spec fn length_ok(len: u8) -> bool {
    1 <= len <= 64
}

/// Whether all lengths are ones a code may have, and there is at least one.
pub open spec fn lengths_ok(lens: Seq<u8>) -> bool {
    lens.len() > 0 && forall|i: int| 0 <= i < lens.len() ==> length_ok(#[trigger] lens[i])
}

/// Whether the lengths fill the code space exactly; the one-symbol, one-bit
/// code counts as complete.
pub open spec fn is_complete(lens: Seq<u8>) -> bool {
    space(lens) == pow2(64) || lens == seq![1u8]
}

/// Whether the lengths leave room for distinct codewords, none of which begins
/// another.
pub open spec fn is_prefix_code(lens: Seq<u8>) -> bool {
    space(lens) <= pow2(64)
}

/// Whether `bits` begins with the codeword of `s`.
pub open spec fn starts_with_codeword(lens: Seq<u8>, s: int, bits: Seq<bool>) -> bool {
    lens[s] <= bits.len() && bits.take(lens[s] as int) == codeword(lens, s)
}

// ---------------------------------------------------------------- counting

proof fn lemma_count_take_step(lens: Seq<u8>, s: int, l: nat)
    requires
        0 <= s < lens.len(),
    ensures
        count_len(lens.take(s + 1), l) == count_len(lens.take(s), l) + if lens[s] == l {
            1nat
        } else {
            0nat
        },
{
    assert(lens.take(s + 1).drop_last() =~= lens.take(s));
}

proof fn lemma_count_take_le(lens: Seq<u8>, s: int, l: nat)
    requires
        0 <= s <= lens.len(),
    ensures
        count_len(lens.take(s), l) <= count_len(lens, l),
        count_len(lens.take(s), l) <= s,
    decreases lens.len() - s,
{
    if s == lens.len() {
        assert(lens.take(s) =~= lens);
        lemma_count_bound(lens, l);
    } else {
        lemma_count_take_step(lens, s, l);
        lemma_count_take_le(lens, s + 1, l);
        lemma_count_bound(lens.take(s), l);
    }
}

proof fn lemma_count_bound(lens: Seq<u8>, l: nat)
    ensures
        count_len(lens, l) <= lens.len(),
    decreases lens.len(),
{
    if lens.len() > 0 {
        lemma_count_bound(lens.drop_last(), l);
    }
}

/// A symbol's rank is below the number of symbols of its length.
proof fn lemma_rank_bound(lens: Seq<u8>, s: int)
    requires
        0 <= s < lens.len(),
    ensures
        rank(lens, s) < count_len(lens, lens[s] as nat),
{
    lemma_count_take_step(lens, s, lens[s] as nat);
    lemma_count_take_le(lens, s + 1, lens[s] as nat);
}

/// Of two symbols of one length, the later has the greater rank.
proof fn lemma_rank_increases(lens: Seq<u8>, s: int, t: int)
    requires
        0 <= s < t < lens.len(),
        lens[s] == lens[t],
    ensures
        rank(lens, s) < rank(lens, t),
{
    let l = lens[s] as nat;
    lemma_count_take_step(lens, s, l);
    lemma_count_take_le(lens.take(t), s + 1, l);
    assert(lens.take(t).take(s + 1) =~= lens.take(s + 1));
}

/// Every place below the count of a length belongs to a symbol of that length.
proof fn lemma_symbol_of_rank(lens: Seq<u8>, l: nat, r: nat) -> (s: int)
    requires
        r < count_len(lens, l),
    ensures
        0 <= s < lens.len(),
        lens[s] == l,
        rank(lens, s) == r,
    decreases lens.len(),
{
    let init = lens.drop_last();
    let n = init.len() as int;
    if r < count_len(init, l) {
        let s = lemma_symbol_of_rank(init, l, r);
        assert(init.take(s) =~= lens.take(s));
        s
    } else {
        assert(lens.take(n) =~= init);
        n
    }
}

// ---------------------------------------------------------------- code space

proof fn lemma_space_step(lens: Seq<u8>, l: nat)
    requires
        1 <= l <= 64,
        forall|i: int| 0 <= i < lens.len() ==> length_ok(#[trigger] lens[i]),
    ensures
        space_upto(lens, l) == space_upto(lens, (l - 1) as nat) + count_len(lens, l) * pow2(
            (64 - l) as nat,
        ),
    decreases lens.len(),
{
    if lens.len() > 0 {
        let init = lens.drop_last();
        assert forall|i: int| 0 <= i < init.len() implies length_ok(#[trigger] init[i]) by {
            assert(length_ok(lens[i]));
        }
        lemma_space_step(init, l);
        let c = count_len(init, l) as int;
        let p = pow2((64 - l) as nat) as int;
        assert((c + 1) * p == c * p + p) by (nonlinear_arith);
        assert(lens[lens.len() - 1] == lens.last());
    } else {
        assert(0 * pow2((64 - l) as nat) == 0) by (nonlinear_arith);
    }
}

proof fn lemma_space_upto_zero(lens: Seq<u8>)
    requires
        forall|i: int| 0 <= i < lens.len() ==> length_ok(#[trigger] lens[i]),
    ensures
        space_upto(lens, 0) == 0,
    decreases lens.len(),
{
    if lens.len() > 0 {
        let init = lens.drop_last();
        assert forall|i: int| 0 <= i < init.len() implies length_ok(#[trigger] init[i]) by {
            assert(length_ok(lens[i]));
        }
        assert(length_ok(lens[lens.len() - 1]));
        lemma_space_upto_zero(init);
    }
}

proof fn lemma_space_monotone(lens: Seq<u8>, l: nat, m: nat)
    requires
        l <= m,
    ensures
        space_upto(lens, l) <= space_upto(lens, m),
    decreases lens.len(),
{
    if lens.len() > 0 {
        lemma_space_monotone(lens.drop_last(), l, m);
    }
}

/// The codewords of one length begin where the shorter ones end.
proof fn lemma_first_code_space(lens: Seq<u8>, l: nat)
    requires
        1 <= l <= 64,
        lengths_ok(lens),
    ensures
        first_code(lens, l) * pow2((64 - l) as nat) == space_upto(lens, (l - 1) as nat),
    decreases l,
{
    let k = (l - 1) as nat;
    if k == 0 {
        lemma_space_upto_zero(lens);
        lemma_count_zero(lens);
        assert(first_code(lens, 1) == 2 * (first_code(lens, 0) + count_len(lens, 0)));
        assert(0 * pow2((64 - l) as nat) == 0) by (nonlinear_arith);
    } else {
        lemma_first_code_space(lens, k);
        lemma_space_step(lens, k);
        let f = first_code(lens, k) as int;
        let c = count_len(lens, k) as int;
        let p = pow2((64 - l) as nat) as int;
        lemma_pow2_unfold((64 - k) as nat);
        assert((2 * (f + c)) * p == f * (2 * p) + c * (2 * p)) by (nonlinear_arith);
    }
}

proof fn lemma_count_zero(lens: Seq<u8>)
    requires
        forall|i: int| 0 <= i < lens.len() ==> length_ok(#[trigger] lens[i]),
    ensures
        count_len(lens, 0) == 0,
    decreases lens.len(),
{
    if lens.len() > 0 {
        let init = lens.drop_last();
        assert forall|i: int| 0 <= i < init.len() implies length_ok(#[trigger] init[i]) by {
            assert(length_ok(lens[i]));
        }
        assert(length_ok(lens[lens.len() - 1]));
        lemma_count_zero(init);
    }
}

/// The codewords of one length fit in that many bits.
proof fn lemma_codes_fit(lens: Seq<u8>, l: nat)
    requires
        1 <= l <= 64,
        lengths_ok(lens),
        is_prefix_code(lens),
    ensures
        first_code(lens, l) + count_len(lens, l) <= pow2(l),
{
    lemma_first_code_space(lens, l);
    lemma_space_step(lens, l);
    lemma_space_monotone(lens, l, 64);
    let f = first_code(lens, l) as int;
    let c = count_len(lens, l) as int;
    let p = pow2((64 - l) as nat) as int;
    let q = pow2(l) as int;
    lemma_pow2_adds(l, (64 - l) as nat);
    lemma_pow2_pos((64 - l) as nat);
    assert(f + c <= q) by (nonlinear_arith)
        requires
            f * p + c * p <= q * p,
            p > 0,
    ;
}

/// The codeword of a symbol fits in its length.
pub proof fn lemma_code_value_bound(lens: Seq<u8>, s: int)
    requires
        0 <= s < lens.len(),
        lengths_ok(lens),
        is_prefix_code(lens),
    ensures
        code_value(lens, s) < pow2(lens[s] as nat),
{
    assert(length_ok(lens[s]));
    lemma_rank_bound(lens, s);
    lemma_codes_fit(lens, lens[s] as nat);
}

/// Longer codewords lie past all shorter ones.
proof fn lemma_longer_codes_after(lens: Seq<u8>, l: nat, m: nat)
    requires
        l < m,
    ensures
        (first_code(lens, l) + count_len(lens, l)) * pow2((m - l) as nat) <= first_code(lens, m),
    decreases m,
{
    lemma2_to64();
    let e = first_code(lens, l) + count_len(lens, l);
    if m == l + 1 {
        assert(pow2((m - l) as nat) == 2);
        assert(e * 2 == 2 * e);
    } else {
        let k = (m - 1) as nat;
        lemma_longer_codes_after(lens, l, k);
        lemma_pow2_unfold((m - l) as nat);
        let p = pow2((k - l) as nat);
        assert(2 * (e * p) == e * (2 * p)) by (nonlinear_arith);
    }
}

// ---------------------------------------------------------------- laws

/// No codeword begins another: bits begin with at most one codeword.
pub proof fn codewords_are_prefix_free(lens: Seq<u8>, s: int, t: int, bits: Seq<bool>)
    requires
        lengths_ok(lens),
        is_prefix_code(lens),
        0 <= s < lens.len(),
        0 <= t < lens.len(),
        starts_with_codeword(lens, s, bits),
        starts_with_codeword(lens, t, bits),
    ensures
        s == t,
{
    assert(length_ok(lens[s]) && length_ok(lens[t]));
    if lens[s] == lens[t] {
        lemma_code_value_bound(lens, s);
        lemma_code_value_bound(lens, t);
        lemma_bits_of_inj(code_value(lens, s), code_value(lens, t), lens[s] as nat);
        if s < t {
            lemma_rank_increases(lens, s, t);
        } else if t < s {
            lemma_rank_increases(lens, t, s);
        }
    } else if lens[s] < lens[t] {
        lemma_shorter_not_prefix(lens, s, t, bits);
    } else {
        lemma_shorter_not_prefix(lens, t, s, bits);
    }
}

proof fn lemma_shorter_not_prefix(lens: Seq<u8>, s: int, t: int, bits: Seq<bool>)
    requires
        lengths_ok(lens),
        is_prefix_code(lens),
        0 <= s < lens.len(),
        0 <= t < lens.len(),
        lens[s] < lens[t],
        starts_with_codeword(lens, t, bits),
    ensures
        !starts_with_codeword(lens, s, bits),
{
    assert(length_ok(lens[s]) && length_ok(lens[t]));
    let l = lens[s] as nat;
    let m = lens[t] as nat;
    let p = pow2((m - l) as nat);
    let v = code_value(lens, t);
    let e = first_code(lens, l) + count_len(lens, l);
    lemma_code_value_bound(lens, s);
    lemma_code_value_bound(lens, t);
    lemma_rank_bound(lens, s);
    lemma_longer_codes_after(lens, l, m);
    lemma_bits_of_take(v, m, l);
    assert(bits.take(m as int).take(l as int) =~= bits.take(l as int));
    lemma_pow2_pos((m - l) as nat);
    assert(v / p < pow2(l)) by {
        lemma_pow2_adds(l, (m - l) as nat);
        let q = pow2(l);
        assert(v / p < q) by (nonlinear_arith)
            requires
                v < q * p,
                p > 0,
        ;
    }
    if starts_with_codeword(lens, s, bits) {
        lemma_bits_of_inj(v / p, code_value(lens, s), l);
    }
    assert(v / p >= e) by (nonlinear_arith)
        requires
            v >= e * p,
            p > 0,
    ;
}

/// Codewords are handed out in order: among equal lengths the later symbol has
/// the codeword that spells the greater number, and a longer codeword, cut to
/// the length of a shorter one, spells a greater number than it.
pub proof fn codewords_ascend(lens: Seq<u8>, s: int, t: int)
    requires
        lengths_ok(lens),
        is_prefix_code(lens),
        0 <= s < lens.len(),
        0 <= t < lens.len(),
        lens[s] < lens[t] || (lens[s] == lens[t] && s < t),
    ensures
        code_value(lens, s) < code_value(lens, t) / pow2((lens[t] - lens[s]) as nat),
{
    lemma2_to64();
    let v = code_value(lens, t);
    if lens[s] == lens[t] {
        lemma_rank_increases(lens, s, t);
        assert(v / 1 == v) by (nonlinear_arith);
    } else {
        let p = pow2((lens[t] - lens[s]) as nat);
        let e = first_code(lens, lens[s] as nat) + count_len(lens, lens[s] as nat);
        lemma_rank_bound(lens, s);
        lemma_longer_codes_after(lens, lens[s] as nat, lens[t] as nat);
        lemma_pow2_pos((lens[t] - lens[s]) as nat);
        assert(v / p >= e) by (nonlinear_arith)
            requires
                v >= e * p,
                p > 0,
        ;
    }
}

// ---------------------------------------------------------------- the code

/// A canonical prefix code over the symbols `0..len()`.
///
/// The view is the sequence of code lengths, which determines the code.
#[derive(Debug, Clone, PartialEq, Eq)]
pub struct HuffmanCode {
    /// Code length of each symbol.
    lengths: Vec<u8>,
    /// Number that each symbol's codeword spells.
    codes: Vec<u64>,
    /// Longest code length.
    max_len: u8,
    /// Number of the first codeword of each length.
    first: Vec<u64>,
    /// Number of codewords of each length.
    count: Vec<u64>,
    /// Where the symbols of each length start in `sorted`.
    offset: Vec<usize>,
    /// The symbols in order of code length, then symbol.
    sorted: Vec<usize>,
}

impl View for HuffmanCode {
    type V = Seq<u8>;

    closed spec fn view(&self) -> Seq<u8> {
        self.lengths@
    }
}

/// Whether `symbol` is the first one with a length that no code may have.
pub open spec fn first_bad_length(lens: Seq<u8>, symbol: int) -> bool {
    &&& 0 <= symbol < lens.len()
    &&& !length_ok(lens[symbol])
    &&& forall|i: int| 0 <= i < symbol ==> length_ok(#[trigger] lens[i])
}

/// What building a code from `lens` gives: with `complete`, only lengths that
/// fill the code space are accepted.
pub open spec fn build_outcome(
    lens: Seq<u8>,
    complete: bool,
    built: Result<HuffmanCode, HuffmanError>,
) -> bool {
    let acceptable = if complete {
        is_complete(lens)
    } else {
        is_prefix_code(lens)
    };
    match built {
        Ok(code) => {
            &&& lengths_ok(lens)
            &&& acceptable
            &&& code.wf()
            &&& code@ == lens
        },
        Err(HuffmanError::EmptyAlphabet) => lens.len() == 0,
        Err(HuffmanError::InvalidLength { symbol, len }) => {
            &&& first_bad_length(lens, symbol as int)
            &&& len == lens[symbol as int]
        },
        Err(HuffmanError::KraftViolation) => lengths_ok(lens) && !acceptable,
        Err(_) => false,
    }
}

/// What reading one codeword from `bits` gives, and the bits left after it:
/// the symbol whose codeword begins the bits; else the end of the stream, where
/// it holds fewer bits than the longest codeword; else no codeword, with as
/// many bits gone as the longest codeword has.
pub open spec fn read_symbol(lens: Seq<u8>, bits: Seq<bool>) -> (
    Result<usize, HuffmanError>,
    Seq<bool>,
) {
    if exists|s: int| 0 <= s < lens.len() && #[trigger] starts_with_codeword(lens, s, bits) {
        let s = choose|s: int| 0 <= s < lens.len() && #[trigger] starts_with_codeword(lens, s, bits);
        (Ok(s as usize), bits.skip(lens[s] as int))
    } else if bits.len() < max_length(lens) {
        (
            Err(HuffmanError::Bitstream(BitstreamEnd { requested: 1, remaining: 0 })),
            bits.skip(bits.len() as int),
        )
    } else {
        (Err(HuffmanError::InvalidCodeword), bits.skip(max_length(lens) as int))
    }
}

/// Number of symbols whose code is shorter than `l` bits.
spec fn shorter(lens: Seq<u8>, l: nat) -> nat
    decreases l,
{
    if l == 0 {
        0
    } else {
        shorter(lens, (l - 1) as nat) + count_len(lens, (l - 1) as nat)
    }
}

proof fn lemma_max_length(lens: Seq<u8>)
    requires
        lengths_ok(lens),
    ensures
        1 <= max_length(lens) <= 64,
        forall|i: int| 0 <= i < lens.len() ==> (#[trigger] lens[i]) <= max_length(lens),
        count_len(lens, max_length(lens)) >= 1,
    decreases lens.len(),
{
    let init = lens.drop_last();
    assert(length_ok(lens[lens.len() - 1]));
    if init.len() > 0 {
        assert forall|i: int| 0 <= i < init.len() implies length_ok(#[trigger] init[i]) by {
            assert(length_ok(lens[i]));
        }
        lemma_max_length(init);
        assert forall|i: int| 0 <= i < lens.len() implies (#[trigger] lens[i]) <= max_length(
            lens,
        ) by {
            if i < init.len() {
                assert(init[i] <= max_length(init));
            }
        }
    }
}

proof fn lemma_max_take(lens: Seq<u8>, i: int)
    requires
        0 <= i < lens.len(),
    ensures
        max_length(lens.take(i + 1)) == if lens[i] > max_length(lens.take(i)) {
            lens[i] as nat
        } else {
            max_length(lens.take(i))
        },
{
    assert(lens.take(i + 1).drop_last() =~= lens.take(i));
}

/// The first code of a length in use is below two to that length.
proof fn lemma_first_code_bound(lens: Seq<u8>, l: nat)
    requires
        lengths_ok(lens),
        is_prefix_code(lens),
        1 <= l <= max_length(lens),
    ensures
        first_code(lens, l) < pow2(l),
        first_code(lens, (l - 1) as nat) + count_len(lens, (l - 1) as nat) <= pow2((l - 1) as nat),
        first_code(lens, l) + count_len(lens, l) <= pow2(l),
{
    lemma_max_length(lens);
    lemma2_to64();
    let m = max_length(lens);
    lemma_codes_fit(lens, l);
    lemma_codes_fit(lens, m);
    if l < m {
        lemma_longer_codes_after(lens, l, m);
        let f = first_code(lens, l) as int;
        let c = count_len(lens, l) as int;
        let p = pow2((m - l) as nat) as int;
        let q = pow2(l) as int;
        let fm = first_code(lens, m) as int;
        lemma_pow2_pos((m - l) as nat);
        lemma_pow2_adds(l, (m - l) as nat);
        assert(f < q) by (nonlinear_arith)
            requires
                (f + c) * p <= fm,
                fm < q * p,
                p > 0,
                c >= 0,
        ;
    }
    if l > 1 {
        lemma_codes_fit(lens, (l - 1) as nat);
    } else {
        lemma_count_zero(lens);
    }
}

proof fn lemma_space_bound(lens: Seq<u8>, n: nat)
    requires
        lens.len() == n,
        forall|i: int| 0 <= i < lens.len() ==> length_ok(#[trigger] lens[i]),
    ensures
        space(lens) <= n * pow2(63),
    decreases n,
{
    if n > 0 {
        let init = lens.drop_last();
        assert forall|i: int| 0 <= i < init.len() implies length_ok(#[trigger] init[i]) by {
            assert(length_ok(lens[i]));
        }
        lemma_space_bound(init, (n - 1) as nat);
        assert(length_ok(lens[lens.len() - 1]));
        let e = (64 - lens.last()) as nat;
        if e < 63 {
            lemma_pow2_strictly_increases(e, 63);
        }
        let p = pow2(63) as int;
        assert((n - 1) * p + p == n * p) by (nonlinear_arith);
    }
}

impl HuffmanCode {
    /// The code's invariant: its lengths leave room for a prefix code, and the
    /// tables hold the canonical code of those lengths.
    pub closed spec fn wf(&self) -> bool {
        let lens = self.lengths@;
        &&& lengths_ok(lens)
        &&& is_prefix_code(lens)
        &&& self.max_len == max_length(lens)
        &&& self.codes@.len() == lens.len()
        &&& forall|s: int| 0 <= s < lens.len() ==> #[trigger] self.codes@[s] == code_value(lens, s)
        &&& self.first@.len() == self.max_len + 1
        &&& self.count@.len() == self.max_len + 1
        &&& self.offset@.len() == self.max_len + 1
        &&& forall|l: int|
            1 <= l <= self.max_len ==> #[trigger] self.first@[l] == first_code(lens, l as nat)
        &&& forall|l: int|
            1 <= l <= self.max_len ==> #[trigger] self.count@[l] == count_len(lens, l as nat)
        &&& forall|l: int|
            1 <= l <= self.max_len ==> #[trigger] self.offset@[l] == shorter(lens, l as nat)
        &&& self.sorted@.len() == lens.len()
        &&& forall|s: int|
            0 <= s < lens.len() ==> {
                let at = shorter(lens, (#[trigger] lens[s]) as nat) + rank(lens, s);
                at < self.sorted@.len() && self.sorted@[at as int] == s
            }
    }

    /// Build the canonical code of these lengths, which must fill the code
    /// space (a single one-bit code is also accepted).
    pub fn from_lengths(lengths: &[u8]) -> (code: Result<Self, HuffmanError>)
        ensures
            build_outcome(lengths@, true, code),
    {
        Self::build_from_lengths(lengths, true)
    }

    /// Build the canonical code of these lengths, which may leave part of the
    /// code space unassigned.
    pub fn from_lengths_prefix(lengths: &[u8]) -> (code: Result<Self, HuffmanError>)
        ensures
            build_outcome(lengths@, false, code),
    {
        Self::build_from_lengths(lengths, false)
    }

    fn build_from_lengths(lengths: &[u8], require_complete: bool) -> (code: Result<
        Self,
        HuffmanError,
    >)
        ensures
            build_outcome(lengths@, require_complete, code),
    {
        let ghost lens = lengths@;
        let n: usize = lengths.len();
        if n == 0 {
            return Err(HuffmanError::EmptyAlphabet);
        }
        let mut max_len: u8 = 0;
        let mut i: usize = 0;
        assert(lens.take(0) =~= Seq::<u8>::empty());
        while i < n
            invariant
                i <= n == lengths@.len(),
                lens == lengths@,
                forall|k: int| 0 <= k < i ==> length_ok(#[trigger] lens[k]),
                max_len == max_length(lens.take(i as int)),
            decreases n - i,
        {
            let len: u8 = lengths[i];
            if len == 0 || len > 64 {
                return Err(HuffmanError::InvalidLength { symbol: i, len });
            }
            proof {
                lemma_max_take(lens, i as int);
            }
            if len > max_len {
                max_len = len;
            }
            i = i + 1;
        }
        proof {
            assert(lens.take(n as int) =~= lens);
            lemma_max_length(lens);
        }
        let taken: u128 = Self::space_taken(lengths);
        let full: u128 = 0x1_0000_0000_0000_0000;
        let degenerate_single = n == 1 && lengths[0] == 1;
        proof {
            lemma2_to64();
            assert(degenerate_single == (lens == seq![1u8])) by {
                if degenerate_single {
                    assert(lens =~= seq![1u8]);
                }
            }
        }
        let acceptable = if require_complete {
            taken == full || degenerate_single
        } else {
            taken <= full
        };
        if !acceptable {
            return Err(HuffmanError::KraftViolation);
        }
        proof {
            if degenerate_single {
                reveal_with_fuel(space_upto, 2);
                lemma2_to64_rest();
            }
            assert(is_prefix_code(lens));
        }
        let count: Vec<u64> = Self::count_lengths(lengths, max_len);
        let first: Vec<u64> = Self::first_codes(Ghost(lens), &count, max_len);
        let codes: Vec<u64> = Self::assign_codes(lengths, &first, max_len);
        let (offset, sorted): (Vec<usize>, Vec<usize>) = Self::sort_symbols(lengths, max_len);
        let mut kept: Vec<u8> = Vec::new();
        let mut k: usize = 0;
        while k < n
            invariant
                k <= n == lengths@.len(),
                lens == lengths@,
                kept@ == lens.take(k as int),
            decreases n - k,
        {
            kept.push(lengths[k]);
            assert(kept@ =~= lens.take(k + 1));
            k = k + 1;
        }
        assert(kept@ =~= lens);
        Ok(HuffmanCode { lengths: kept, codes, max_len, first, count, offset, sorted })
    }

    /// The share of the code space the lengths take.
    fn space_taken(lengths: &[u8]) -> (taken: u128)
        requires
            lengths_ok(lengths@),
        ensures
            taken == space(lengths@),
    {
        let ghost lens = lengths@;
        let n: usize = lengths.len();
        let mut taken: u128 = 0;
        let mut i: usize = 0;
        assert(lens.take(0) =~= Seq::<u8>::empty());
        while i < n
            invariant
                i <= n == lengths@.len(),
                lens == lengths@,
                lengths_ok(lens),
                taken == space(lens.take(i as int)),
            decreases n - i,
        {
            let len: u8 = lengths[i];
            proof {
                assert(length_ok(lens[i as int]));
                let part = lens.take(i + 1);
                assert(part.drop_last() =~= lens.take(i as int));
                assert forall|k: int| 0 <= k < part.len() implies length_ok(#[trigger] part[k]) by {
                    assert(length_ok(lens[k]));
                }
                lemma_space_bound(part, (i + 1) as nat);
                lemma2_to64_rest();
                assert((i + 1) * 0x8000_0000_0000_0000 <= 0x1_0000_0000_0000_0000
                    * 0x8000_0000_0000_0000) by (nonlinear_arith)
                    requires
                        i + 1 <= 0x1_0000_0000_0000_0000,
                ;
                let e = (64 - len) as u64;
                lemma2_to64();
                if e < 63 {
                    lemma_pow2_strictly_increases(e as nat, 63);
                }
                vstd::bits::lemma_u64_shl_is_mul(1, e);
            }
            taken = taken + (1u64 << ((64 - len) as u64)) as u128;
            i = i + 1;
        }
        assert(lens.take(n as int) =~= lens);
        taken
    }

    /// How many symbols have each length.
    fn count_lengths(lengths: &[u8], max_len: u8) -> (count: Vec<u64>)
        requires
            lengths_ok(lengths@),
            max_len == max_length(lengths@),
        ensures
            count@.len() == max_len + 1,
            forall|l: int| 0 <= l <= max_len ==> #[trigger] count@[l] == count_len(
                lengths@,
                l as nat,
            ),
    {
        let ghost lens = lengths@;
        let n: usize = lengths.len();
        proof {
            lemma_max_length(lens);
        }
        let mut count: Vec<u64> = Vec::new();
        let mut l: usize = 0;
        while l <= max_len as usize
            invariant
                l <= max_len + 1,
                max_len <= 64,
                count@.len() == l,
                forall|k: int| 0 <= k < l ==> #[trigger] count@[k] == 0,
            decreases max_len + 1 - l,
        {
            count.push(0);
            l = l + 1;
        }
        let mut i: usize = 0;
        assert(lens.take(0) =~= Seq::<u8>::empty());
        while i < n
            invariant
                i <= n == lengths@.len(),
                lens == lengths@,
                lengths_ok(lens),
                max_len == max_length(lens),
                count@.len() == max_len + 1,
                forall|k: int| 0 <= k <= max_len ==> #[trigger] count@[k] == count_len(
                    lens.take(i as int),
                    k as nat,
                ),
            decreases n - i,
        {
            let len: usize = lengths[i] as usize;
            proof {
                lemma_max_length(lens);
                lemma_count_take_le(lens, i as int, len as nat);
                assert forall|k: int| 0 <= k <= max_len implies count_len(
                    lens.take(i + 1),
                    k as nat,
                ) == #[trigger] count@[k] + (if k == len {
                    1int
                } else {
                    0int
                }) by {
                    lemma_count_take_step(lens, i as int, k as nat);
                }
            }
            let c: u64 = count[len];
            count[len] = c + 1;
            i = i + 1;
        }
        assert(lens.take(n as int) =~= lens);
        count
    }

    /// The number of the first codeword of each length.
    fn first_codes(Ghost(lens): Ghost<Seq<u8>>, count: &Vec<u64>, max_len: u8) -> (first: Vec<u64>)
        requires
            lengths_ok(lens),
            is_prefix_code(lens),
            max_len == max_length(lens),
            count@.len() == max_len + 1,
            forall|l: int| 0 <= l <= max_len ==> #[trigger] count@[l] == count_len(lens, l as nat),
        ensures
            first@.len() == max_len + 1,
            forall|l: int| 0 <= l <= max_len ==> #[trigger] first@[l] == first_code(lens, l as nat),
    {
        let mut first: Vec<u64> = Vec::new();
        first.push(0);
        let mut code: u64 = 0;
        let mut len: usize = 1;
        proof {
            lemma_max_length(lens);
        }
        while len <= max_len as usize
            invariant
                1 <= len <= max_len + 1,
                max_len <= 64,
                lengths_ok(lens),
                is_prefix_code(lens),
                max_len == max_length(lens),
                count@.len() == max_len + 1,
                forall|l: int|
                    0 <= l <= max_len ==> #[trigger] count@[l] == count_len(lens, l as nat),
                code == first_code(lens, (len - 1) as nat),
                first@.len() == len,
                forall|l: int| 0 <= l < len ==> #[trigger] first@[l] == first_code(lens, l as nat),
            decreases max_len + 1 - len,
        {
            proof {
                lemma_first_code_bound(lens, len as nat);
                lemma2_to64();
                lemma2_to64_rest();
                if len < 64 {
                    lemma_pow2_strictly_increases(len as nat, 64);
                }
                if len < 63 {
                    lemma_pow2_strictly_increases((len - 1) as nat, 63);
                }
            }
            code = (code + count[len - 1]) * 2;
            first.push(code);
            len = len + 1;
        }
        first
    }

    /// The number of each symbol's codeword.
    fn assign_codes(lengths: &[u8], first: &Vec<u64>, max_len: u8) -> (codes: Vec<u64>)
        requires
            lengths_ok(lengths@),
            is_prefix_code(lengths@),
            max_len == max_length(lengths@),
            first@.len() == max_len + 1,
            forall|l: int| 0 <= l <= max_len ==> #[trigger] first@[l] == first_code(
                lengths@,
                l as nat,
            ),
        ensures
            codes@.len() == lengths@.len(),
            forall|s: int| 0 <= s < lengths@.len() ==> #[trigger] codes@[s] == code_value(
                lengths@,
                s,
            ),
    {
        let ghost lens = lengths@;
        let n: usize = lengths.len();
        proof {
            lemma_max_length(lens);
        }
        let mut seen: Vec<u64> = Vec::new();
        let mut l: usize = 0;
        while l <= max_len as usize
            invariant
                l <= max_len + 1,
                max_len <= 64,
                seen@.len() == l,
                forall|k: int| 0 <= k < l ==> #[trigger] seen@[k] == 0,
            decreases max_len + 1 - l,
        {
            seen.push(0);
            l = l + 1;
        }
        let mut codes: Vec<u64> = Vec::new();
        let mut s: usize = 0;
        assert(lens.take(0) =~= Seq::<u8>::empty());
        while s < n
            invariant
                s <= n == lengths@.len(),
                lens == lengths@,
                lengths_ok(lens),
                is_prefix_code(lens),
                max_len == max_length(lens),
                first@.len() == max_len + 1,
                forall|l: int|
                    0 <= l <= max_len ==> #[trigger] first@[l] == first_code(lens, l as nat),
                seen@.len() == max_len + 1,
                forall|k: int| 0 <= k <= max_len ==> #[trigger] seen@[k] == count_len(
                    lens.take(s as int),
                    k as nat,
                ),
                codes@.len() == s,
                forall|k: int| 0 <= k < s ==> #[trigger] codes@[k] == code_value(lens, k),
            decreases n - s,
        {
            let len: usize = lengths[s] as usize;
            proof {
                lemma_max_length(lens);
                lemma_code_value_bound(lens, s as int);
                lemma_count_take_le(lens, s as int, len as nat);
                lemma2_to64_rest();
                if len < 64 {
                    lemma_pow2_strictly_increases(len as nat, 64);
                }
                assert forall|k: int| 0 <= k <= max_len implies count_len(
                    lens.take(s + 1),
                    k as nat,
                ) == #[trigger] seen@[k] + (if k == len {
                    1int
                } else {
                    0int
                }) by {
                    lemma_count_take_step(lens, s as int, k as nat);
                }
            }
            let r: u64 = seen[len];
            codes.push(first[len] + r);
            seen[len] = r + 1;
            s = s + 1;
        }
        codes
    }

    /// The symbols in order of length, then symbol, and where each length
    /// starts among them.
    fn sort_symbols(lengths: &[u8], max_len: u8) -> (tables: (Vec<usize>, Vec<usize>))
        requires
            lengths_ok(lengths@),
            max_len == max_length(lengths@),
        ensures
            tables.0@.len() == max_len + 1,
            forall|l: int| 1 <= l <= max_len ==> #[trigger] tables.0@[l] == shorter(
                lengths@,
                l as nat,
            ),
            tables.1@.len() == lengths@.len(),
            forall|s: int|
                0 <= s < lengths@.len() ==> {
                    let at = shorter(lengths@, (#[trigger] lengths@[s]) as nat) + rank(lengths@, s);
                    at < tables.1@.len() && tables.1@[at as int] == s
                },
    {
        let ghost lens = lengths@;
        let n: usize = lengths.len();
        let mut offset: Vec<usize> = Vec::new();
        let mut sorted: Vec<usize> = Vec::new();
        offset.push(0);
        let mut len: usize = 1;
        proof {
            lemma_max_length(lens);
            lemma_count_zero(lens);
            assert(shorter(lens, 1) == shorter(lens, 0) + count_len(lens, 0));
            assert forall|s: int| 0 <= s < lens.len() implies (#[trigger] lens[s]) >= 1 by {
                assert(length_ok(lens[s]));
            }
        }
        while len <= max_len as usize
            invariant
                1 <= len <= max_len + 1,
                max_len <= 64,
                n == lengths@.len(),
                lens == lengths@,
                offset@.len() == len,
                forall|l: int| 1 <= l < len ==> #[trigger] offset@[l] == shorter(lens, l as nat),
                sorted@.len() == shorter(lens, len as nat),
                forall|s: int|
                    0 <= s < lens.len() && (#[trigger] lens[s]) < len ==> {
                        let at = shorter(lens, lens[s] as nat) + rank(lens, s);
                        at < sorted@.len() && sorted@[at as int] == s
                    },
            decreases max_len + 1 - len,
        {
            offset.push(sorted.len());
            let ghost start = sorted@.len();
            let mut s: usize = 0;
            assert(lens.take(0) =~= Seq::<u8>::empty());
            while s < n
                invariant
                    s <= n == lengths@.len(),
                    lens == lengths@,
                    start == shorter(lens, len as nat),
                    sorted@.len() == start + count_len(lens.take(s as int), len as nat),
                    forall|t: int|
                        0 <= t < lens.len() && ((#[trigger] lens[t]) < len || (lens[t] == len && t
                            < s)) ==> {
                            let at = shorter(lens, lens[t] as nat) + rank(lens, t);
                            at < sorted@.len() && sorted@[at as int] == t
                        },
                decreases n - s,
            {
                proof {
                    lemma_count_take_step(lens, s as int, len as nat);
                }
                if lengths[s] as usize == len {
                    sorted.push(s);
                }
                s = s + 1;
            }
            assert(lens.take(n as int) =~= lens);
            len = len + 1;
        }
        proof {
            lemma_sorted_len(lens, max_len as nat);
        }
        (offset, sorted)
    }

    /// Alphabet size.
    pub fn len(&self) -> (n: usize)
        requires
            self.wf(),
        ensures
            n == self@.len(),
    {
        self.lengths.len()
    }

    /// Whether the alphabet is empty; it never is.
    pub fn is_empty(&self) -> (empty: bool)
        requires
            self.wf(),
        ensures
            empty == (self@.len() == 0),
            !empty,
    {
        self.lengths.len() == 0
    }

    /// Code length of `symbol`.
    pub fn length_of(&self, symbol: usize) -> (len: Option<u8>)
        requires
            self.wf(),
        ensures
            len == (if symbol < self@.len() {
                Some(self@[symbol as int])
            } else {
                None
            }),
    {
        if symbol < self.lengths.len() {
            Some(self.lengths[symbol])
        } else {
            None
        }
    }

    /// The number that the codeword of `symbol` spells.
    pub fn code_of(&self, symbol: usize) -> (code: Option<u64>)
        requires
            self.wf(),
        ensures
            match code {
                Some(c) => symbol < self@.len() && c == code_value(self@, symbol as int),
                None => symbol >= self@.len(),
            },
    {
        if symbol < self.codes.len() {
            Some(self.codes[symbol])
        } else {
            None
        }
    }

    /// Longest code length.
    pub fn max_len(&self) -> (len: u8)
        requires
            self.wf(),
        ensures
            len == max_length(self@),
    {
        self.max_len
    }

    /// What `wf` says of the lengths.
    pub proof fn lemma_wf(&self)
        requires
            self.wf(),
        ensures
            lengths_ok(self@),
            is_prefix_code(self@),
    {
    }

    /// An alphabet is no larger than memory can hold.
    pub proof fn lemma_len(&self)
        ensures
            self@.len() <= usize::MAX,
    {
        let n = self.lengths.len();
        assert(n == self.lengths@.len());
    }

    /// Append the codeword of `symbol`.
    pub fn encode_symbol(&self, symbol: usize, writer: &mut BitWriter) -> (done: Result<
        (),
        HuffmanError,
    >)
        requires
            self.wf(),
            old(writer).wf(),
        ensures
            final(writer).wf(),
            match done {
                Ok(_) => {
                    &&& symbol < self@.len()
                    &&& final(writer)@ == old(writer)@ + codeword(self@, symbol as int)
                },
                Err(e) => {
                    &&& symbol >= self@.len()
                    &&& e == (HuffmanError::SymbolOutOfRange {
                        symbol,
                        alphabet: self@.len() as usize,
                    })
                    &&& *final(writer) == *old(writer)
                },
            },
    {
        if symbol >= self.lengths.len() {
            return Err(HuffmanError::SymbolOutOfRange { symbol, alphabet: self.lengths.len() });
        }
        let len: u8 = self.lengths[symbol];
        assert(length_ok(self.lengths@[symbol as int]));
        writer.write_bits(self.codes[symbol], len);
        Ok(())
    }

    /// Read one codeword and return its symbol. Where no codeword matches, the
    /// bits looked at stay read.
    pub fn decode_symbol(&self, reader: &mut BitReader<'_>) -> (symbol: Result<usize, HuffmanError>)
        requires
            self.wf(),
            old(reader).wf(),
        ensures
            final(reader).wf(),
            (symbol, final(reader)@) == read_symbol(self@, old(reader)@),
            final(reader).consumed() == old(reader).consumed() + (old(reader)@.len()
                - final(reader)@.len()),
            symbol matches Ok(s) ==> s < self@.len(),
    {
        let ghost lens = self@;
        let ghost bits = reader@;
        let mut code: u64 = 0;
        let mut len: usize = 1;
        proof {
            lemma_max_length(lens);
            lemma_unmatched_at_first(lens, bits);
            assert(bits.skip(0) =~= bits);
        }
        while len <= self.max_len as usize
            invariant
                1 <= len <= self.max_len + 1,
                self.max_len <= 64,
                self.wf(),
                lens == self@,
                bits == old(reader)@,
                reader.wf(),
                len - 1 <= bits.len(),
                reader@ == bits.skip(len - 1),
                reader.consumed() == old(reader).consumed() + (len - 1),
                code == value_of(bits.take(len - 1)),
                unmatched(lens, bits, len as nat),
            decreases self.max_len + 1 - len,
        {
            let bit = match reader.read_bit() {
                Ok(bit) => bit,
                Err(e) => {
                    proof {
                        lemma_stream_ends(lens, bits, len as nat);
                        assert(reader@ =~= bits.skip(bits.len() as int));
                    }
                    return Err(HuffmanError::Bitstream(e));
                },
            };
            let b: u64 = if bit { 1 } else { 0 };
            proof {
                lemma_next_bit(bits, (len - 1) as nat, code, b);
                assert(bits.skip(len - 1).skip(1) =~= bits.skip(len as int));
            }
            code = (code << 1) | b;
            let head: u64 = self.first[len];
            let many: u64 = self.count[len];
            if code >= head && code - head < many {
                let r: u64 = code - head;
                proof {
                    let s = lemma_found(lens, bits, len as nat, code as nat, r as nat);
                    self.lemma_place(s);
                }
                return Ok(self.sorted[self.offset[len] + r as usize]);
            }
            proof {
                lemma_unmatched_next(lens, bits, len as nat, code as nat);
            }
            len = len + 1;
        }
        proof {
            lemma_no_codeword(lens, bits);
        }
        Err(HuffmanError::InvalidCodeword)
    }

    /// Where a symbol stands among the sorted ones.
    proof fn lemma_place(&self, s: int)
        requires
            self.wf(),
            0 <= s < self@.len(),
        ensures
            ({
                let len = self@[s] as int;
                let at = self.offset@[len] + rank(self@, s);
                at < self.sorted@.len() && self.sorted@[at as int] == s
            }),
    {
        let lens = self.lengths@;
        assert(length_ok(lens[s]));
        lemma_max_length(lens);
        let len = lens[s] as int;
        assert(self.offset@[len] == shorter(lens, len as nat));
    }
}

/// Whether `bits` begins with no codeword of fewer than `len` bits.
#[verifier::opaque]
spec fn unmatched(lens: Seq<u8>, bits: Seq<bool>, len: nat) -> bool {
    forall|t: int|
        0 <= t < lens.len() && lens[t] < len ==> !#[trigger] starts_with_codeword(lens, t, bits)
}

proof fn lemma_unmatched_at_first(lens: Seq<u8>, bits: Seq<bool>)
    requires
        lengths_ok(lens),
    ensures
        unmatched(lens, bits, 1),
{
    reveal(unmatched);
    assert forall|t: int| 0 <= t < lens.len() && lens[t] < 1 implies !#[trigger]
        starts_with_codeword(lens, t, bits) by {
        assert(length_ok(lens[t]));
    }
}

/// A number that is none of the codewords of `len` bits matches none of them.
proof fn lemma_unmatched_next(lens: Seq<u8>, bits: Seq<bool>, len: nat, code: nat)
    requires
        lengths_ok(lens),
        is_prefix_code(lens),
        unmatched(lens, bits, len),
        len <= bits.len(),
        code == value_of(bits.take(len as int)),
        !(first_code(lens, len) <= code < first_code(lens, len) + count_len(lens, len)),
    ensures
        unmatched(lens, bits, len + 1),
{
    reveal(unmatched);
    assert forall|t: int| 0 <= t < lens.len() && lens[t] < len + 1 implies !#[trigger]
        starts_with_codeword(lens, t, bits) by {
        if lens[t] == len && starts_with_codeword(lens, t, bits) {
            lemma_rank_bound(lens, t);
            lemma_code_value_bound(lens, t);
            crate::bits::lemma_value_of_bits(code_value(lens, t), len);
        }
    }
}

proof fn lemma_stream_ends(lens: Seq<u8>, bits: Seq<bool>, len: nat)
    requires
        unmatched(lens, bits, len),
        bits.len() + 1 == len <= max_length(lens),
    ensures
        read_symbol(lens, bits) == (
            Err::<usize, HuffmanError>(
                HuffmanError::Bitstream(BitstreamEnd { requested: 1, remaining: 0 }),
            ),
            bits.skip(bits.len() as int),
        ),
{
    reveal(unmatched);
    assert forall|t: int| 0 <= t < lens.len() implies !#[trigger] starts_with_codeword(
        lens,
        t,
        bits,
    ) by {}
}

proof fn lemma_no_codeword(lens: Seq<u8>, bits: Seq<bool>)
    requires
        lengths_ok(lens),
        unmatched(lens, bits, max_length(lens) + 1),
        max_length(lens) <= bits.len(),
    ensures
        read_symbol(lens, bits) == (
            Err::<usize, HuffmanError>(HuffmanError::InvalidCodeword),
            bits.skip(max_length(lens) as int),
        ),
{
    reveal(unmatched);
    lemma_max_length(lens);
    assert forall|t: int| 0 <= t < lens.len() implies !#[trigger] starts_with_codeword(
        lens,
        t,
        bits,
    ) by {
        assert(lens[t] <= max_length(lens));
    }
}

/// Taking one more bit into a number.
proof fn lemma_next_bit(bits: Seq<bool>, n: nat, code: u64, b: u64)
    requires
        n < 64,
        n < bits.len(),
        code == value_of(bits.take(n as int)),
        b == (if bits[n as int] {
            1u64
        } else {
            0u64
        }),
    ensures
        ((code << 1) | b) == value_of(bits.take(n as int + 1)),
{
    lemma_value_bound(bits.take(n as int));
    lemma2_to64();
    lemma2_to64_rest();
    if n < 63 {
        lemma_pow2_strictly_increases(n, 63);
    }
    assert(bits.take(n as int + 1).drop_last() =~= bits.take(n as int));
    assert((code << 1) | b == 2 * code + b) by (bit_vector)
        requires
            code < 0x8000_0000_0000_0000u64,
            b <= 1,
    ;
}

/// A number among the codewords of `len` bits is that of a symbol.
proof fn lemma_found(lens: Seq<u8>, bits: Seq<bool>, len: nat, code: nat, r: nat) -> (s: int)
    requires
        lengths_ok(lens),
        is_prefix_code(lens),
        len <= bits.len(),
        code == value_of(bits.take(len as int)),
        code == first_code(lens, len) + r,
        r < count_len(lens, len),
    ensures
        0 <= s < lens.len(),
        lens[s] == len,
        rank(lens, s) == r,
        read_symbol(lens, bits) == (Ok::<usize, HuffmanError>(s as usize), bits.skip(len as int)),
{
    let s = lemma_symbol_of_rank(lens, len, r);
    lemma_bits_of_value(bits.take(len as int));
    assert(codeword(lens, s) == bits.take(len as int));
    assert(starts_with_codeword(lens, s, bits));
    lemma_read_symbol(lens, s, bits);
    s
}

proof fn lemma_sorted_len(lens: Seq<u8>, m: nat)
    requires
        forall|i: int| 0 <= i < lens.len() ==> (#[trigger] lens[i]) <= m,
    ensures
        shorter(lens, m + 1) == lens.len(),
    decreases lens.len(),
{
    if lens.len() == 0 {
        lemma_shorter_empty(lens, m + 1);
    } else {
        let init = lens.drop_last();
        assert forall|i: int| 0 <= i < init.len() implies (#[trigger] init[i]) <= m by {
            assert(lens[i] <= m);
        }
        lemma_sorted_len(init, m);
        assert(lens[lens.len() - 1] <= m);
        lemma_shorter_push(lens, m + 1);
    }
}

proof fn lemma_shorter_empty(lens: Seq<u8>, l: nat)
    requires
        lens.len() == 0,
    ensures
        shorter(lens, l) == 0,
    decreases l,
{
    if l > 0 {
        lemma_shorter_empty(lens, (l - 1) as nat);
    }
}

proof fn lemma_shorter_push(lens: Seq<u8>, l: nat)
    requires
        lens.len() > 0,
    ensures
        shorter(lens, l) == shorter(lens.drop_last(), l) + if lens.last() < l {
            1nat
        } else {
            0nat
        },
    decreases l,
{
    if l > 0 {
        lemma_shorter_push(lens, (l - 1) as nat);
    }
}

/// Why a code could not be built or used.
#[derive(Debug, Clone, Copy, PartialEq, Eq, Structural)]
pub enum HuffmanError {
    /// The alphabet has no symbol.
    EmptyAlphabet,
    /// A weight is negative, infinite or no number.
    InvalidWeight {
        /// The symbol.
        symbol: usize,
        /// Its weight.
        weight: Binary64,
    },
    /// A code length is zero or above sixty-four.
    InvalidLength {
        /// The symbol.
        symbol: usize,
        /// Its length.
        len: u8,
    },
    /// The lengths do not fit the code space as asked.
    KraftViolation,
    /// The symbol is not in the alphabet.
    SymbolOutOfRange {
        /// The symbol.
        symbol: usize,
        /// The alphabet's size.
        alphabet: usize,
    },
    /// The stream ended inside a codeword.
    Bitstream(BitstreamEnd),
    /// The bits match no codeword.
    InvalidCodeword,
}

impl HuffmanError {
    /// The number that the error shows.
    pub open spec fn number(&self) -> Option<Binary64> {
        match self {
            HuffmanError::InvalidWeight { weight, .. } => Some(*weight),
            _ => None,
        }
    }

    /// What `message` says, where `numeral` is how the number that the error shows reads
    /// in decimal.
    pub open spec fn text(&self, numeral: Seq<char>) -> Seq<char> {
        match self {
            HuffmanError::EmptyAlphabet => "oxideav-wma::huffman: empty symbol alphabet"@,
            HuffmanError::InvalidWeight { symbol, weight: _ } => {
                "oxideav-wma::huffman: symbol "@ + decimal(*symbol as nat)
                    + " has invalid weight "@ + numeral
            },
            HuffmanError::InvalidLength { symbol, len } => {
                "oxideav-wma::huffman: symbol "@ + decimal(*symbol as nat)
                    + " has invalid code length "@ + decimal(*len as nat)
            },
            HuffmanError::KraftViolation => {
                "oxideav-wma::huffman: code lengths do not form a complete prefix code"@
            },
            HuffmanError::SymbolOutOfRange { symbol, alphabet } => {
                "oxideav-wma::huffman: symbol "@ + decimal(*symbol as nat)
                    + " outside alphabet of "@ + decimal(*alphabet as nat)
            },
            HuffmanError::Bitstream(e) => "oxideav-wma::huffman: "@ + e.text(),
            HuffmanError::InvalidCodeword => "oxideav-wma::huffman: bits match no codeword"@,
        }
    }

    /// The number that the error shows.
    pub fn shown_number(&self) -> (number: Option<Binary64>)
        ensures
            number == self.number(),
    {
        match self {
            HuffmanError::InvalidWeight { weight, .. } => Some(*weight),
            _ => None,
        }
    }

    /// A description for people. `numeral` is how the number that `shown_number` gives
    /// reads in decimal; where there is none it is left unused.
    pub fn message(&self, numeral: &str) -> (s: String)
        ensures
            s@ == self.text(numeral@),
    {
        match self {
            HuffmanError::EmptyAlphabet => String::from_str(
                "oxideav-wma::huffman: empty symbol alphabet",
            ),
            HuffmanError::InvalidWeight { symbol, weight: _ } => {
                let mut s = String::from_str("oxideav-wma::huffman: symbol ");
                append_decimal(&mut s, *symbol as u64);
                s.append(" has invalid weight ");
                s.append(numeral);
                s
            },
            HuffmanError::InvalidLength { symbol, len } => {
                let mut s = String::from_str("oxideav-wma::huffman: symbol ");
                append_decimal(&mut s, *symbol as u64);
                s.append(" has invalid code length ");
                append_decimal(&mut s, *len as u64);
                s
            },
            HuffmanError::KraftViolation => String::from_str(
                "oxideav-wma::huffman: code lengths do not form a complete prefix code",
            ),
            HuffmanError::SymbolOutOfRange { symbol, alphabet } => {
                let mut s = String::from_str("oxideav-wma::huffman: symbol ");
                append_decimal(&mut s, *symbol as u64);
                s.append(" outside alphabet of ");
                append_decimal(&mut s, *alphabet as u64);
                s
            },
            HuffmanError::Bitstream(e) => {
                let mut s = String::from_str("oxideav-wma::huffman: ");
                s.append(e.message().as_str());
                s
            },
            HuffmanError::InvalidCodeword => String::from_str(
                "oxideav-wma::huffman: bits match no codeword",
            ),
        }
    }
}

proof fn lemma_space_all(lens: Seq<u8>, m: nat)
    requires
        m <= 64,
        forall|i: int| 0 <= i < lens.len() ==> (#[trigger] lens[i]) <= m,
    ensures
        space_upto(lens, m) == space(lens),
    decreases lens.len(),
{
    if lens.len() > 0 {
        let init = lens.drop_last();
        assert forall|i: int| 0 <= i < init.len() implies (#[trigger] init[i]) <= m by {
            assert(lens[i] <= m);
        }
        assert(lens[lens.len() - 1] <= m);
        lemma_space_all(init, m);
    }
}

/// The symbol of a number below the end of the codewords of `l` bits.
proof fn lemma_symbol_below(lens: Seq<u8>, m: nat, v: nat, l: nat) -> (s: int)
    requires
        lengths_ok(lens),
        1 <= l <= m,
        v / pow2((m - l) as nat) < first_code(lens, l) + count_len(lens, l),
    ensures
        0 <= s < lens.len(),
        lens[s] <= l,
        code_value(lens, s) == v / pow2((m - lens[s]) as nat),
    decreases l,
{
    let p = pow2((m - l) as nat);
    if v / p >= first_code(lens, l) {
        lemma_symbol_of_rank(lens, l, (v / p - first_code(lens, l)) as nat)
    } else {
        let k = (l - 1) as nat;
        if k == 0 {
            lemma_count_zero(lens);
        }
        assert(first_code(lens, l) == 2 * (first_code(lens, k) + count_len(lens, k)));
        lemma_pow2_unfold((m - k) as nat);
        lemma_pow2_pos((m - l) as nat);
        assert(v / pow2((m - k) as nat) == (v / p) / 2) by {
            vstd::arithmetic::div_mod::lemma_div_denominator(v as int, p as int, 2);
            assert(p * 2 == 2 * p);
        }
        lemma_symbol_below(lens, m, v, k)
    }
}

/// A code that fills the code space leaves no gap: enough bits always begin
/// with some codeword.
pub proof fn complete_code_has_no_gap(lens: Seq<u8>, bits: Seq<bool>) -> (s: int)
    requires
        lengths_ok(lens),
        space(lens) == pow2(64),
        bits.len() >= max_length(lens),
    ensures
        0 <= s < lens.len(),
        starts_with_codeword(lens, s, bits),
{
    lemma_max_length(lens);
    lemma2_to64();
    let m = max_length(lens);
    let head = bits.take(m as int);
    let v = value_of(head);
    lemma_value_bound(head);
    lemma_space_all(lens, m);
    lemma_space_step(lens, m);
    lemma_first_code_space(lens, m);
    lemma_pow2_adds(m, (64 - m) as nat);
    lemma_pow2_pos((64 - m) as nat);
    let e = first_code(lens, m) + count_len(lens, m);
    let q = pow2(m);
    let p = pow2((64 - m) as nat);
    assert(e * p == first_code(lens, m) * p + count_len(lens, m) * p) by (nonlinear_arith)
        requires
            e == first_code(lens, m) + count_len(lens, m),
    ;
    assert(e == q) by (nonlinear_arith)
        requires
            e * p == q * p,
            p > 0,
    ;
    assert(v / 1 == v) by (nonlinear_arith);
    let s = lemma_symbol_below(lens, m, v, m);
    let k = lens[s] as nat;
    lemma_bits_of_value(head);
    lemma_bits_of_take(v, m, k);
    assert(head.take(k as int) =~= bits.take(k as int));
    s
}

/// Bits that begin with a codeword are read as its symbol.
pub proof fn lemma_read_symbol(lens: Seq<u8>, s: int, bits: Seq<bool>)
    requires
        lengths_ok(lens),
        is_prefix_code(lens),
        0 <= s < lens.len(),
        starts_with_codeword(lens, s, bits),
    ensures
        read_symbol(lens, bits) == (Ok::<usize, HuffmanError>(s as usize), bits.skip(lens[s] as int)),
{
    let c = choose|c: int| 0 <= c < lens.len() && #[trigger] starts_with_codeword(lens, c, bits);
    codewords_are_prefix_free(lens, s, c, bits);
}

/// Reading a codeword that was just written gives back its symbol and leaves
/// what follows it.
pub proof fn decode_inverts_encode(lens: Seq<u8>, symbol: usize, rest: Seq<bool>)
    requires
        lengths_ok(lens),
        is_prefix_code(lens),
        symbol < lens.len(),
    ensures
        read_symbol(lens, codeword(lens, symbol as int) + rest) == (
            Ok::<usize, HuffmanError>(symbol),
            rest,
        ),
{
    let s = symbol as int;
    let bits = codeword(lens, s) + rest;
    lemma_bits_of_len(code_value(lens, s), lens[s] as nat);
    assert(bits.take(lens[s] as int) =~= codeword(lens, s));
    lemma_read_symbol(lens, s, bits);
    assert(bits.skip(lens[s] as int) =~= rest);
}

/// Whether the codeword of `s` is handed out before that of `t`: it is shorter, or as long
/// and of a lower symbol.
pub open spec fn handed_out_before(lens: Seq<u8>, s: int, t: int) -> bool {
    lens[s] < lens[t] || (lens[s] == lens[t] && s < t)
}

proof fn lemma_none_between(lens: Seq<u8>, a: int, b: int, l: nat)
    requires
        0 <= a <= b <= lens.len(),
        forall|u: int| a <= u < b ==> #[trigger] lens[u] != l,
    ensures
        count_len(lens.take(b), l) == count_len(lens.take(a), l),
    decreases b - a,
{
    if a < b {
        lemma_none_between(lens, a, b - 1, l);
        lemma_count_take_step(lens, b - 1, l);
    }
}

proof fn lemma_first_code_after_gap(lens: Seq<u8>, a: nat, b: nat)
    requires
        a < b,
        forall|l: nat| a < l < b ==> #[trigger] count_len(lens, l) == 0,
    ensures
        first_code(lens, b) == (first_code(lens, a) + count_len(lens, a)) * pow2((b - a) as nat),
    decreases b - a,
{
    let x = (first_code(lens, a) + count_len(lens, a)) as int;
    vstd::arithmetic::power2::lemma_pow2_unfold((b - a) as nat);
    vstd::arithmetic::power2::lemma2_to64();
    let c = (b - 1) as nat;
    if c == a {
        assert(x * 2 == 2 * x);
    } else {
        lemma_first_code_after_gap(lens, a, c);
        let p = pow2((c - a) as nat) as int;
        assert(count_len(lens, c) == 0);
        assert(2 * (x * p) == x * (2 * p)) by (nonlinear_arith);
    }
}

/// Codewords are handed out without gaps: the first is all zeros, and each next one spells
/// one more than the one before it, with zeros appended where it is longer.
pub proof fn codewords_are_consecutive(lens: Seq<u8>, s: int, t: int)
    requires
        lengths_ok(lens),
        0 <= s < lens.len(),
        0 <= t < lens.len(),
        handed_out_before(lens, s, t),
        forall|u: int|
            0 <= u < lens.len() && handed_out_before(lens, s, u) ==> !#[trigger] handed_out_before(
                lens,
                u,
                t,
            ),
    ensures
        code_value(lens, t) == (code_value(lens, s) + 1) * pow2((lens[t] - lens[s]) as nat),
{
    let a = lens[s] as nat;
    let b = lens[t] as nat;
    let n = lens.len() as int;
    assert(lens.take(n) =~= lens);
    lemma_count_take_step(lens, s, a);
    if a == b {
        assert forall|u: int| s + 1 <= u < t implies #[trigger] lens[u] != a by {
            if lens[u] == a {
                assert(handed_out_before(lens, s, u) && handed_out_before(lens, u, t));
            }
        }
        lemma_none_between(lens, s + 1, t, a);
        vstd::arithmetic::power2::lemma2_to64();
        assert(pow2((lens[t] - lens[s]) as nat) == 1);
        assert(code_value(lens, t) == code_value(lens, s) + 1);
        assert((code_value(lens, s) + 1) * 1 == code_value(lens, s) + 1) by (nonlinear_arith);
    } else {
        assert forall|u: int| s + 1 <= u < n implies #[trigger] lens[u] != a by {
            if lens[u] == a {
                assert(handed_out_before(lens, s, u) && handed_out_before(lens, u, t));
            }
        }
        lemma_none_between(lens, s + 1, n, a);
        assert forall|u: int| 0 <= u < t implies #[trigger] lens[u] != b by {
            if lens[u] == b {
                assert(handed_out_before(lens, s, u) && handed_out_before(lens, u, t));
            }
        }
        lemma_none_between(lens, 0, t, b);
        assert(lens.take(0) =~= Seq::<u8>::empty());
        assert forall|l: nat| a < l < b implies #[trigger] count_len(lens, l) == 0 by {
            assert forall|u: int| 0 <= u < n implies #[trigger] lens[u] != l by {
                if lens[u] == l {
                    assert(handed_out_before(lens, s, u) && handed_out_before(lens, u, t));
                }
            }
            lemma_none_between(lens, 0, n, l);
        }
        lemma_first_code_after_gap(lens, a, b);
        assert(rank(lens, t) == 0);
        assert(count_len(lens, a) == rank(lens, s) + 1);
    }
}

/// The codeword that is handed out first is all zeros.
pub proof fn first_codeword_is_zero(lens: Seq<u8>, s: int)
    requires
        lengths_ok(lens),
        0 <= s < lens.len(),
        forall|u: int|
            0 <= u < lens.len() && u != s ==> #[trigger] handed_out_before(lens, s, u),
    ensures
        code_value(lens, s) == 0,
{
    let n = lens.len() as int;
    let a = lens[s] as nat;
    assert(lens.take(n) =~= lens);
    assert(lens.take(0) =~= Seq::<u8>::empty());
    assert forall|u: int| 0 <= u < s implies #[trigger] lens[u] != a by {
        assert(handed_out_before(lens, s, u));
    }
    lemma_none_between(lens, 0, s, a);
    assert forall|l: nat| 0 < l < a implies #[trigger] count_len(lens, l) == 0 by {
        assert forall|u: int| 0 <= u < n implies #[trigger] lens[u] != l by {
            if u != s {
                assert(handed_out_before(lens, s, u));
            }
        }
        lemma_none_between(lens, 0, n, l);
    }
    assert(length_ok(lens[s]));
    lemma_count_zero(lens);
    lemma_first_code_after_gap(lens, 0, a);
    let p = pow2(a) as int;
    assert(0 * p == 0);
}

proof fn lemma_space_push(lens: Seq<u8>, len: u8)
    requires
        len <= 64,
    ensures
        space(lens.push(len)) == space(lens) + pow2((64 - len) as nat),
{
    assert(lens.push(len).drop_last() =~= lens);
}

proof fn lemma_space_update(lens: Seq<u8>, s: int, len: u8)
    requires
        0 <= s < lens.len(),
        len <= 64,
        lens[s] <= 64,
    ensures
        space(lens.update(s, len)) + pow2((64 - lens[s]) as nat) == space(lens) + pow2(
            (64 - len) as nat,
        ),
    decreases lens.len(),
{
    let init = lens.drop_last();
    if s == lens.len() - 1 {
        assert(lens.update(s, len).drop_last() =~= init);
    } else {
        lemma_space_update(init, s, len);
        assert(lens.update(s, len).drop_last() =~= init.update(s, len));
    }
}

/// Two codewords of one bit fill the code space, and splitting a codeword into two that are
/// a bit longer takes as much of it as before: lengths fill the space just as the leaves of
/// a binary tree do.
pub proof fn splitting_a_codeword_keeps_the_space(lens: Seq<u8>, s: int)
    requires
        0 <= s < lens.len(),
        lens[s] < 64,
    ensures
        space(seq![1u8, 1u8]) == pow2(64),
        space(lens.update(s, (lens[s] + 1) as u8).push((lens[s] + 1) as u8)) == space(lens),
{
    let longer = (lens[s] + 1) as u8;
    lemma_space_update(lens, s, longer);
    lemma_space_push(lens.update(s, longer), longer);
    vstd::arithmetic::power2::lemma_pow2_unfold((64 - lens[s]) as nat);
    vstd::arithmetic::power2::lemma_pow2_unfold(64);
    let none = Seq::<u8>::empty();
    lemma_space_push(none, 1);
    lemma_space_push(none.push(1), 1);
    assert(seq![1u8, 1u8] =~= none.push(1).push(1));
}

/// Another codeword takes its share of the code space, which halves with each bit.
pub proof fn codewords_take_their_share(lens: Seq<u8>, len: u8)
    requires
        1 <= len <= 64,
    ensures
        space(lens.push(len)) == space(lens) + pow2((64 - len) as nat),
        space(Seq::<u8>::empty()) == 0,
        2 * pow2((64 - len) as nat) == pow2((65 - len) as nat),
{
    lemma_space_push(lens, len);
    vstd::arithmetic::power2::lemma_pow2_unfold((65 - len) as nat);
}

/// Codes that are complete, but for the lone one-bit code, fill the space exactly, and every
/// complete code is a prefix code.
pub proof fn complete_codes_are_prefix_codes(lens: Seq<u8>)
    requires
        is_complete(lens),
    ensures
        is_prefix_code(lens),
        lens.len() > 1 ==> space(lens) == pow2(64),
{
    if lens == seq![1u8] {
        let none = Seq::<u8>::empty();
        lemma_space_push(none, 1);
        assert(seq![1u8] =~= none.push(1));
        vstd::arithmetic::power2::lemma_pow2_unfold(64);
    }
}

/// The longest length is that of some symbol, and no symbol's is longer.
pub proof fn longest_length_is_attained(lens: Seq<u8>, i: int)
    requires
        0 <= i < lens.len(),
    ensures
        lens[i] <= max_length(lens),
        exists|k: int| 0 <= k < lens.len() && #[trigger] lens[k] == max_length(lens),
    decreases lens.len(),
{
    reveal_with_fuel(max_length, 2);
    let init = lens.drop_last();
    if lens.len() > 1 {
        longest_length_is_attained(
            init,
            if i < init.len() {
                i
            } else {
                0
            },
        );
        let k = choose|k: int| 0 <= k < init.len() && #[trigger] init[k] == max_length(init);
        assert(lens[k] == init[k]);
    }
    assert(lens[lens.len() - 1] == lens.last());
}

} // verus!

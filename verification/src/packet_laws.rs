//! How packets are spelled, and that parsing gives back what was spelled.
use crate::bits::{bits_of, lemma_bits_of_len, lemma_value_of_bits, value_of};
use crate::common::{codeword, codewords_are_found, stands_alone, CoefBook, Version, WmaError};
use crate::context::{
    channel_coefs, channel_exponents, coefficients_from, gain_fields, gain_in_range, gain_sum,
    large_value, level_width, literal_run, literals, number, packet_values, read_exponents,
    read_flags, read_gain, run_level, silence, ExponentValues, FrameValues, WmaContext,
};
use vstd::arithmetic::power2::{lemma2_to64, pow2};
use vstd::prelude::*;

verus! {

// ------------------------------------------------------------ numbers

/// A field of `n` bits is read back, and nothing past it is read.
pub proof fn fields_are_read_back(v: nat, n: nat, rest: Seq<bool>)
    requires
        v < pow2(n),
    ensures
        number(bits_of(v, n) + rest, n) == (Ok::<nat, WmaError>(v), rest),
{
    lemma_bits_of_len(v, n);
    lemma_value_of_bits(v, n);
    assert((bits_of(v, n) + rest).take(n as int) =~= bits_of(v, n));
    assert((bits_of(v, n) + rest).skip(n as int) =~= rest);
}

/// A field that is cut short runs out of bits.
pub proof fn cut_fields_run_out(bits: Seq<bool>, n: nat)
    requires
        bits.len() < n,
    ensures
        number(bits, n) == (Err::<nat, WmaError>(WmaError::OutOfBits), bits),
{
}

proof fn lemma_flag(flag: bool, rest: Seq<bool>)
    ensures
        number(seq![flag] + rest, 1) == (
            Ok::<nat, WmaError>(if flag {
                1
            } else {
                0
            }),
            rest,
        ),
{
    let bits = seq![flag] + rest;
    assert(bits.take(1) =~= seq![flag]);
    assert(bits.skip(1) =~= rest);
    reveal_with_fuel(value_of, 2);
    assert(seq![flag].drop_last() =~= Seq::<bool>::empty());
}

/// A field of `a + b` bits is a field of `a` bits and one of `b` bits.
proof fn lemma_field_splits(x: nat, a: nat, y: nat, b: nat)
    requires
        y < pow2(b),
    ensures
        bits_of(x * pow2(b) + y, a + b) == bits_of(x, a) + bits_of(y, b),
    decreases b,
{
    lemma2_to64();
    if b == 0 {
        assert(x * 1 == x) by (nonlinear_arith);
        assert(bits_of(y, 0) =~= Seq::<bool>::empty());
        assert(bits_of(x, a) + bits_of(y, 0) =~= bits_of(x, a));
    } else {
        let c = (b - 1) as nat;
        vstd::arithmetic::power2::lemma_pow2_unfold(b);
        let p = pow2(c) as int;
        let v = x * pow2(b) + y;
        assert(x * (2 * p) == 2 * (x * p)) by (nonlinear_arith);
        assert(v / 2 == x * pow2(c) + y / 2);
        assert(v % 2 == y % 2);
        lemma_field_splits(x, a, y / 2, c);
        assert(bits_of(v, a + b) =~= bits_of(v / 2, (a + c) as nat).push(v % 2 == 1));
        assert(bits_of(x, a) + bits_of(y, b) =~= (bits_of(x, a) + bits_of(y / 2, c)).push(
            y % 2 == 1,
        ));
    }
}

/// The bits of a progressive number in one of its four forms: a zero and seven bits; a
/// one, a zero and fourteen bits, counted from 0x80 on; two ones, a zero and twenty-one
/// bits, counted from 0x4080 on; three ones and twenty-eight bits.
pub open spec fn progressive_text(form: int, value: nat) -> Seq<bool> {
    if form == 0 {
        seq![false] + bits_of(value, 7)
    } else if form == 1 {
        seq![true, false] + bits_of((value - 0x80) as nat, 14)
    } else if form == 2 {
        seq![true, true, false] + bits_of((value - 0x4080) as nat, 21)
    } else {
        seq![true, true, true] + bits_of(value, 28)
    }
}

/// Whether a form of a progressive number can spell a value.
pub open spec fn form_spells(form: int, value: nat) -> bool {
    ||| form == 0 && value < 0x80
    ||| form == 1 && 0x80 <= value < 0x80 + 0x4000
    ||| form == 2 && 0x4080 <= value < 0x4080 + 0x20_0000
    ||| form == 3 && value < 0x1000_0000
}

proof fn lemma_lead_bits()
    ensures
        bits_of(0, 1) == seq![false],
        bits_of(2, 2) == seq![true, false],
        bits_of(6, 3) == seq![true, true, false],
        bits_of(7, 3) == seq![true, true, true],
{
    reveal_with_fuel(bits_of, 4);
    assert(bits_of(0, 1) =~= seq![false]);
    assert(bits_of(2, 2) =~= seq![true, false]);
    assert(bits_of(6, 3) =~= seq![true, true, false]);
    assert(bits_of(7, 3) =~= seq![true, true, true]);
}

/// Two bytes in a row.
proof fn lemma_two_bytes(whole: nat)
    ensures
        bits_of(whole, 16) == bits_of(whole / 0x100, 8) + bits_of(whole % 0x100, 8),
{
    lemma2_to64();
    lemma_field_splits(whole / 0x100, 8, whole % 0x100, 8);
}

/// Three bytes in a row.
proof fn lemma_three_bytes(whole: nat)
    ensures
        bits_of(whole, 24) == bits_of(whole / 0x1_0000, 8) + bits_of((whole / 0x100) % 0x100, 8)
            + bits_of(whole % 0x100, 8),
{
    lemma2_to64();
    lemma_field_splits(whole / 0x100, 16, whole % 0x100, 8);
    lemma_two_bytes(whole / 0x100);
    assert(whole / 0x100 / 0x100 == whole / 0x1_0000);
}

proof fn lemma_first_form(value: nat, rest: Seq<bool>)
    requires
        value < 0x80,
    ensures
        large_value(seq![false] + bits_of(value, 7) + rest) == (Ok::<nat, WmaError>(value), rest),
{
    lemma2_to64();
    lemma_lead_bits();
    lemma_field_splits(0, 1, value, 7);
    fields_are_read_back(value, 8, rest);
}

proof fn lemma_second_form(value: nat, rest: Seq<bool>)
    requires
        value < 0x4000,
    ensures
        large_value(seq![true, false] + bits_of(value, 14) + rest) == (
            Ok::<nat, WmaError>(value + 0x80),
            rest,
        ),
{
    let whole = 2 * 0x4000 + value;
    let a = whole / 0x100;
    let b = whole % 0x100;
    assert(seq![true, false] + bits_of(value, 14) == bits_of(a, 8) + bits_of(b, 8)) by {
        lemma2_to64();
        lemma_lead_bits();
        lemma_field_splits(2, 2, value, 14);
        lemma_two_bytes(whole);
    }
    assert(pow2(8) == 0x100) by {
        lemma2_to64();
    }
    fields_are_read_back(a, 8, bits_of(b, 8) + rest);
    fields_are_read_back(b, 8, rest);
    assert(bits_of(a, 8) + bits_of(b, 8) + rest =~= bits_of(a, 8) + (bits_of(b, 8) + rest));
    assert((a % 0x80) * 0x100 + b == value);
}

/// What three bytes of a progressive number give, where they say that it has a third.
proof fn lemma_third_byte(a: nat, b: nat, c: nat, rest: Seq<bool>)
    requires
        0x80 <= a < 0x100,
        b < 0x100,
        c < 0x100,
        (a % 0x80) * 0x100 + b >= 0x4000,
    ensures
        ({
            let three = (((a % 0x80) * 0x100 + b) % 0x4000) * 0x100 + c;
            let text = bits_of(a, 8) + bits_of(b, 8) + bits_of(c, 8) + rest;
            large_value(text) == if three < 0x20_0000 {
                (Ok::<nat, WmaError>(three + 0x4080), rest)
            } else {
                match number(rest, 7) {
                    (Err(e), rest) => (Err(e), rest),
                    (Ok(d), rest) => (Ok((three % 0x20_0000) * 0x80 + d), rest),
                }
            }
        }),
{
    assert(pow2(8) == 0x100) by {
        lemma2_to64();
    }
    let after = bits_of(c, 8) + rest;
    fields_are_read_back(a, 8, bits_of(b, 8) + after);
    fields_are_read_back(b, 8, after);
    fields_are_read_back(c, 8, rest);
    assert(bits_of(a, 8) + bits_of(b, 8) + bits_of(c, 8) + rest =~= bits_of(a, 8) + (bits_of(b, 8)
        + after));
}

proof fn lemma_third_numbers(whole: nat)
    requires
        6 * 0x20_0000 <= whole < 8 * 0x20_0000,
    ensures
        ({
            let a = whole / 0x1_0000;
            let b = (whole / 0x100) % 0x100;
            let c = whole % 0x100;
            let two = (a % 0x80) * 0x100 + b;
            &&& 0x80 <= a < 0x100
            &&& two >= 0x4000
            &&& (two % 0x4000) * 0x100 + c == whole - 6 * 0x20_0000
        }),
{
    let a = whole / 0x1_0000;
    let b = (whole / 0x100) % 0x100;
    let c = whole % 0x100;
    let two = (a % 0x80) * 0x100 + b;
    assert(a % 0x80 == a - 0x80);
    assert(two == whole / 0x100 - 0x8000);
    assert(two % 0x4000 == two - 0x4000);
}

proof fn lemma_third_form(value: nat, rest: Seq<bool>)
    requires
        value < 0x20_0000,
    ensures
        large_value(seq![true, true, false] + bits_of(value, 21) + rest) == (
            Ok::<nat, WmaError>(value + 0x4080),
            rest,
        ),
{
    let whole = 6 * 0x20_0000 + value;
    let a = whole / 0x1_0000;
    let b = (whole / 0x100) % 0x100;
    let c = whole % 0x100;
    assert(seq![true, true, false] + bits_of(value, 21) == bits_of(a, 8) + bits_of(b, 8) + bits_of(
        c,
        8,
    )) by {
        lemma2_to64();
        lemma_lead_bits();
        lemma_field_splits(6, 3, value, 21);
        lemma_three_bytes(whole);
    }
    lemma_third_numbers(whole);
    lemma_third_byte(a, b, c, rest);
}

proof fn lemma_fourth_text(value: nat)
    requires
        value < 0x1000_0000,
    ensures
        ({
            let high = 7 * 0x20_0000 + value / 0x80;
            seq![true, true, true] + bits_of(value, 28) == bits_of(high / 0x1_0000, 8) + bits_of(
                (high / 0x100) % 0x100,
                8,
            ) + bits_of(high % 0x100, 8) + bits_of(value % 0x80, 7)
        }),
{
    let high = 7 * 0x20_0000 + value / 0x80;
    lemma2_to64();
    lemma_lead_bits();
    lemma_field_splits(7, 3, value, 28);
    lemma_field_splits(high, 24, value % 0x80, 7);
    assert(high * 0x80 + value % 0x80 == 7 * 0x1000_0000 + value);
    lemma_three_bytes(high);
}

proof fn lemma_fourth_form(value: nat, rest: Seq<bool>)
    requires
        value < 0x1000_0000,
    ensures
        large_value(seq![true, true, true] + bits_of(value, 28) + rest) == (
            Ok::<nat, WmaError>(value),
            rest,
        ),
{
    let high = 7 * 0x20_0000 + value / 0x80;
    let a = high / 0x1_0000;
    let b = (high / 0x100) % 0x100;
    let c = high % 0x100;
    let d = value % 0x80;
    lemma_fourth_text(value);
    assert(pow2(7) == 0x80) by {
        lemma2_to64();
    }
    lemma_third_numbers(high);
    lemma_third_byte(a, b, c, bits_of(d, 7) + rest);
    fields_are_read_back(d, 7, rest);
    let lead = bits_of(a, 8) + bits_of(b, 8) + bits_of(c, 8);
    assert(lead + bits_of(d, 7) + rest =~= lead + (bits_of(d, 7) + rest));
    let three = (((a % 0x80) * 0x100 + b) % 0x4000) * 0x100 + c;
    assert(three == 0x20_0000 + value / 0x80);
    assert(three % 0x20_0000 == value / 0x80);
}

/// A progressive number is read back from each form that spells it, and nothing past it
/// is read.
pub proof fn progressive_numbers_are_read_back(form: int, value: nat, rest: Seq<bool>)
    requires
        form_spells(form, value),
    ensures
        large_value(progressive_text(form, value) + rest) == (Ok::<nat, WmaError>(value), rest),
{
    if form == 0 {
        lemma_first_form(value, rest);
    } else if form == 1 {
        lemma_second_form((value - 0x80) as nat, rest);
    } else if form == 2 {
        lemma_third_form((value - 0x4080) as nat, rest);
    } else {
        lemma_fourth_form(value, rest);
    }
}

/// The bits of a version 2 literal run: a zero for none; a one, a zero and two bits; two
/// ones and as many bits as count the frame.
pub open spec fn run_text(form: int, run: nat, frame_len_bits: nat) -> Seq<bool> {
    if form == 0 {
        seq![false]
    } else if form == 1 {
        seq![true, false] + bits_of(run, 2)
    } else {
        seq![true, true] + bits_of(run, frame_len_bits)
    }
}

/// Whether a form of a version 2 literal run can spell a run.
pub open spec fn form_spells_run(form: int, run: nat, frame_len_bits: nat) -> bool {
    ||| form == 0 && run == 0
    ||| form == 1 && run < 4
    ||| form == 2 && run < pow2(frame_len_bits)
}

/// A version 2 literal run is read back from each form that spells it, and nothing past
/// it is read.
pub proof fn literal_runs_are_read_back(ctx: WmaContext, form: int, run: nat, rest: Seq<bool>)
    requires
        form_spells_run(form, run, ctx.frame_len_bits as nat),
    ensures
        literal_run(ctx, run_text(form, run, ctx.frame_len_bits as nat) + rest) == (
            Ok::<nat, WmaError>(run),
            rest,
        ),
{
    lemma2_to64();
    let width = ctx.frame_len_bits as nat;
    let text = run_text(form, run, width);
    if form == 0 {
        lemma_flag(false, rest);
    } else if form == 1 {
        let after = bits_of(run, 2) + rest;
        lemma_flag(true, seq![false] + after);
        lemma_flag(false, after);
        fields_are_read_back(run, 2, rest);
        assert(text + rest =~= seq![true] + (seq![false] + after));
    } else {
        let after = bits_of(run, width) + rest;
        lemma_flag(true, seq![true] + after);
        lemma_flag(true, after);
        fields_are_read_back(run, width, rest);
        assert(text + rest =~= seq![true] + (seq![true] + after));
    }
}

/// A version 1 literal level is the narrower the greater the total gain: thirteen bits
/// wide, less one for each of 15, 32, 40 and 45 that the gain reaches.
pub proof fn levels_narrow_with_the_gain(total_gain: nat)
    ensures
        level_width(total_gain) == 13 - (if total_gain >= 15 {
            1int
        } else {
            0
        }) - (if total_gain >= 32 {
            1int
        } else {
            0
        }) - (if total_gain >= 40 {
            1int
        } else {
            0
        }) - (if total_gain >= 45 {
            1int
        } else {
            0
        }),
{
}

// ------------------------------------------------------------ coefficients

/// A coefficient as a packet spells it: the symbol of its codeword, the run of zeros
/// before it, its size and its sign. After symbol 0 the size and the run are spelled out,
/// in version 2 in one of several forms.
pub struct SpelledCoef {
    /// The symbol of the codeword.
    pub symbol: int,
    /// The run of zeros before the coefficient.
    pub run: nat,
    /// The size of the coefficient.
    pub level: nat,
    /// Whether it is negative.
    pub negative: bool,
    /// The form of a spelled-out version 2 size.
    pub level_form: int,
    /// The form of a spelled-out version 2 run.
    pub run_form: int,
}

/// The book of the main channels or of the side channel: the first or the second of the
/// pair in use.
pub open spec fn book_in_use(ctx: WmaContext, side: bool) -> CoefBook {
    if side {
        ctx.tables.books@[2 * ctx.coef_vlc_table + 1]
    } else {
        ctx.tables.books@[2 * ctx.coef_vlc_table as int]
    }
}

/// The bits of a coefficient's run and size.
pub open spec fn pair_text(ctx: WmaContext, side: bool, total_gain: nat, c: SpelledCoef) -> Seq<
    bool,
> {
    let book = book_in_use(ctx, side);
    let width = ctx.frame_len_bits as nat;
    let word = codeword(book.codes@, book.bits@, c.symbol);
    if c.symbol != 0 {
        word
    } else {
        match ctx.version {
            Version::V1 => word + bits_of(c.level, level_width(total_gain)) + bits_of(
                c.run,
                width,
            ),
            Version::V2 => word + progressive_text(c.level_form, c.level) + run_text(
                c.run_form,
                c.run,
                width,
            ),
        }
    }
}

/// Whether `pair_text` spells a coefficient's run and size.
pub open spec fn is_spelled(ctx: WmaContext, side: bool, total_gain: nat, c: SpelledCoef) -> bool {
    let book = book_in_use(ctx, side);
    let width = ctx.frame_len_bits as nat;
    &&& stands_alone(book.codes@, book.bits@, c.symbol)
    &&& c.symbol != 1
    &&& c.symbol > 1 ==> c.run == book.run@[c.symbol] && c.level == book.level@[c.symbol]
    &&& c.symbol == 0 && ctx.version == Version::V1 ==> c.level < pow2(level_width(total_gain))
        && c.run < pow2(width)
    &&& c.symbol == 0 && ctx.version == Version::V2 ==> form_spells(c.level_form, c.level)
        && form_spells_run(c.run_form, c.run, width)
}

proof fn lemma_book(ctx: WmaContext, side: bool)
    requires
        ctx.wf(),
    ensures
        book_in_use(ctx, side) == ctx.book_of(side),
        book_in_use(ctx, side).wf(),
        book_in_use(ctx, side).codes@.len() <= usize::MAX,
{
    let at = 2 * ctx.coef_vlc_table + if side {
        1int
    } else {
        0int
    };
    assert(ctx.tables.books@[at].wf());
    assert(book_in_use(ctx, side).codes.len() <= usize::MAX);
}

proof fn lemma_literals(ctx: WmaContext, total_gain: nat, c: SpelledCoef, rest: Seq<bool>)
    requires
        ctx.version == Version::V1 ==> c.level < pow2(level_width(total_gain)) && c.run < pow2(
            ctx.frame_len_bits as nat,
        ),
        ctx.version == Version::V2 ==> form_spells(c.level_form, c.level) && form_spells_run(
            c.run_form,
            c.run,
            ctx.frame_len_bits as nat,
        ),
    ensures
        ctx.version == Version::V1 ==> literals(
            ctx,
            total_gain,
            bits_of(c.level, level_width(total_gain)) + (bits_of(
                c.run,
                ctx.frame_len_bits as nat,
            ) + rest),
        ) == (Ok::<(nat, nat), WmaError>((c.run, c.level)), rest),
        ctx.version == Version::V2 ==> literals(
            ctx,
            total_gain,
            progressive_text(c.level_form, c.level) + (run_text(
                c.run_form,
                c.run,
                ctx.frame_len_bits as nat,
            ) + rest),
        ) == (Ok::<(nat, nat), WmaError>((c.run, c.level)), rest),
{
    let width = ctx.frame_len_bits as nat;
    match ctx.version {
        Version::V1 => {
            fields_are_read_back(c.level, level_width(total_gain), bits_of(c.run, width) + rest);
            fields_are_read_back(c.run, width, rest);
        },
        Version::V2 => {
            progressive_numbers_are_read_back(
                c.level_form,
                c.level,
                run_text(c.run_form, c.run, width) + rest,
            );
            literal_runs_are_read_back(ctx, c.run_form, c.run, rest);
        },
    }
}

/// What a codeword and the bits after it give.
proof fn lemma_symbol_read(
    ctx: WmaContext,
    side: bool,
    total_gain: nat,
    symbol: int,
    after: Seq<bool>,
)
    requires
        ctx.wf(),
        stands_alone(book_in_use(ctx, side).codes@, book_in_use(ctx, side).bits@, symbol),
    ensures
        ({
            let book = book_in_use(ctx, side);
            let read = run_level(
                ctx,
                side,
                total_gain,
                codeword(book.codes@, book.bits@, symbol) + after,
            );
            &&& symbol == 0 ==> read == (match literals(ctx, total_gain, after) {
                (Err(e), rest) => (Err::<Option<(nat, nat)>, WmaError>(e), rest),
                (Ok(pair), rest) => (Ok(Some(pair)), rest),
            })
            &&& symbol == 1 ==> read == (Ok::<Option<(nat, nat)>, WmaError>(None), after)
            &&& symbol > 1 ==> read == (
                Ok::<Option<(nat, nat)>, WmaError>(
                    Some((book.run@[symbol] as nat, book.level@[symbol] as nat)),
                ),
                after,
            )
        }),
{
    lemma_book(ctx, side);
    let book = book_in_use(ctx, side);
    codewords_are_found(book.codes@, book.bits@, symbol, after);
}

proof fn lemma_four_parts(a: Seq<bool>, b: Seq<bool>, c: Seq<bool>, d: Seq<bool>)
    ensures
        a + b + c + d == a + (b + (c + d)),
{
    assert(a + b + c + d =~= a + (b + (c + d)));
}

/// A spelled run and size are read back, and nothing past them is read.
pub proof fn pairs_are_read_back(
    ctx: WmaContext,
    side: bool,
    total_gain: nat,
    c: SpelledCoef,
    rest: Seq<bool>,
)
    requires
        ctx.wf(),
        is_spelled(ctx, side, total_gain, c),
    ensures
        run_level(ctx, side, total_gain, pair_text(ctx, side, total_gain, c) + rest) == (
            Ok::<Option<(nat, nat)>, WmaError>(Some((c.run, c.level))),
            rest,
        ),
{
    let book = book_in_use(ctx, side);
    let width = ctx.frame_len_bits as nat;
    let word = codeword(book.codes@, book.bits@, c.symbol);
    if c.symbol != 0 {
        lemma_symbol_read(ctx, side, total_gain, c.symbol, rest);
    } else {
        let (level, run) = match ctx.version {
            Version::V1 => (bits_of(c.level, level_width(total_gain)), bits_of(c.run, width)),
            Version::V2 => (
                progressive_text(c.level_form, c.level),
                run_text(c.run_form, c.run, width),
            ),
        };
        lemma_symbol_read(ctx, side, total_gain, 0, level + (run + rest));
        lemma_literals(ctx, total_gain, c, rest);
        lemma_four_parts(word, level, run, rest);
    }
}

/// Symbol 1 ends a channel's coefficients.
pub proof fn end_is_read_back(ctx: WmaContext, side: bool, total_gain: nat, rest: Seq<bool>)
    requires
        ctx.wf(),
        stands_alone(book_in_use(ctx, side).codes@, book_in_use(ctx, side).bits@, 1),
    ensures
        run_level(
            ctx,
            side,
            total_gain,
            codeword(book_in_use(ctx, side).codes@, book_in_use(ctx, side).bits@, 1) + rest,
        ) == (Ok::<Option<(nat, nat)>, WmaError>(None), rest),
{
    lemma_symbol_read(ctx, side, total_gain, 1, rest);
}

/// The place after the last of coefficients that are spelled from place `i` on: each
/// takes its run of zeros and a place of its own.
pub open spec fn place_after(i: nat, coefs: Seq<SpelledCoef>) -> nat
    decreases coefs.len(),
{
    if coefs.len() == 0 {
        i
    } else {
        place_after(i + coefs[0].run + 1, coefs.skip(1))
    }
}

/// The place of coefficient `k` of those that are spelled from place `i` on.
pub open spec fn place_of(i: nat, coefs: Seq<SpelledCoef>, k: int) -> nat {
    place_after(i, coefs.take(k)) + coefs[k].run
}

/// The bits of a channel's coefficients, each followed by its sign.
pub open spec fn coefs_text(
    ctx: WmaContext,
    side: bool,
    total_gain: nat,
    coefs: Seq<SpelledCoef>,
) -> Seq<bool>
    decreases coefs.len(),
{
    if coefs.len() == 0 {
        Seq::empty()
    } else {
        pair_text(ctx, side, total_gain, coefs[0]) + seq![coefs[0].negative] + coefs_text(
            ctx,
            side,
            total_gain,
            coefs.skip(1),
        )
    }
}

/// What follows a channel's coefficients: the codeword of symbol 1, unless they reach the
/// last coded place.
pub open spec fn end_text(ctx: WmaContext, side: bool, after: nat) -> Seq<bool> {
    if after < ctx.coefs_end {
        codeword(book_in_use(ctx, side).codes@, book_in_use(ctx, side).bits@, 1)
    } else {
        Seq::empty()
    }
}

/// Whether coefficients can be spelled from place `i` on: each run starts at a coded
/// place, and each coefficient lies in the frame.
pub open spec fn are_spelled(
    ctx: WmaContext,
    side: bool,
    total_gain: nat,
    i: nat,
    coefs: Seq<SpelledCoef>,
) -> bool {
    forall|k: int|
        0 <= k < coefs.len() ==> {
            &&& is_spelled(ctx, side, total_gain, #[trigger] coefs[k])
            &&& place_after(i, coefs.take(k)) < ctx.coefs_end
            &&& place_of(i, coefs, k) < ctx.frame_len
        }
}

proof fn lemma_place_after_grows(i: nat, coefs: Seq<SpelledCoef>)
    ensures
        i <= place_after(i, coefs),
    decreases coefs.len(),
{
    if coefs.len() > 0 {
        lemma_place_after_grows(i + coefs[0].run + 1, coefs.skip(1));
    }
}

proof fn lemma_place_shift(i: nat, coefs: Seq<SpelledCoef>, k: int)
    requires
        0 < k <= coefs.len(),
    ensures
        place_after(i, coefs.take(k)) == place_after(
            i + coefs[0].run + 1,
            coefs.skip(1).take(k - 1),
        ),
        k < coefs.len() ==> place_of(i, coefs, k) == place_of(
            i + coefs[0].run + 1,
            coefs.skip(1),
            k - 1,
        ),
{
    assert(coefs.take(k).skip(1) =~= coefs.skip(1).take(k - 1));
}

proof fn lemma_are_spelled_tail(
    ctx: WmaContext,
    side: bool,
    total_gain: nat,
    i: nat,
    coefs: Seq<SpelledCoef>,
)
    requires
        coefs.len() > 0,
        are_spelled(ctx, side, total_gain, i, coefs),
    ensures
        are_spelled(ctx, side, total_gain, i + coefs[0].run + 1, coefs.skip(1)),
{
    let tail = coefs.skip(1);
    let next = i + coefs[0].run + 1;
    assert forall|k: int| 0 <= k < tail.len() implies is_spelled(
        ctx,
        side,
        total_gain,
        #[trigger] tail[k],
    ) && place_after(next, tail.take(k)) < ctx.coefs_end && place_of(next, tail, k)
        < ctx.frame_len by {
        assert(tail[k] == coefs[k + 1]);
        lemma_place_shift(i, coefs, k + 1);
    }
}

/// The value of a spelled coefficient.
pub open spec fn signed_level(c: SpelledCoef) -> int {
    if c.negative {
        -c.level
    } else {
        c.level as int
    }
}

proof fn lemma_level_range(ctx: WmaContext, side: bool, total_gain: nat, c: SpelledCoef)
    requires
        ctx.wf(),
        is_spelled(ctx, side, total_gain, c),
    ensures
        c.level < 0x1000_0000,
{
    lemma2_to64();
}

/// Reading one coefficient.
proof fn lemma_coef_step(
    ctx: WmaContext,
    side: bool,
    total_gain: nat,
    i: nat,
    c: SpelledCoef,
    done: Seq<i64>,
    more: Seq<bool>,
)
    requires
        ctx.wf(),
        done.len() == ctx.frame_len,
        is_spelled(ctx, side, total_gain, c),
        i < ctx.coefs_end,
        i + c.run < ctx.frame_len,
    ensures
        coefficients_from(
            ctx,
            side,
            total_gain,
            i,
            done,
            pair_text(ctx, side, total_gain, c) + (seq![c.negative] + more),
        ) == coefficients_from(
            ctx,
            side,
            total_gain,
            i + c.run + 1,
            done.update((i + c.run) as int, signed_level(c) as i64),
            more,
        ),
{
    lemma_level_range(ctx, side, total_gain, c);
    pairs_are_read_back(ctx, side, total_gain, c, seq![c.negative] + more);
    lemma_flag(c.negative, more);
}

/// `done` with coefficients that are spelled from place `i` on.
spec fn placed(done: Seq<i64>, i: nat, coefs: Seq<SpelledCoef>) -> Seq<i64>
    decreases coefs.len(),
{
    if coefs.len() == 0 {
        done
    } else {
        placed(
            done.update((i + coefs[0].run) as int, signed_level(coefs[0]) as i64),
            i + coefs[0].run + 1,
            coefs.skip(1),
        )
    }
}

proof fn lemma_coefs_read(
    ctx: WmaContext,
    side: bool,
    total_gain: nat,
    i: nat,
    coefs: Seq<SpelledCoef>,
    done: Seq<i64>,
    rest: Seq<bool>,
)
    requires
        ctx.wf(),
        done.len() == ctx.frame_len,
        are_spelled(ctx, side, total_gain, i, coefs),
        place_after(i, coefs) < ctx.coefs_end ==> stands_alone(
            book_in_use(ctx, side).codes@,
            book_in_use(ctx, side).bits@,
            1,
        ),
    ensures
        coefficients_from(
            ctx,
            side,
            total_gain,
            i,
            done,
            coefs_text(ctx, side, total_gain, coefs) + end_text(ctx, side, place_after(i, coefs))
                + rest,
        ) == (Ok::<Seq<i64>, WmaError>(placed(done, i, coefs)), rest),
    decreases coefs.len(),
{
    let end = end_text(ctx, side, place_after(i, coefs));
    let text = coefs_text(ctx, side, total_gain, coefs) + end + rest;
    if coefs.len() == 0 {
        assert(text =~= end + rest);
        if i < ctx.coefs_end {
            end_is_read_back(ctx, side, total_gain, rest);
        } else {
            assert(text =~= rest);
        }
    } else {
        let c = coefs[0];
        let tail = coefs.skip(1);
        let at = i + c.run;
        let more = coefs_text(ctx, side, total_gain, tail) + end + rest;
        assert(is_spelled(ctx, side, total_gain, c));
        assert(coefs.take(0) =~= Seq::<SpelledCoef>::empty());
        assert(place_of(i, coefs, 0) == at);
        lemma_are_spelled_tail(ctx, side, total_gain, i, coefs);
        lemma_coef_step(ctx, side, total_gain, i, c, done, more);
        assert(text =~= pair_text(ctx, side, total_gain, c) + (seq![c.negative] + more));
        lemma_coefs_read(
            ctx,
            side,
            total_gain,
            at + 1,
            tail,
            done.update(at as int, signed_level(c) as i64),
            rest,
        );
    }
}

/// What the placed coefficients are, at place `j`.
proof fn lemma_placed(done: Seq<i64>, i: nat, coefs: Seq<SpelledCoef>, j: int)
    requires
        forall|k: int|
            0 <= k < coefs.len() ==> #[trigger] place_of(i, coefs, k) < done.len(),
    ensures
        placed(done, i, coefs).len() == done.len(),
        0 <= j < done.len() && (forall|k: int|
            0 <= k < coefs.len() ==> #[trigger] place_of(i, coefs, k) != j) ==> placed(
            done,
            i,
            coefs,
        )[j] == done[j],
        forall|k: int|
            0 <= k < coefs.len() && j == #[trigger] place_of(i, coefs, k) ==> placed(
                done,
                i,
                coefs,
            )[j] == signed_level(coefs[k]) as i64,
    decreases coefs.len(),
{
    if coefs.len() > 0 {
        let c = coefs[0];
        let tail = coefs.skip(1);
        let at = i + c.run;
        let next = done.update(at as int, signed_level(c) as i64);
        assert(coefs.take(0) =~= Seq::<SpelledCoef>::empty());
        assert(place_of(i, coefs, 0) == at);
        assert forall|k: int| 0 <= k < tail.len() implies #[trigger] place_of(at + 1, tail, k)
            < next.len() && place_of(at + 1, tail, k) == place_of(i, coefs, k + 1) && place_of(
            at + 1,
            tail,
            k,
        ) > at by {
            lemma_place_shift(i, coefs, k + 1);
            lemma_place_after_grows(at + 1, tail.take(k));
            assert(place_of(i, coefs, k + 1) < done.len());
        }
        lemma_placed(next, at + 1, tail, j);
        assert forall|k: int|
            0 <= k < coefs.len() && j == #[trigger] place_of(i, coefs, k) implies placed(
            done,
            i,
            coefs,
        )[j] == signed_level(coefs[k]) as i64 by {
            if k > 0 {
                lemma_place_shift(i, coefs, k);
                assert(tail[k - 1] == coefs[k]);
                assert(place_of(at + 1, tail, k - 1) == j);
            }
        }
        if 0 <= j < done.len() && (forall|k: int|
            0 <= k < coefs.len() ==> #[trigger] place_of(i, coefs, k) != j) {
            assert(place_of(i, coefs, 0) != j);
            assert forall|k: int| 0 <= k < tail.len() implies #[trigger] place_of(at + 1, tail, k)
                != j by {
                assert(place_of(i, coefs, k + 1) != j);
            }
        }
    }
}

/// A channel's coefficients are read back. Each stands after its run of zeros, with its
/// sign, the first run starting at the first coded place; every other place is zero; and
/// nothing past the coefficients is read.
pub proof fn coefficients_are_read_back(
    ctx: WmaContext,
    side: bool,
    total_gain: nat,
    coefs: Seq<SpelledCoef>,
    rest: Seq<bool>,
)
    requires
        ctx.wf(),
        are_spelled(ctx, side, total_gain, ctx.coefs_start as nat, coefs),
        place_after(ctx.coefs_start as nat, coefs) < ctx.coefs_end ==> stands_alone(
            book_in_use(ctx, side).codes@,
            book_in_use(ctx, side).bits@,
            1,
        ),
    ensures
        ({
            let start = ctx.coefs_start as nat;
            let text = coefs_text(ctx, side, total_gain, coefs) + end_text(
                ctx,
                side,
                place_after(start, coefs),
            ) + rest;
            let read = coefficients_from(
                ctx,
                side,
                total_gain,
                start,
                silence(ctx.frame_len as nat),
                text,
            );
            &&& read.1 == rest
            &&& read.0 matches Ok(got) && {
                &&& got.len() == ctx.frame_len
                &&& forall|k: int|
                    0 <= k < coefs.len() ==> got[#[trigger] place_of(start, coefs, k) as int]
                        == signed_level(coefs[k])
                &&& forall|j: int|
                    0 <= j < ctx.frame_len && (forall|k: int|
                        0 <= k < coefs.len() ==> #[trigger] place_of(start, coefs, k) != j)
                        ==> #[trigger] got[j] == 0
            }
        }),
{
    let start = ctx.coefs_start as nat;
    let none = silence(ctx.frame_len as nat);
    let text = coefs_text(ctx, side, total_gain, coefs) + end_text(
        ctx,
        side,
        place_after(start, coefs),
    ) + rest;
    lemma_coefs_read(ctx, side, total_gain, start, coefs, none, rest);
    let got = placed(none, start, coefs);
    assert forall|k: int| 0 <= k < coefs.len() implies #[trigger] place_of(start, coefs, k)
        < none.len() by {
        assert(is_spelled(ctx, side, total_gain, coefs[k]));
    }
    lemma_placed(none, start, coefs, 0);
    assert forall|k: int| 0 <= k < coefs.len() implies got[#[trigger] place_of(
        start,
        coefs,
        k,
    ) as int] == signed_level(coefs[k]) by {
        lemma_placed(none, start, coefs, place_of(start, coefs, k) as int);
        assert(is_spelled(ctx, side, total_gain, coefs[k]));
        lemma_level_range(ctx, side, total_gain, coefs[k]);
    }
    assert forall|j: int|
        0 <= j < ctx.frame_len && (forall|k: int|
            0 <= k < coefs.len() ==> #[trigger] place_of(start, coefs, k)
                != j) implies #[trigger] got[j] == 0 by {
        lemma_placed(none, start, coefs, j);
    }
}

/// A run that leads out of the frame ends a channel's coefficients, and takes no sign.
pub proof fn runs_out_of_the_frame_end_it(
    ctx: WmaContext,
    side: bool,
    total_gain: nat,
    i: nat,
    c: SpelledCoef,
    done: Seq<i64>,
    rest: Seq<bool>,
)
    requires
        ctx.wf(),
        done.len() == ctx.frame_len,
        is_spelled(ctx, side, total_gain, c),
        i < ctx.coefs_end,
        i + c.run >= ctx.frame_len,
    ensures
        coefficients_from(
            ctx,
            side,
            total_gain,
            i,
            done,
            pair_text(ctx, side, total_gain, c) + rest,
        ) == (Ok::<Seq<i64>, WmaError>(done), rest),
{
    pairs_are_read_back(ctx, side, total_gain, c, rest);
}

// ------------------------------------------------------------ packets

/// The bits of a gain: sevens of ones, each for 127, and seven bits that are not all
/// ones, for the rest.
pub open spec fn gain_text(gain: nat) -> Seq<bool>
    decreases gain,
{
    if gain < 127 {
        bits_of(gain, 7)
    } else {
        bits_of(127, 7) + gain_text((gain - 127) as nat)
    }
}

/// A gain is read back, and nothing past it is read.
pub proof fn gains_are_read_back(gain: nat, rest: Seq<bool>)
    ensures
        gain_fields(gain_text(gain) + rest) == (Ok::<nat, WmaError>(gain), rest),
        gain_sum(gain_text(gain) + rest) == gain,
    decreases gain,
{
    lemma2_to64();
    if gain < 127 {
        fields_are_read_back(gain, 7, rest);
    } else {
        let less = (gain - 127) as nat;
        gains_are_read_back(less, rest);
        fields_are_read_back(127, 7, gain_text(less) + rest);
        assert(gain_text(gain) + rest =~= bits_of(127, 7) + (gain_text(less) + rest));
    }
}

/// Flags are read back in order, and nothing past them is read.
pub proof fn flags_are_read_back(flags: Seq<bool>, rest: Seq<bool>)
    ensures
        read_flags(flags.len(), flags + rest) == (Ok::<Seq<bool>, WmaError>(flags), rest),
    decreases flags.len(),
{
    if flags.len() == 0 {
        assert(flags + rest =~= rest);
        assert(flags =~= Seq::<bool>::empty());
    } else {
        let init = flags.drop_last();
        let last = flags.last();
        flags_are_read_back(init, seq![last] + rest);
        lemma_flag(last, rest);
        assert(flags + rest =~= init + (seq![last] + rest));
        assert(flags =~= init.push(last));
    }
}

/// A packet's parts.
pub struct PacketParts {
    /// The channels are coded as mid and side.
    pub ms_stereo: bool,
    /// Which channels are coded.
    pub coded: Seq<bool>,
    /// One less than the total gain.
    pub gain: nat,
    /// The bits of each channel's exponents.
    pub exponent_texts: Seq<Seq<bool>>,
    /// What they say.
    pub exponents: Seq<ExponentValues>,
    /// The bits of each channel's coefficients.
    pub coef_texts: Seq<Seq<bool>>,
    /// What they say.
    pub coefs: Seq<Seq<i64>>,
    /// The bits between each channel's coefficients and the next byte.
    pub pads: Seq<Seq<bool>>,
    /// What follows the last channel.
    pub tail: Seq<bool>,
}

/// The exponents of the coded ones of the first `n` channels, one after the other.
pub open spec fn exponents_text(parts: PacketParts, n: nat) -> Seq<bool>
    decreases n,
{
    if n == 0 {
        Seq::empty()
    } else if parts.coded[n - 1] {
        exponents_text(parts, (n - 1) as nat) + parts.exponent_texts[n - 1]
    } else {
        exponents_text(parts, (n - 1) as nat)
    }
}

/// The coefficients of the coded ones of the first `n` channels, one after the other,
/// each padded.
pub open spec fn channels_text(parts: PacketParts, n: nat) -> Seq<bool>
    decreases n,
{
    if n == 0 {
        Seq::empty()
    } else if parts.coded[n - 1] {
        channels_text(parts, (n - 1) as nat) + (parts.coef_texts[n - 1] + parts.pads[n - 1])
    } else {
        channels_text(parts, (n - 1) as nat)
    }
}

/// The start of a packet: for two channels, whether they are mid and side; which channels
/// are coded; and, where one is, the gain.
pub open spec fn start_text(ctx: WmaContext, parts: PacketParts) -> Seq<bool> {
    (if ctx.channels == 2 {
        seq![parts.ms_stereo]
    } else {
        Seq::empty()
    }) + parts.coded + (if parts.coded.contains(true) {
        gain_text(parts.gain)
    } else {
        Seq::empty()
    })
}

/// The bits of a packet: its start, the exponents of every coded channel, the
/// coefficients of every coded channel, and whatever follows.
pub open spec fn packet_text(ctx: WmaContext, parts: PacketParts) -> Seq<bool> {
    start_text(ctx, parts) + exponents_text(parts, ctx.channels as nat) + channels_text(
        parts,
        ctx.channels as nat,
    ) + parts.tail
}

/// A packet's total gain: one more than `gain`, and one where no channel is coded.
pub open spec fn packet_gain(parts: PacketParts) -> nat {
    if parts.coded.contains(true) {
        1 + parts.gain
    } else {
        1
    }
}

/// Whether each part of a packet says what it should, whatever follows it. A version 1
/// channel is padded to a byte; a version 2 channel is not padded. Coefficients are read
/// with the side channel's book in the second channel of mid and side.
pub open spec fn parts_say(ctx: WmaContext, parts: PacketParts) -> bool {
    let n = ctx.channels as int;
    &&& parts.coded.len() == n
    &&& parts.exponent_texts.len() == n
    &&& parts.exponents.len() == n
    &&& parts.coef_texts.len() == n
    &&& parts.coefs.len() == n
    &&& parts.pads.len() == n
    &&& ctx.use_exp_vlc
    &&& forall|c: int, rest: Seq<bool>|
        0 <= c < n && parts.coded[c] ==> read_exponents(
            ctx,
            #[trigger] (parts.exponent_texts[c] + rest),
        ) == (Ok::<ExponentValues, WmaError>(parts.exponents[c]), rest)
    &&& forall|c: int, rest: Seq<bool>|
        0 <= c < n && parts.coded[c] ==> coefficients_from(
            ctx,
            parts.ms_stereo && n == 2 && c == 1,
            1 + parts.gain,
            ctx.coefs_start as nat,
            silence(ctx.frame_len as nat),
            #[trigger] (parts.coef_texts[c] + rest),
        ) == (Ok::<Seq<i64>, WmaError>(parts.coefs[c]), rest)
    &&& forall|c: int|
        0 <= c < n && parts.coded[c] && ctx.version == Version::V2 ==> (
        #[trigger] parts.pads[c]).len() == 0
    &&& forall|c: int|
        0 <= c < n && parts.coded[c] && ctx.version == Version::V1 ==> (
        #[trigger] parts.pads[c]).len() < 8
    &&& forall|c: int|
        0 < c < n && parts.coded[c] && ctx.version == Version::V1 ==> (parts.coef_texts[c].len()
            + (#[trigger] parts.pads[c]).len()) % 8 == 0
    &&& ctx.version == Version::V1 ==> parts.tail.len() % 8 == 0
}

/// What a packet's parts say.
pub open spec fn parts_values(ctx: WmaContext, parts: PacketParts) -> FrameValues {
    FrameValues {
        ms_stereo: ctx.channels == 2 && parts.ms_stereo,
        coded: parts.coded,
        total_gain: packet_gain(parts),
        exponents: Seq::new(
            ctx.channels as nat,
            |c: int| if parts.coded[c] {
                Some(parts.exponents[c])
            } else {
                None
            },
        ),
        coefs: Seq::new(
            ctx.channels as nat,
            |c: int| if parts.coded[c] {
                parts.coefs[c]
            } else {
                Seq::new(ctx.frame_len as nat, |i: int| 0i64)
            },
        ),
    }
}

proof fn lemma_start_read(ctx: WmaContext, parts: PacketParts, rest: Seq<bool>)
    requires
        parts.coded.len() == ctx.channels,
    ensures
        ({
            let bits = start_text(ctx, parts) + rest;
            let (stereo, after) = if ctx.channels == 2 {
                number(bits, 1)
            } else {
                (Ok(0nat), bits)
            };
            let (coded, last) = read_flags(ctx.channels as nat, after);
            &&& stereo == Ok::<nat, WmaError>(if ctx.channels == 2 && parts.ms_stereo {
                1
            } else {
                0
            })
            &&& coded == Ok::<Seq<bool>, WmaError>(parts.coded)
            &&& read_gain(parts.coded, last) == (
                Ok::<nat, WmaError>(packet_gain(parts)),
                rest,
            )
        }),
{
    let gain = if parts.coded.contains(true) {
        gain_text(parts.gain)
    } else {
        Seq::empty()
    };
    let after = parts.coded + (gain + rest);
    flags_are_read_back(parts.coded, gain + rest);
    if parts.coded.contains(true) {
        gains_are_read_back(parts.gain, rest);
    } else {
        assert(gain + rest =~= rest);
    }
    if ctx.channels == 2 {
        lemma_flag(parts.ms_stereo, after);
        assert(start_text(ctx, parts) + rest =~= seq![parts.ms_stereo] + after);
    } else {
        assert(start_text(ctx, parts) + rest =~= after);
    }
}

proof fn lemma_exponents_read(ctx: WmaContext, parts: PacketParts, n: nat, rest: Seq<bool>)
    requires
        parts_say(ctx, parts),
        n <= ctx.channels,
    ensures
        channel_exponents(ctx, parts.coded, n, exponents_text(parts, n) + rest) == (
            Ok::<Seq<Option<ExponentValues>>, WmaError>(
                parts_values(ctx, parts).exponents.take(n as int),
            ),
            rest,
        ),
    decreases n,
{
    let all = parts_values(ctx, parts).exponents;
    if n == 0 {
        assert(exponents_text(parts, 0) + rest =~= rest);
        assert(all.take(0) =~= Seq::<Option<ExponentValues>>::empty());
    } else {
        let m = (n - 1) as nat;
        assert(all.take(n as int) =~= all.take(m as int).push(all[m as int]));
        if parts.coded[n - 1] {
            let own = parts.exponent_texts[n - 1];
            lemma_exponents_read(ctx, parts, m, own + rest);
            assert(exponents_text(parts, n) + rest =~= exponents_text(parts, m) + (own + rest));
            assert(read_exponents(ctx, own + rest) == (
                Ok::<ExponentValues, WmaError>(parts.exponents[n - 1]),
                rest,
            ));
        } else {
            lemma_exponents_read(ctx, parts, m, rest);
        }
    }
}

/// Reading one more coded channel.
proof fn lemma_channel_step(
    ctx: WmaContext,
    ms_stereo: bool,
    coded: Seq<bool>,
    total_gain: nat,
    n: nat,
    bits: Seq<bool>,
    done: Seq<Seq<i64>>,
    mid: Seq<bool>,
    own: Seq<i64>,
    pad: Seq<bool>,
    rest: Seq<bool>,
)
    requires
        n > 0,
        coded[n - 1],
        channel_coefs(ctx, ms_stereo, coded, total_gain, (n - 1) as nat, bits) == (
            Ok::<Seq<Seq<i64>>, WmaError>(done),
            mid,
        ),
        coefficients_from(
            ctx,
            ms_stereo && n == 2,
            total_gain,
            ctx.coefs_start as nat,
            silence(ctx.frame_len as nat),
            mid,
        ) == (Ok::<Seq<i64>, WmaError>(own), pad + rest),
        ctx.version == Version::V1 ==> pad.len() < 8 && rest.len() % 8 == 0,
        ctx.version == Version::V2 ==> pad.len() == 0,
    ensures
        channel_coefs(ctx, ms_stereo, coded, total_gain, n, bits) == (
            Ok::<Seq<Seq<i64>>, WmaError>(done.push(own)),
            rest,
        ),
{
    if ctx.version == Version::V1 {
        assert((pad + rest).len() % 8 == pad.len());
        assert((pad + rest).skip(pad.len() as int) =~= rest);
    } else {
        assert(pad + rest =~= rest);
    }
}

proof fn lemma_channels_read(ctx: WmaContext, parts: PacketParts, n: nat, rest: Seq<bool>)
    requires
        parts_say(ctx, parts),
        n <= ctx.channels,
        parts.coded.contains(true),
        ctx.version == Version::V1 ==> rest.len() % 8 == 0,
    ensures
        channel_coefs(
            ctx,
            ctx.channels == 2 && parts.ms_stereo,
            parts.coded,
            1 + parts.gain,
            n,
            channels_text(parts, n) + rest,
        ) == (Ok::<Seq<Seq<i64>>, WmaError>(parts_values(ctx, parts).coefs.take(n as int)), rest),
    decreases n,
{
    let all = parts_values(ctx, parts).coefs;
    if n == 0 {
        assert(channels_text(parts, 0) + rest =~= rest);
        assert(all.take(0) =~= Seq::<Seq<i64>>::empty());
    } else {
        let m = (n - 1) as nat;
        let ms = ctx.channels == 2 && parts.ms_stereo;
        assert(all.take(n as int) =~= all.take(m as int).push(all[m as int]));
        if parts.coded[n - 1] {
            let own = parts.coef_texts[n - 1];
            let pad = parts.pads[n - 1];
            let mid = own + (pad + rest);
            let text = channels_text(parts, n) + rest;
            assert(text =~= channels_text(parts, m) + mid);
            if m > 0 {
                lemma_channels_read(ctx, parts, m, mid);
            } else {
                assert(all.take(0) =~= Seq::<Seq<i64>>::empty());
                assert(channels_text(parts, 0) + mid =~= mid);
            }
            assert((parts.ms_stereo && ctx.channels as int == 2 && n - 1 == 1) == (ms && n == 2));
            lemma_channel_step(
                ctx,
                ms,
                parts.coded,
                1 + parts.gain,
                n,
                text,
                all.take(m as int),
                mid,
                parts.coefs[n - 1],
                pad,
                rest,
            );
        } else {
            lemma_channels_read(ctx, parts, m, rest);
            assert(all[m as int] =~= silence(ctx.frame_len as nat));
        }
    }
}

proof fn lemma_no_channels_read(ctx: WmaContext, parts: PacketParts, n: nat, rest: Seq<bool>)
    requires
        parts.coded.len() == ctx.channels,
        n <= ctx.channels,
        !parts.coded.contains(true),
    ensures
        channels_text(parts, n) == Seq::<bool>::empty(),
        exponents_text(parts, n) == Seq::<bool>::empty(),
        channel_exponents(ctx, parts.coded, n, rest) == (
            Ok::<Seq<Option<ExponentValues>>, WmaError>(
                parts_values(ctx, parts).exponents.take(n as int),
            ),
            rest,
        ),
        channel_coefs(
            ctx,
            ctx.channels == 2 && parts.ms_stereo,
            parts.coded,
            1,
            n,
            rest,
        ) == (Ok::<Seq<Seq<i64>>, WmaError>(parts_values(ctx, parts).coefs.take(n as int)), rest),
    decreases n,
{
    let e = parts_values(ctx, parts).exponents;
    let c = parts_values(ctx, parts).coefs;
    if n == 0 {
        assert(e.take(0) =~= Seq::<Option<ExponentValues>>::empty());
        assert(c.take(0) =~= Seq::<Seq<i64>>::empty());
    } else {
        let m = (n - 1) as nat;
        lemma_no_channels_read(ctx, parts, m, rest);
        assert(parts.coded[m as int] == parts.coded[n - 1]);
        assert(!parts.coded[n - 1]);
        assert(e.take(n as int) =~= e.take(m as int).push(e[m as int]));
        assert(c.take(n as int) =~= c.take(m as int).push(c[m as int]));
        assert(c[m as int] =~= silence(ctx.frame_len as nat));
    }
}

/// What a packet says whose parts are read one after the other.
proof fn lemma_packet(
    ctx: WmaContext,
    bits: Seq<bool>,
    stereo: (Result<nat, WmaError>, Seq<bool>),
    ms_stereo: bool,
    flags: (Result<Seq<bool>, WmaError>, Seq<bool>),
    values: FrameValues,
    first: Seq<bool>,
    second: Seq<bool>,
)
    requires
        stereo == (if ctx.channels == 2 {
            number(bits, 1)
        } else {
            (Ok(0nat), bits)
        }),
        stereo.0 == Ok::<nat, WmaError>(if ms_stereo {
            1
        } else {
            0
        }),
        flags == read_flags(ctx.channels as nat, stereo.1),
        flags.0 == Ok::<Seq<bool>, WmaError>(values.coded),
        read_gain(values.coded, flags.1) == (Ok::<nat, WmaError>(values.total_gain), first),
        channel_exponents(ctx, values.coded, ctx.channels as nat, first) == (
            Ok::<Seq<Option<ExponentValues>>, WmaError>(values.exponents),
            second,
        ),
        channel_coefs(
            ctx,
            ms_stereo,
            values.coded,
            values.total_gain,
            ctx.channels as nat,
            second,
        ).0 == Ok::<Seq<Seq<i64>>, WmaError>(values.coefs),
        values.ms_stereo == ms_stereo,
    ensures
        packet_values(ctx, bits) == Ok::<FrameValues, WmaError>(values),
{
}

/// What follows the start of a packet is read.
proof fn lemma_body_read(ctx: WmaContext, parts: PacketParts)
    requires
        parts_say(ctx, parts),
    ensures
        ({
            let n = ctx.channels as nat;
            let values = parts_values(ctx, parts);
            let last = channels_text(parts, n) + parts.tail;
            &&& channel_exponents(ctx, parts.coded, n, exponents_text(parts, n) + last) == (
                Ok::<Seq<Option<ExponentValues>>, WmaError>(values.exponents),
                last,
            )
            &&& channel_coefs(
                ctx,
                ctx.channels == 2 && parts.ms_stereo,
                parts.coded,
                packet_gain(parts),
                n,
                last,
            ).0 == Ok::<Seq<Seq<i64>>, WmaError>(values.coefs)
        }),
{
    let n = ctx.channels as nat;
    let values = parts_values(ctx, parts);
    let last = channels_text(parts, n) + parts.tail;
    assert(values.exponents.take(n as int) =~= values.exponents);
    assert(values.coefs.take(n as int) =~= values.coefs);
    if parts.coded.contains(true) {
        lemma_exponents_read(ctx, parts, n, last);
        lemma_channels_read(ctx, parts, n, parts.tail);
    } else {
        lemma_no_channels_read(ctx, parts, n, parts.tail);
        assert(last =~= parts.tail);
        assert(exponents_text(parts, n) + last =~= parts.tail);
    }
}

/// A packet is its parts in order: for two channels, whether they are mid and side; which
/// channels are coded; where one is, the gain, the total being one more; the exponents of
/// every coded channel; and the coefficients of every coded channel, each ending on a
/// byte boundary in version 1. A channel that is not coded has no exponents and is
/// silent. What the parts say, the packet says.
pub proof fn packets_are_read_back(ctx: WmaContext, parts: PacketParts)
    requires
        ctx.wf(),
        parts_say(ctx, parts),
    ensures
        packet_values(ctx, packet_text(ctx, parts)) == Ok::<FrameValues, WmaError>(
            parts_values(ctx, parts),
        ),
{
    let n = ctx.channels as nat;
    let values = parts_values(ctx, parts);
    let last = channels_text(parts, n) + parts.tail;
    let rest = exponents_text(parts, n) + last;
    let bits = start_text(ctx, parts) + rest;
    lemma_start_read(ctx, parts, rest);
    lemma_body_read(ctx, parts);
    lemma_four_parts(
        start_text(ctx, parts),
        exponents_text(parts, n),
        channels_text(parts, n),
        parts.tail,
    );
    let stereo = if ctx.channels == 2 {
        number(bits, 1)
    } else {
        (Ok(0nat), bits)
    };
    lemma_packet(
        ctx,
        bits,
        stereo,
        ctx.channels == 2 && parts.ms_stereo,
        read_flags(n, stereo.1),
        values,
        rest,
        last,
    );
}

/// A packet with a coded channel is refused where exponents are line spectra, whatever
/// follows its start.
pub proof fn line_spectra_are_refused(ctx: WmaContext, parts: PacketParts, rest: Seq<bool>)
    requires
        ctx.wf(),
        parts.coded.len() == ctx.channels,
        parts.coded.contains(true),
        !ctx.use_exp_vlc,
    ensures
        packet_values(ctx, start_text(ctx, parts) + rest) == Err::<FrameValues, WmaError>(
            WmaError::LspExponents,
        ),
{
    lemma_start_read(ctx, parts, rest);
    lemma_line_spectra(ctx, parts.coded, ctx.channels as nat, rest);
}

proof fn lemma_line_spectra(ctx: WmaContext, coded: Seq<bool>, n: nat, rest: Seq<bool>)
    requires
        n <= coded.len(),
        !ctx.use_exp_vlc,
    ensures
        (exists|c: int| 0 <= c < n && #[trigger] coded[c]) ==> channel_exponents(
            ctx,
            coded,
            n,
            rest,
        ).0 == Err::<Seq<Option<ExponentValues>>, WmaError>(WmaError::LspExponents),
        !(exists|c: int| 0 <= c < n && #[trigger] coded[c]) ==> channel_exponents(
            ctx,
            coded,
            n,
            rest,
        ).0 is Ok,
    decreases n,
{
    if n > 0 {
        lemma_line_spectra(ctx, coded, (n - 1) as nat, rest);
        assert(coded[n - 1] ==> exists|c: int| 0 <= c < n && #[trigger] coded[c]);
    }
}

/// A packet that ends before all its channels are flagged runs out of bits, and so does
/// one that ends in its first gain field.
pub proof fn cut_packets_run_out(ctx: WmaContext, bits: Seq<bool>)
    requires
        ctx.wf(),
    ensures
        bits.len() < ctx.channels ==> packet_values(ctx, bits) == Err::<FrameValues, WmaError>(
            WmaError::OutOfBits,
        ),
        ctx.channels == 1 && 1 <= bits.len() < 8 && bits[0] ==> packet_values(ctx, bits) == Err::<
            FrameValues,
            WmaError,
        >(WmaError::OutOfBits),
{
    reveal_with_fuel(read_flags, 3);
    if ctx.channels == 1 && 1 <= bits.len() < 8 && bits[0] {
        let rest = bits.skip(1);
        lemma_flag(true, rest);
        assert(bits =~= seq![true] + rest);
        assert(Seq::<bool>::empty().push(true)[0]);
        assert(Seq::<bool>::empty().push(true).contains(true));
    }
}

/// A packet's total gain is in range where no channel is coded, and else just where 32 bits
/// hold it.
pub proof fn gains_in_range_fit_32_bits(ctx: WmaContext, parts: PacketParts, rest: Seq<bool>)
    requires
        ctx.wf(),
        parts.coded.len() == ctx.channels,
    ensures
        gain_in_range(ctx, start_text(ctx, parts) + rest) <==> parts.coded.contains(true) ==> 1
            + parts.gain < 0x1_0000_0000,
{
    lemma_start_read(ctx, parts, rest);
    let bits = start_text(ctx, parts) + rest;
    let gain = if parts.coded.contains(true) {
        gain_text(parts.gain)
    } else {
        Seq::empty()
    };
    let after = parts.coded + (gain + rest);
    flags_are_read_back(parts.coded, gain + rest);
    if ctx.channels == 2 {
        lemma_flag(parts.ms_stereo, after);
        assert(bits =~= seq![parts.ms_stereo] + after);
    } else {
        assert(bits =~= after);
    }
    gains_are_read_back(parts.gain, rest);
}

} // verus!

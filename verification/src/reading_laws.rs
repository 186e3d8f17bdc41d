//! Reading a packet bit by bit: what has been read does not depend on what follows, and only
//! a packet that is cut short runs out of bits.
use crate::common::{coef_symbol, scale_change, scan_code, ScanError, Version, WmaError};
use crate::context::{
    channel_coefs, channel_exponents, coefficients_from, exponents_from, gain_fields, large_value,
    level_width, literal_run, literals, no_exponents, number, packet_values, read_exponents,
    read_flags, read_gain, run_level, silence, ExponentValues, WmaContext,
};
use crate::huffman::max_length;
use crate::packet_laws::{
    are_spelled, book_in_use, coefficients_are_read_back, coefs_text, end_text, place_after,
    SpelledCoef,
};
use vstd::prelude::*;

verus! {

/// Whether what was read from fewer bits is read from more too: the same value, with the
/// further bits left over, or the same refusal. What ran out of bits may go either way.
pub open spec fn keeps<T>(
    fewer: (Result<T, WmaError>, Seq<bool>),
    more: (Result<T, WmaError>, Seq<bool>),
    further: Seq<bool>,
) -> bool {
    match fewer.0 {
        Ok(v) => more == (Ok::<T, WmaError>(v), fewer.1 + further),
        Err(e) => e == WmaError::OutOfBits || more.0 == Err::<T, WmaError>(e),
    }
}

proof fn lemma_number_keeps(bits: Seq<bool>, further: Seq<bool>, n: nat)
    ensures
        keeps(number(bits, n), number(bits + further, n), further),
{
    if n <= bits.len() {
        assert((bits + further).take(n as int) =~= bits.take(n as int));
        assert((bits + further).skip(n as int) =~= bits.skip(n as int) + further);
    }
}

proof fn lemma_scan_keeps(
    codes: Seq<u32>,
    lens: Seq<u8>,
    n: nat,
    bits: Seq<bool>,
    further: Seq<bool>,
)
    requires
        n <= bits.len(),
    ensures
        match scan_code(codes, lens, n, bits) {
            (Ok(i), rest) => scan_code(codes, lens, n, bits + further) == (
                Ok::<usize, ScanError>(i),
                rest + further,
            ),
            (Err(ScanError::Unmatched), rest) => scan_code(codes, lens, n, bits + further).0
                == Err::<usize, ScanError>(ScanError::Unmatched),
            (Err(ScanError::OutOfBits), rest) => true,
        },
    decreases max_length(lens) - n,
{
    if n < max_length(lens) && n < bits.len() {
        let m = n + 1;
        assert((bits + further).take(m as int) =~= bits.take(m as int));
        assert((bits + further).skip(m as int) =~= bits.skip(m as int) + further);
        lemma_scan_keeps(codes, lens, m, bits, further);
    }
}

proof fn lemma_large_keeps(bits: Seq<bool>, further: Seq<bool>)
    ensures
        keeps(large_value(bits), large_value(bits + further), further),
{
    lemma_number_keeps(bits, further, 8);
    let a = bits.skip(8);
    lemma_number_keeps(a, further, 8);
    let b = a.skip(8);
    lemma_number_keeps(b, further, 8);
    let c = b.skip(8);
    lemma_number_keeps(c, further, 7);
}

proof fn lemma_run_keeps(ctx: WmaContext, bits: Seq<bool>, further: Seq<bool>)
    ensures
        keeps(literal_run(ctx, bits), literal_run(ctx, bits + further), further),
{
    lemma_number_keeps(bits, further, 1);
    let a = bits.skip(1);
    lemma_number_keeps(a, further, 1);
    let b = a.skip(1);
    lemma_number_keeps(b, further, 2);
    lemma_number_keeps(b, further, ctx.frame_len_bits as nat);
}

proof fn lemma_literals_keep(
    ctx: WmaContext,
    total_gain: nat,
    bits: Seq<bool>,
    further: Seq<bool>,
)
    ensures
        keeps(literals(ctx, total_gain, bits), literals(ctx, total_gain, bits + further), further),
{
    match ctx.version {
        Version::V1 => {
            let n = level_width(total_gain);
            lemma_number_keeps(bits, further, n);
            lemma_number_keeps(number(bits, n).1, further, ctx.frame_len_bits as nat);
        },
        Version::V2 => {
            lemma_large_keeps(bits, further);
            lemma_run_keeps(ctx, large_value(bits).1, further);
        },
    }
}

proof fn lemma_pair_keeps(
    ctx: WmaContext,
    side: bool,
    total_gain: nat,
    bits: Seq<bool>,
    further: Seq<bool>,
)
    ensures
        keeps(
            run_level(ctx, side, total_gain, bits),
            run_level(ctx, side, total_gain, bits + further),
            further,
        ),
{
    let book = ctx.book_of(side);
    lemma_scan_keeps(book.codes@, book.bits@, 0, bits, further);
    let rest = scan_code(book.codes@, book.bits@, 0, bits).1;
    lemma_literals_keep(ctx, total_gain, rest, further);
}

/// What a channel's coefficients are does not depend on the bits that follow them, and
/// neither does a refusal.
pub proof fn coefficients_do_not_look_ahead(
    ctx: WmaContext,
    side: bool,
    total_gain: nat,
    i: nat,
    done: Seq<i64>,
    bits: Seq<bool>,
    further: Seq<bool>,
)
    ensures
        keeps(
            coefficients_from(ctx, side, total_gain, i, done, bits),
            coefficients_from(ctx, side, total_gain, i, done, bits + further),
            further,
        ),
    decreases done.len() - i,
{
    if i < ctx.coefs_end && i < done.len() {
        lemma_pair_keeps(ctx, side, total_gain, bits, further);
        let read = run_level(ctx, side, total_gain, bits);
        if let Ok(Some((run, level))) = read.0 {
            let at = i + run;
            if at < done.len() {
                lemma_number_keeps(read.1, further, 1);
                let sign = number(read.1, 1);
                if let Ok(s) = sign.0 {
                    let value = if s == 0 {
                        level as i64
                    } else {
                        (-(level as int)) as i64
                    };
                    coefficients_do_not_look_ahead(
                        ctx,
                        side,
                        total_gain,
                        at + 1,
                        done.update(at as int, value),
                        sign.1,
                        further,
                    );
                }
            }
        }
    }
}

proof fn lemma_exponents_keep(
    ctx: WmaContext,
    k: nat,
    at: nat,
    last: int,
    done: ExponentValues,
    bits: Seq<bool>,
    further: Seq<bool>,
)
    ensures
        keeps(
            exponents_from(ctx, k, at, last, done, bits),
            exponents_from(ctx, k, at, last, done, bits + further),
            further,
        ),
    decreases ctx.bands@.len() - k,
{
    if k < ctx.bands@.len() && at < done.0.len() {
        let codes = ctx.tables.scale.codes@;
        let lens = ctx.tables.scale.bits@;
        lemma_scan_keeps(codes, lens, 0, bits, further);
        let (change, rest) = if ctx.version == Version::V1 && at == 0 {
            (Ok(0int), bits)
        } else {
            let (scanned, rest) = scan_code(codes, lens, 0, bits);
            (scale_change(scanned), rest)
        };
        if let Ok(change) = change {
            let exponent = crate::context::saturated(last + change);
            let place = crate::context::power_place(exponent);
            let width = ctx.bands@[k as int] as nat;
            lemma_exponents_keep(
                ctx,
                k + 1,
                at + width,
                exponent,
                (
                    crate::context::filled(done.0, at as int, width as int, place),
                    crate::context::greater(done.1, place),
                ),
                rest,
                further,
            );
        }
    }
}

/// What a channel's exponents are does not depend on the bits that follow them, and neither
/// does a refusal.
pub proof fn exponents_do_not_look_ahead(ctx: WmaContext, bits: Seq<bool>, further: Seq<bool>)
    ensures
        keeps(read_exponents(ctx, bits), read_exponents(ctx, bits + further), further),
{
    let none = no_exponents(ctx.frame_len as nat);
    match ctx.version {
        Version::V1 => {
            lemma_number_keeps(bits, further, 5);
            let (first, rest) = number(bits, 5);
            if let Ok(first) = first {
                lemma_exponents_keep(ctx, 0, 0, first as int + 10, none, rest, further);
            }
        },
        Version::V2 => {
            lemma_exponents_keep(ctx, 0, 0, 36, none, bits, further);
        },
    }
}

proof fn lemma_flags_keep(n: nat, bits: Seq<bool>, further: Seq<bool>)
    ensures
        keeps(read_flags(n, bits), read_flags(n, bits + further), further),
    decreases n,
{
    if n > 0 {
        let m = (n - 1) as nat;
        lemma_flags_keep(m, bits, further);
        lemma_number_keeps(read_flags(m, bits).1, further, 1);
    }
}

proof fn lemma_gain_keeps(bits: Seq<bool>, further: Seq<bool>)
    ensures
        keeps(gain_fields(bits), gain_fields(bits + further), further),
    decreases bits.len(),
{
    lemma_number_keeps(bits, further, 7);
    if bits.len() >= 7 {
        lemma_gain_keeps(bits.skip(7), further);
    }
}

proof fn lemma_all_exponents_keep(
    ctx: WmaContext,
    coded: Seq<bool>,
    n: nat,
    bits: Seq<bool>,
    further: Seq<bool>,
)
    ensures
        keeps(
            channel_exponents(ctx, coded, n, bits),
            channel_exponents(ctx, coded, n, bits + further),
            further,
        ),
    decreases n,
{
    if n > 0 {
        let m = (n - 1) as nat;
        lemma_all_exponents_keep(ctx, coded, m, bits, further);
        exponents_do_not_look_ahead(ctx, channel_exponents(ctx, coded, m, bits).1, further);
    }
}

proof fn lemma_all_coefs_keep(
    ctx: WmaContext,
    ms_stereo: bool,
    coded: Seq<bool>,
    total_gain: nat,
    n: nat,
    bits: Seq<bool>,
    further: Seq<bool>,
)
    requires
        further.len() % 8 == 0,
    ensures
        keeps(
            channel_coefs(ctx, ms_stereo, coded, total_gain, n, bits),
            channel_coefs(ctx, ms_stereo, coded, total_gain, n, bits + further),
            further,
        ),
    decreases n,
{
    if n > 0 {
        let m = (n - 1) as nat;
        lemma_all_coefs_keep(ctx, ms_stereo, coded, total_gain, m, bits, further);
        let rest = channel_coefs(ctx, ms_stereo, coded, total_gain, m, bits).1;
        let start = ctx.coefs_start as nat;
        let none = silence(ctx.frame_len as nat);
        let side = ms_stereo && n == 2;
        coefficients_do_not_look_ahead(ctx, side, total_gain, start, none, rest, further);
        let left = coefficients_from(ctx, side, total_gain, start, none, rest).1;
        let pad = (left.len() % 8) as int;
        assert((left + further).len() % 8 == left.len() % 8);
        assert((left + further).skip(pad) =~= left.skip(pad) + further);
    }
}

/// Further bytes change nothing of a packet: what is parsed stays as it is, and so does what
/// is refused, unless the packet ran out of bits.
pub proof fn further_bytes_change_nothing(ctx: WmaContext, bits: Seq<bool>, further: Seq<bool>)
    requires
        further.len() % 8 == 0,
        packet_values(ctx, bits) matches Err(e) ==> e != WmaError::OutOfBits,
    ensures
        packet_values(ctx, bits + further) == packet_values(ctx, bits),
{
    let n = ctx.channels as nat;
    let (stereo, rest) = if ctx.channels == 2 {
        number(bits, 1)
    } else {
        (Ok(0nat), bits)
    };
    lemma_number_keeps(bits, further, 1);
    lemma_flags_keep(n, rest, further);
    let (coded, rest) = read_flags(n, rest);
    lemma_gain_keeps(rest, further);
    if let Ok(coded) = coded {
        let (gain, rest) = read_gain(coded, rest);
        if let Ok(gain) = gain {
            lemma_all_exponents_keep(ctx, coded, n, rest, further);
            let rest = channel_exponents(ctx, coded, n, rest).1;
            if let Ok(stereo) = stereo {
                lemma_all_coefs_keep(ctx, stereo != 0, coded, gain, n, rest, further);
            }
        }
    }
}

/// A channel's coefficients that are cut short run out of bits.
pub proof fn cut_coefficients_run_out(
    ctx: WmaContext,
    side: bool,
    total_gain: nat,
    coefs: Seq<SpelledCoef>,
    n: int,
)
    requires
        ctx.wf(),
        are_spelled(ctx, side, total_gain, ctx.coefs_start as nat, coefs),
        place_after(ctx.coefs_start as nat, coefs) < ctx.coefs_end ==> crate::common::stands_alone(
            book_in_use(ctx, side).codes@,
            book_in_use(ctx, side).bits@,
            1,
        ),
        0 <= n < (coefs_text(ctx, side, total_gain, coefs) + end_text(
            ctx,
            side,
            place_after(ctx.coefs_start as nat, coefs),
        )).len(),
    ensures
        coefficients_from(
            ctx,
            side,
            total_gain,
            ctx.coefs_start as nat,
            silence(ctx.frame_len as nat),
            (coefs_text(ctx, side, total_gain, coefs) + end_text(
                ctx,
                side,
                place_after(ctx.coefs_start as nat, coefs),
            )).take(n),
        ).0 == Err::<Seq<i64>, WmaError>(WmaError::OutOfBits),
{
    let start = ctx.coefs_start as nat;
    let none = silence(ctx.frame_len as nat);
    let text = coefs_text(ctx, side, total_gain, coefs) + end_text(
        ctx,
        side,
        place_after(start, coefs),
    );
    coefficients_are_read_back(ctx, side, total_gain, coefs, Seq::empty());
    assert(text + Seq::<bool>::empty() =~= text);
    coefficients_do_not_look_ahead(
        ctx,
        side,
        total_gain,
        start,
        none,
        text.take(n),
        text.skip(n),
    );
    assert(text.take(n) + text.skip(n) =~= text);
    let cut = coefficients_from(ctx, side, total_gain, start, none, text.take(n));
    if cut.0 is Ok {
        assert((cut.1 + text.skip(n)).len() > 0);
    }
}

/// Bits that match no codeword of the book in use are refused, and a book's codeword that is
/// cut short runs out of bits.
pub proof fn unmatched_pairs_are_refused(
    ctx: WmaContext,
    side: bool,
    total_gain: nat,
    bits: Seq<bool>,
)
    requires
        ctx.wf(),
    ensures
        ({
            let book = book_in_use(ctx, side);
            let scanned = scan_code(book.codes@, book.bits@, 0, bits).0;
            let read = run_level(ctx, side, total_gain, bits).0;
            &&& scanned == Err::<usize, ScanError>(ScanError::Unmatched) ==> read == Err::<
                Option<(nat, nat)>,
                WmaError,
            >(WmaError::NoCoefCode)
            &&& scanned == Err::<usize, ScanError>(ScanError::OutOfBits) ==> read == Err::<
                Option<(nat, nat)>,
                WmaError,
            >(WmaError::OutOfBits)
        }),
{
    assert(book_in_use(ctx, side) == ctx.book_of(side));
    let book = book_in_use(ctx, side);
    let scanned = scan_code(book.codes@, book.bits@, 0, bits).0;
    assert(scanned is Err ==> coef_symbol(scanned) is Err);
}

} // verus!

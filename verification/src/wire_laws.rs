//! How frames and blocks are spelled: which bits stand where.
use crate::bits::bits_of;
use crate::coef_vlc::{event_of, CoefEvent, CoefVlc};
use crate::frame_bits::{
    alphabet_symbol, counted_run, emit_block, emit_channels, emit_coefficients, emit_frame,
    emit_header, emit_pair, emit_symbols, magnitude, next_nonzero, plans_fault, read_coefs,
    read_event, shape_fault, signed, BlockFields, BlockPlan, FrameBitsError, FrameFieldWidths,
    FrameFields, FrameHeaderFields,
};
use crate::huffman::{codeword, decode_inverts_encode};
use crate::paircode::EscapeWidths;
use vstd::arithmetic::power2::pow2;
use vstd::prelude::*;

verus! {

/// A frame header is the reservoir offset, the side field and the flag, in this order, each
/// in its width.
pub proof fn headers_are_spelled_in_order(h: FrameHeaderFields, widths: FrameFieldWidths)
    requires
        h.reservoir_offset < pow2(widths.byte_offset_bits as nat),
        h.side_field < pow2(widths.side_field_bits as nat),
    ensures
        emit_header(h, widths) == (
            bits_of(h.reservoir_offset as nat, widths.byte_offset_bits as nat) + bits_of(
                h.side_field as nat,
                widths.side_field_bits as nat,
            ) + seq![h.flag],
            None::<FrameBitsError>,
        ),
{
}

/// The codewords of symbols, one after the other.
pub open spec fn codewords_text(lens: Seq<u8>, symbols: Seq<usize>) -> Seq<bool>
    decreases symbols.len(),
{
    if symbols.len() == 0 {
        Seq::empty()
    } else {
        codeword(lens, symbols[0] as int) + codewords_text(lens, symbols.skip(1))
    }
}

proof fn lemma_text_push(lens: Seq<u8>, symbols: Seq<usize>, last: usize)
    ensures
        codewords_text(lens, symbols.push(last)) == codewords_text(lens, symbols) + codeword(
            lens,
            last as int,
        ),
    decreases symbols.len(),
{
    let all = symbols.push(last);
    if symbols.len() == 0 {
        reveal_with_fuel(codewords_text, 2);
        assert(all.skip(1) =~= Seq::<usize>::empty());
        assert(codewords_text(lens, all) =~= codewords_text(lens, symbols) + codeword(
            lens,
            last as int,
        ));
    } else {
        lemma_text_push(lens, symbols.skip(1), last);
        assert(all.skip(1) =~= symbols.skip(1).push(last));
        assert(codewords_text(lens, all) =~= codewords_text(lens, symbols) + codeword(
            lens,
            last as int,
        ));
    }
}

/// Gain and scale symbols are their codewords in order.
pub proof fn symbols_are_spelled_in_order(lens: Seq<u8>, symbols: Seq<usize>)
    requires
        forall|i: int| 0 <= i < symbols.len() ==> (#[trigger] symbols[i]) < lens.len(),
    ensures
        emit_symbols(lens, symbols) == (codewords_text(lens, symbols), None::<FrameBitsError>),
    decreases symbols.len(),
{
    if symbols.len() > 0 {
        let init = symbols.drop_last();
        assert forall|i: int| 0 <= i < init.len() implies (#[trigger] init[i]) < lens.len() by {
            assert(init[i] == symbols[i]);
        }
        symbols_are_spelled_in_order(lens, init);
        lemma_text_push(lens, init, symbols.last());
        assert(init.push(symbols.last()) =~= symbols);
        assert(symbols[symbols.len() - 1] < lens.len());
    }
}

/// A block is its header in seven bits; the gain symbols; in streams of two channels the
/// coupling flag; where the envelope is coded, its base in five bits and the scale symbols;
/// and the coefficients.
pub proof fn blocks_are_spelled_in_order(b: BlockFields, plan: BlockPlan)
    requires
        shape_fault(b, plan) is None,
        b.header < 0x80,
        plan.envelope_coded ==> b.envelope_base < 0x20,
        forall|i: int|
            0 <= i < b.gain_symbols.len() ==> (#[trigger] b.gain_symbols[i])
                < plan.gain_vlc.lens().len(),
        forall|i: int|
            0 <= i < b.scale_symbols.len() ==> (#[trigger] b.scale_symbols[i])
                < plan.scale_vlc.lens().len(),
    ensures
        ({
            let coefs = emit_coefficients(b.coefficients, 0, *plan.coef_vlc, plan.escape);
            let envelope = if plan.envelope_coded {
                bits_of(b.envelope_base as nat, 5) + codewords_text(
                    plan.scale_vlc.lens(),
                    b.scale_symbols,
                )
            } else {
                Seq::empty()
            };
            let coupling = if plan.channels == 2 {
                seq![b.stereo_coupling->0]
            } else {
                Seq::empty()
            };
            &&& emit_block(b, plan).0 == bits_of(b.header as nat, 7) + codewords_text(
                plan.gain_vlc.lens(),
                b.gain_symbols,
            ) + coupling + envelope + coefs.0
            &&& emit_block(b, plan).1 == coefs.1
        }),
{
    vstd::arithmetic::power2::lemma2_to64();
    symbols_are_spelled_in_order(plan.gain_vlc.lens(), b.gain_symbols);
    symbols_are_spelled_in_order(plan.scale_vlc.lens(), b.scale_symbols);
}

/// A pair that the alphabet does not have is the codeword of symbol 1, the run and the
/// magnitude, in this order, each in its width.
pub proof fn escapes_are_spelled_in_order(
    vlc: CoefVlc,
    escape: EscapeWidths,
    run: nat,
    level: nat,
)
    requires
        alphabet_symbol(vlc, run, level) is None,
        vlc.lens().len() > 1,
        run < pow2(escape.run_bits as nat),
        level < pow2(escape.level_bits as nat),
    ensures
        emit_pair(vlc, escape, run, level) == (
            codeword(vlc.lens(), 1) + (bits_of(run, escape.run_bits as nat) + bits_of(
                level,
                escape.level_bits as nat,
            )),
            None::<FrameBitsError>,
        ),
{
}

proof fn lemma_next_nonzero(c: Seq<i32>, start: int, p: int)
    requires
        0 <= start <= p < c.len(),
        forall|i: int| start <= i < p ==> #[trigger] c[i] == 0,
        c[p] != 0,
    ensures
        next_nonzero(c, start) == p,
    decreases p - start,
{
    if start < p {
        lemma_next_nonzero(c, start + 1, p);
    }
}

/// Each coefficient that is not zero is the pair of the zeros before it and its magnitude,
/// and then its sign, a one where it is negative.
pub proof fn coefficients_are_spelled_by_runs(
    c: Seq<i32>,
    start: int,
    p: int,
    vlc: CoefVlc,
    escape: EscapeWidths,
)
    requires
        0 <= start <= p < c.len(),
        p - start <= 0xFFFF,
        forall|i: int| start <= i < p ==> #[trigger] c[i] == 0,
        c[p] != 0,
        emit_pair(
            vlc,
            escape,
            (p - start) as nat,
            (if c[p] < 0 {
                -c[p]
            } else {
                c[p] as int
            }) as nat,
        ).1 is None,
    ensures
        ({
            let level = if c[p] < 0 {
                -c[p]
            } else {
                c[p] as int
            };
            let rest = emit_coefficients(c, p + 1, vlc, escape);
            &&& emit_coefficients(c, start, vlc, escape).0 == emit_pair(
                vlc,
                escape,
                (p - start) as nat,
                level as nat,
            ).0 + seq![c[p] < 0] + rest.0
            &&& emit_coefficients(c, start, vlc, escape).1 == rest.1
        }),
{
    lemma_next_nonzero(c, start, p);
    assert(counted_run(p - start) == p - start);
    assert(magnitude(c[p]) == (if c[p] < 0 {
        -c[p]
    } else {
        c[p] as int
    }));
}

/// A frame of one channel is its header and the channel; one of two channels is its header,
/// the first channel and the second.
pub proof fn frames_are_spelled_channel_by_channel(
    f: FrameFields,
    widths: FrameFieldWidths,
    plans: Seq<BlockPlan>,
)
    requires
        plans_fault(plans) is None,
        f.channel_blocks.len() == plans[0].channels,
        emit_header(f.header, widths).1 is None,
        forall|c: int|
            0 <= c < f.channel_blocks.len() ==> channel_text(
                #[trigger] f.channel_blocks[c],
                plans,
            ).1 is None,
        forall|c: int|
            0 <= c < f.channel_blocks.len() ==> (#[trigger] f.channel_blocks[c]).len()
                == plans.len(),
    ensures
        emit_frame(f, widths, plans).1 is None,
        f.channel_blocks.len() == 1 ==> emit_frame(f, widths, plans).0 == emit_header(
            f.header,
            widths,
        ).0 + channel_text(f.channel_blocks[0], plans).0,
        f.channel_blocks.len() == 2 ==> emit_frame(f, widths, plans).0 == emit_header(
            f.header,
            widths,
        ).0 + (channel_text(f.channel_blocks[0], plans).0 + channel_text(
            f.channel_blocks[1],
            plans,
        ).0),
{
    let channels = f.channel_blocks;
    assert forall|k: nat| k <= channels.len() implies (#[trigger] emit_channels(
        channels,
        plans,
        k,
    )).1 is None by {
        lemma_channels_written(channels, plans, k);
    }
    reveal_with_fuel(emit_channels, 3);
    if channels.len() >= 1 {
        lemma_channel_written(channels[0], plans, plans.len());
        assert(Seq::<bool>::empty() + channel_text(channels[0], plans).0 =~= channel_text(
            channels[0],
            plans,
        ).0);
    }
    if channels.len() == 2 {
        lemma_channel_written(channels[1], plans, plans.len());
    }
    assert(emit_channels(channels, plans, channels.len()).1 is None);
}

/// The bits of a channel: its blocks in order, each by the plan at its place.
pub open spec fn channel_text(blocks: Seq<BlockFields>, plans: Seq<BlockPlan>) -> (
    Seq<bool>,
    Option<FrameBitsError>,
)
    decreases blocks.len(),
{
    if blocks.len() == 0 {
        (Seq::empty(), None)
    } else {
        let before = channel_text(blocks.drop_last(), plans);
        let own = emit_block(blocks.last(), plans[blocks.len() - 1]);
        if before.1 is Some {
            before
        } else {
            (before.0 + own.0, own.1)
        }
    }
}

proof fn lemma_channel_written(blocks: Seq<BlockFields>, plans: Seq<BlockPlan>, k: nat)
    requires
        k <= blocks.len(),
    ensures
        crate::frame_bits::emit_blocks(blocks, plans, k) == channel_text(
            blocks.take(k as int),
            plans,
        ),
        k == blocks.len() ==> crate::frame_bits::emit_blocks(blocks, plans, k) == channel_text(
            blocks,
            plans,
        ),
    decreases k,
{
    if k > 0 {
        lemma_channel_written(blocks, plans, (k - 1) as nat);
        assert(blocks.take(k as int).drop_last() =~= blocks.take(k - 1));
    }
    assert(k == blocks.len() ==> blocks.take(k as int) =~= blocks);
}

proof fn lemma_channels_written(
    channels: Seq<Seq<BlockFields>>,
    plans: Seq<BlockPlan>,
    k: nat,
)
    requires
        k <= channels.len(),
        forall|c: int|
            0 <= c < channels.len() ==> channel_text(#[trigger] channels[c], plans).1 is None,
        forall|c: int| 0 <= c < channels.len() ==> (#[trigger] channels[c]).len() == plans.len(),
    ensures
        emit_channels(channels, plans, k).1 is None,
    decreases k,
{
    if k > 0 {
        lemma_channels_written(channels, plans, (k - 1) as nat);
        lemma_channel_written(channels[k - 1], plans, plans.len());
    }
}

/// A run that leads out of the block is refused, with the place it leads to.
pub proof fn overlong_runs_are_refused(
    count: nat,
    position: nat,
    done: Seq<i32>,
    vlc: CoefVlc,
    escape: EscapeWidths,
    symbol: usize,
    rest: Seq<bool>,
)
    requires
        vlc.wf(),
        symbol < vlc.lens().len(),
        position < count <= usize::MAX,
        event_of(vlc.pairs(), symbol as int) matches Some(CoefEvent::Pair { run, .. }) && position
            + run >= count && position + run <= usize::MAX,
    ensures
        event_of(vlc.pairs(), symbol as int) matches Some(CoefEvent::Pair { run, .. }) && read_coefs(
            count,
            position,
            done,
            vlc,
            escape,
            codeword(vlc.lens(), symbol as int) + rest,
        ) == (
            Err::<Seq<i32>, FrameBitsError>(
                FrameBitsError::CoefficientOverflow {
                    position: (position + run) as usize,
                    coef_count: count as usize,
                },
            ),
            rest,
        ),
{
    vlc.lemma_wf();
    decode_inverts_encode(vlc.lens(), symbol, rest);
}

/// Symbol 0 ends a block: what is left of it is zeros.
pub proof fn symbol_zero_ends_the_block(
    count: nat,
    position: nat,
    done: Seq<i32>,
    vlc: CoefVlc,
    escape: EscapeWidths,
    rest: Seq<bool>,
)
    requires
        vlc.wf(),
        position < count,
    ensures
        read_coefs(count, position, done, vlc, escape, codeword(vlc.lens(), 0) + rest) == (
            Ok::<Seq<i32>, FrameBitsError>(done),
            rest,
        ),
{
    vlc.lemma_wf();
    decode_inverts_encode(vlc.lens(), 0, rest);
}

/// An escaped magnitude of zero is refused.
pub proof fn escaped_zeros_are_refused(
    vlc: CoefVlc,
    escape: EscapeWidths,
    run: nat,
    rest: Seq<bool>,
)
    requires
        vlc.wf(),
        vlc.lens().len() > 1,
        run < pow2(escape.run_bits as nat),
    ensures
        read_event(
            vlc,
            escape,
            codeword(vlc.lens(), 1) + (bits_of(run, escape.run_bits as nat) + (bits_of(
                0,
                escape.level_bits as nat,
            ) + rest)),
        ) == (Err::<Option<(nat, nat)>, FrameBitsError>(FrameBitsError::EscapeLevelZero), rest),
{
    vlc.lemma_wf();
    let a = escape.run_bits as nat;
    let b = escape.level_bits as nat;
    let after = bits_of(0, b) + rest;
    decode_inverts_encode(vlc.lens(), 1, bits_of(run, a) + after);
    crate::bits::lemma_bits_of_len(run, a);
    crate::bits::lemma_bits_of_len(0, b);
    crate::bits::lemma_value_of_bits(run, a);
    vstd::arithmetic::power2::lemma_pow2_pos(b);
    crate::bits::lemma_value_of_bits(0, b);
    assert((bits_of(run, a) + after).take(a as int) =~= bits_of(run, a));
    assert((bits_of(run, a) + after).skip(a as int) =~= after);
    assert(after.take(b as int) =~= bits_of(0, b));
    assert(after.skip(b as int) =~= rest);
}

/// A plan for one or two channels and at least one coefficient can be used, and no other.
pub proof fn plans_are_refused_for_their_first_fault(plan: BlockPlan)
    ensures
        plan.fault() is None <==> (plan.channels == 1 || plan.channels == 2) && plan.coef_count > 0,
        plan.channels != 1 && plan.channels != 2 ==> plan.fault() == Some(
            FrameBitsError::PlanMismatch { what: "channel count (must be 1 or 2)" },
        ),
        (plan.channels == 1 || plan.channels == 2) && plan.coef_count == 0 ==> plan.fault() == Some(
            FrameBitsError::PlanMismatch { what: "coefficient count (must be positive)" },
        ),
{
}

/// A block has the shape of its plan where it has as many gain symbols, a coupling flag just
/// for two channels, as many scale symbols where the envelope is coded and else none, and as
/// many coefficients. The first of these that fails is reported.
pub proof fn blocks_are_refused_for_their_first_fault(b: BlockFields, plan: BlockPlan)
    requires
        plan.fault() is None,
    ensures
        ({
            let gains = b.gain_symbols.len() == plan.gain_count;
            let flagged = b.stereo_coupling is Some <==> plan.channels == 2;
            let scales = b.scale_symbols.len() == if plan.envelope_coded {
                plan.scale_count as nat
            } else {
                0
            };
            let coefs = b.coefficients.len() == plan.coef_count;
            &&& shape_fault(b, plan) is None <==> gains && flagged && scales && coefs
            &&& !gains ==> shape_fault(b, plan) == Some(
                FrameBitsError::PlanMismatch { what: "gain symbol count" },
            )
            &&& gains && !flagged ==> shape_fault(b, plan) == Some(
                FrameBitsError::PlanMismatch { what: "stereo flag presence" },
            )
            &&& gains && flagged && !scales ==> shape_fault(b, plan) == Some(
                FrameBitsError::PlanMismatch { what: "scale symbol count" },
            )
            &&& gains && flagged && scales && !coefs ==> shape_fault(b, plan) == Some(
                FrameBitsError::PlanMismatch { what: "coefficient count" },
            )
        }),
{
}

/// A magnitude and a sign give the signed number, modulo two to the 32nd power, and exactly
/// where it fits.
pub proof fn signed_levels_wrap(level: nat, negative: bool)
    requires
        level < 0x1_0000_0000,
    ensures
        ({
            let exact = if negative {
                -level
            } else {
                level as int
            };
            let got = signed(level, negative) as int;
            &&& got == exact || got == exact + 0x1_0000_0000 || got == exact - 0x1_0000_0000
            &&& level < 0x8000_0000 ==> got == exact
        }),
{
}

/// A pair that neither the alphabet nor its escape can spell is refused.
pub proof fn pairs_out_of_range_are_refused(
    vlc: CoefVlc,
    escape: EscapeWidths,
    run: u16,
    level: u32,
)
    requires
        alphabet_symbol(vlc, run as nat, level as nat) is None,
        run >= pow2(escape.run_bits as nat) || level >= pow2(escape.level_bits as nat),
    ensures
        emit_pair(vlc, escape, run as nat, level as nat) == (
            Seq::<bool>::empty(),
            Some(FrameBitsError::EscapeOverflow { run, abs_level: level }),
        ),
{
}

} // verus!

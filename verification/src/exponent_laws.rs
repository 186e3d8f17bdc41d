//! What a channel's exponents are, in terms of the changes that its packet codes.
use crate::bits::value_of;
use crate::common::{
    codeword, codewords_are_found, scan_code, stands_alone, total, ScanError, Version, WmaError,
};
use crate::context::{
    exponents_from, no_exponents, read_exponents, saturated, ExponentValues, WmaContext,
};
use vstd::prelude::*;

verus! {

/// The changes that the next `n` codewords of a scale table stand for: entry `i` for a
/// change of `i - 60`.
pub open spec fn read_changes(codes: Seq<u32>, lens: Seq<u8>, n: nat, bits: Seq<bool>) -> (
    Result<Seq<int>, WmaError>,
    Seq<bool>,
)
    decreases n,
{
    if n == 0 {
        (Ok(Seq::empty()), bits)
    } else {
        match scan_code(codes, lens, 0, bits) {
            (Err(ScanError::Unmatched), rest) => (Err(WmaError::NoScaleCode), rest),
            (Err(ScanError::OutOfBits), rest) => (Err(WmaError::OutOfBits), rest),
            (Ok(i), rest) => match read_changes(codes, lens, (n - 1) as nat, rest) {
                (Err(e), rest) => (Err(e), rest),
                (Ok(more), rest) => (Ok(seq![i as int - 60] + more), rest),
            },
        }
    }
}

/// The sum of changes.
pub open spec fn sum_of(changes: Seq<int>) -> int
    decreases changes.len(),
{
    if changes.len() == 0 {
        0
    } else {
        changes[0] + sum_of(changes.skip(1))
    }
}

/// The place in the table of powers of the sum of `base` and the first `k + 1` changes:
/// sixty places up, and none past either end of the 156.
pub open spec fn place_of_sum(base: int, changes: Seq<int>, k: int) -> int {
    let place = base + sum_of(changes.take(k + 1)) + 60;
    if place < 0 {
        0
    } else if place > 155 {
        155
    } else {
        place
    }
}

/// Whether the first `m` bands are those that start inside a frame of `n` coefficients.
pub open spec fn bands_start_inside(bands: Seq<u32>, m: int, n: nat) -> bool {
    &&& 0 <= m <= bands.len()
    &&& forall|k: int| 0 <= k < m ==> total(#[trigger] bands.take(k)) < n
    &&& m < bands.len() ==> total(bands.take(m)) >= n
}

proof fn lemma_total_next(bands: Seq<u32>, k: int)
    requires
        0 <= k < bands.len(),
    ensures
        total(bands.take(k + 1)) == total(bands.take(k)) + bands[k],
    decreases k,
{
    if k == 0 {
        assert(bands.take(1).skip(1) =~= Seq::<u32>::empty());
        assert(bands.take(0) =~= Seq::<u32>::empty());
    } else {
        let tail = bands.skip(1);
        lemma_total_next(tail, k - 1);
        assert(bands.take(k + 1).skip(1) =~= tail.take(k));
        assert(bands.take(k).skip(1) =~= tail.take(k - 1));
    }
}

proof fn lemma_totals_ascend(bands: Seq<u32>, j: int, k: int)
    requires
        0 <= j <= k <= bands.len(),
    ensures
        total(bands.take(j)) <= total(bands.take(k)),
    decreases k - j,
{
    if j < k {
        lemma_totals_ascend(bands, j, k - 1);
        lemma_total_next(bands, k - 1);
    }
}

proof fn lemma_place_shift(base: int, change: int, more: Seq<int>, k: int)
    requires
        0 <= k <= more.len(),
    ensures
        place_of_sum(base, seq![change] + more, k) == place_of_sum(base + change, more, k - 1),
{
    assert((seq![change] + more).take(k + 1).skip(1) =~= more.take(k));
}

proof fn lemma_first_place(base: int, change: int, more: Seq<int>)
    ensures
        place_of_sum(base, seq![change] + more, 0) == crate::context::power_place(base + change),
{
    reveal_with_fuel(sum_of, 2);
    assert((seq![change] + more).take(1) =~= seq![change]);
}

proof fn lemma_change_range(codes: Seq<u32>, lens: Seq<u8>, n: nat, bits: Seq<bool>)
    requires
        lens.len() <= 121,
    ensures
        scan_code(codes, lens, n, bits).0 matches Ok(i) ==> i < lens.len(),
    decreases crate::huffman::max_length(lens) - n,
{
    if n < crate::huffman::max_length(lens) && n < bits.len() {
        lemma_change_range(codes, lens, n + 1, bits);
    }
}

proof fn lemma_changes_count(codes: Seq<u32>, lens: Seq<u8>, n: nat, bits: Seq<bool>)
    ensures
        read_changes(codes, lens, n, bits).0 matches Ok(c) ==> c.len() == n,
    decreases n,
{
    if n > 0 {
        let (found, rest) = scan_code(codes, lens, 0, bits);
        lemma_changes_count(codes, lens, (n - 1) as nat, rest);
    }
}

/// What the bands from band `k` on give, at coefficient `i`, of which band `j` may be.
proof fn lemma_exponents_from(
    ctx: WmaContext,
    k: int,
    m: int,
    last: int,
    done: ExponentValues,
    bits: Seq<bool>,
    j: int,
    i: int,
)
    requires
        0 <= k <= m,
        bands_start_inside(ctx.bands@, m, done.0.len()),
        ctx.version == Version::V1 ==> total(ctx.bands@.take(k)) > 0,
        -60 * k <= last <= 60 * k + 100,
        k <= m <= 30_000_000,
    ensures
        ({
            let bands = ctx.bands@;
            let read = exponents_from(ctx, k as nat, total(bands.take(k)), last, done, bits);
            match read_changes(
                ctx.tables.scale.codes@,
                ctx.tables.scale.bits@,
                (m - k) as nat,
                bits,
            ) {
                (Err(e), rest) => read == (Err::<ExponentValues, WmaError>(e), rest),
                (Ok(changes), rest) => {
                    &&& read.1 == rest
                    &&& read.0 matches Ok(got) && {
                        &&& got.0.len() == done.0.len()
                        &&& k <= j < m && total(bands.take(j)) <= i < total(bands.take(j + 1)) && i
                            < done.0.len() ==> got.0[i] == Some(
                            place_of_sum(last, changes, j - k) as u8,
                        )
                        &&& 0 <= i < done.0.len() && (i < total(bands.take(k)) || i >= total(
                            bands.take(m),
                        )) ==> got.0[i] == done.0[i]
                        &&& k == m ==> got.1 == done.1
                        &&& k <= j < m ==> got.1 is Some && got.1->0 >= place_of_sum(
                            last,
                            changes,
                            j - k,
                        )
                        &&& done.1 is Some ==> got.1 is Some && got.1->0 >= done.1->0
                        &&& got.1 == done.1 || exists|q: int|
                            0 <= q < m - k && got.1 == Some(
                                #[trigger] place_of_sum(last, changes, q) as u8,
                            )
                    }
                },
            }
        }),
    decreases m - k,
{
    let bands = ctx.bands@;
    let codes = ctx.tables.scale.codes@;
    let lens = ctx.tables.scale.bits@;
    let at = total(bands.take(k));
    if k < m {
        assert(at < done.0.len());
        lemma_total_next(bands, k);
        let (found, rest) = scan_code(codes, lens, 0, bits);
        lemma_change_range(codes, lens, 0, bits);
        if found is Ok {
            let change = found->Ok_0 - 60;
            let width = bands[k] as nat;
            let now = last + change;
            let place = crate::context::power_place(now);
            let next = (
                crate::context::filled(done.0, at as int, width as int, place),
                crate::context::greater(done.1, place),
            );
            lemma_exponents_from(ctx, k + 1, m, now, next, rest, j, i);
            lemma_totals_ascend(bands, k + 1, m);
            lemma_changes_count(codes, lens, (m - k - 1) as nat, rest);
            let inner = read_changes(codes, lens, (m - k - 1) as nat, rest);
            if inner.0 is Ok {
                let more = inner.0->Ok_0;
                let changes = seq![change] + more;
                lemma_first_place(last, change, more);
                if k < j < m {
                    lemma_place_shift(last, change, more, j - k);
                    lemma_totals_ascend(bands, k + 1, j);
                }
                let got = exponents_from(ctx, (k + 1) as nat, at + width, now, next, rest).0->Ok_0;
                if got.1 != done.1 {
                    if got.1 == next.1 {
                        assert(got.1 == Some(place_of_sum(last, changes, 0) as u8));
                    } else {
                        let q = choose|q: int|
                            0 <= q < m - k - 1 && got.1 == Some(
                                #[trigger] place_of_sum(now, more, q) as u8,
                            );
                        lemma_place_shift(last, change, more, q + 1);
                        assert(got.1 == Some(place_of_sum(last, changes, q + 1) as u8));
                    }
                }
            }
        }
    }
}

/// Whether exponents are running sums over the first `m` bands of a frame of `n`
/// coefficients: the place of every coefficient of band `k` is that of the base and the
/// changes up to the band's own, added up; the coefficients past the bands have none; and
/// the greatest place of any band is kept.
pub open spec fn are_running_sums(
    got: ExponentValues,
    bands: Seq<u32>,
    m: int,
    n: nat,
    base: int,
    changes: Seq<int>,
) -> bool {
    &&& got.0.len() == n
    &&& forall|k: int, i: int|
        0 <= k < m && total(bands.take(k)) <= i < total(bands.take(k + 1)) && i < n
            ==> #[trigger] got.0[i] == Some(#[trigger] place_of_sum(base, changes, k) as u8)
    &&& forall|i: int| total(bands.take(m)) <= i < n ==> (#[trigger] got.0[i]) is None
    &&& m == 0 ==> got.1 is None
    &&& m > 0 ==> got.1 is Some && exists|k: int|
        0 <= k < m && got.1 == Some(#[trigger] place_of_sum(base, changes, k) as u8)
    &&& forall|k: int| 0 <= k < m ==> got.1->0 >= #[trigger] place_of_sum(base, changes, k)
}

/// A version 2 channel's exponents are running sums from 36 on. Each band that starts
/// inside the frame has a change, which is the next codeword of the scale table.
pub proof fn version_2_exponents_are_running_sums(ctx: WmaContext, m: int, bits: Seq<bool>)
    requires
        ctx.version == Version::V2,
        bands_start_inside(ctx.bands@, m, ctx.frame_len as nat),
        m <= 30_000_000,
    ensures
        match read_changes(
            ctx.tables.scale.codes@,
            ctx.tables.scale.bits@,
            m as nat,
            bits,
        ) {
            (Err(e), rest) => read_exponents(ctx, bits) == (Err::<ExponentValues, WmaError>(e), rest),
            (Ok(changes), rest) => {
                &&& read_exponents(ctx, bits).1 == rest
                &&& read_exponents(ctx, bits).0 is Ok
                &&& are_running_sums(
                    read_exponents(ctx, bits).0->Ok_0,
                    ctx.bands@,
                    m,
                    ctx.frame_len as nat,
                    36,
                    changes,
                )
            },
        },
{
    let bands = ctx.bands@;
    let none = no_exponents(ctx.frame_len as nat);
    let n = ctx.frame_len as int;
    assert(bands.take(0) =~= Seq::<u32>::empty());
    let changes = read_changes(
        ctx.tables.scale.codes@,
        ctx.tables.scale.bits@,
        m as nat,
        bits,
    ).0;
    lemma_exponents_from(ctx, 0, m, 36, none, bits, 0, 0);
    if changes is Ok {
        let c = changes->Ok_0;
        let got = exponents_from(ctx, 0, 0, 36, none, bits).0->Ok_0;
        assert forall|k: int, i: int|
            0 <= k < m && total(bands.take(k)) <= i < total(bands.take(k + 1)) && i
                < n implies #[trigger] got.0[i] == Some(
            #[trigger] place_of_sum(36, c, k) as u8,
        ) by {
            lemma_exponents_from(ctx, 0, m, 36, none, bits, k, i);
        }
        assert forall|i: int| total(bands.take(m)) <= i < n implies (
        #[trigger] got.0[i]) is None by {
            lemma_exponents_from(ctx, 0, m, 36, none, bits, 0, i);
        }
        assert forall|k: int| 0 <= k < m implies got.1->0 >= #[trigger] place_of_sum(
            36,
            c,
            k,
        ) by {
            lemma_exponents_from(ctx, 0, m, 36, none, bits, k, 0);
        }
        assert(are_running_sums(got, bands, m, ctx.frame_len as nat, 36, c));
    }
}

/// A version 1 channel's exponents are running sums from a base that is ten more than a
/// five-bit field. The change of the first band is zero and takes no bits; that of every
/// other band that starts inside the frame is the next codeword of the scale table.
pub proof fn version_1_exponents_are_running_sums(ctx: WmaContext, m: int, bits: Seq<bool>)
    requires
        ctx.version == Version::V1,
        bands_start_inside(ctx.bands@, m, ctx.frame_len as nat),
        0 < m <= 30_000_000,
        ctx.bands@[0] > 0,
        bits.len() >= 5,
    ensures
        match read_changes(
            ctx.tables.scale.codes@,
            ctx.tables.scale.bits@,
            (m - 1) as nat,
            bits.skip(5),
        ) {
            (Err(e), rest) => read_exponents(ctx, bits) == (Err::<ExponentValues, WmaError>(e), rest),
            (Ok(changes), rest) => {
                &&& read_exponents(ctx, bits).1 == rest
                &&& read_exponents(ctx, bits).0 is Ok
                &&& are_running_sums(
                    read_exponents(ctx, bits).0->Ok_0,
                    ctx.bands@,
                    m,
                    ctx.frame_len as nat,
                    value_of(bits.take(5)) as int + 10,
                    seq![0int] + changes,
                )
            },
        },
{
    let bands = ctx.bands@;
    let none = no_exponents(ctx.frame_len as nat);
    let n = ctx.frame_len as int;
    assert(bands.take(0) =~= Seq::<u32>::empty());
    let text = bits.skip(5);
    crate::bits::lemma_value_bound(bits.take(5));
    vstd::arithmetic::power2::lemma2_to64();
    let base = value_of(bits.take(5)) as int + 10;
    lemma_total_next(bands, 0);
    assert(total(bands.take(0)) < ctx.frame_len);
    let width = bands[0] as nat;
    let place = crate::context::power_place(base);
    let done = (crate::context::filled(none.0, 0, width as int, place), Some(place));
    assert(read_exponents(ctx, bits) == exponents_from(ctx, 1, width, base, done, text));
    lemma_exponents_from(ctx, 1, m, base, done, text, 1, 0);
    let changes = read_changes(
        ctx.tables.scale.codes@,
        ctx.tables.scale.bits@,
        (m - 1) as nat,
        text,
    ).0;
    lemma_changes_count(
        ctx.tables.scale.codes@,
        ctx.tables.scale.bits@,
        (m - 1) as nat,
        text,
    );
    if changes is Ok {
        let c = changes->Ok_0;
        let all = seq![0int] + c;
        let got = exponents_from(ctx, 1, width, base, done, text).0->Ok_0;
        lemma_first_place(base, 0, c);
        assert forall|k: int, i: int|
            0 <= k < m && total(bands.take(k)) <= i < total(bands.take(k + 1)) && i
                < n implies #[trigger] got.0[i] == Some(
            #[trigger] place_of_sum(base, all, k) as u8,
        ) by {
            lemma_exponents_from(ctx, 1, m, base, done, text, k, i);
            if k > 0 {
                lemma_place_shift(base, 0, c, k);
            }
        }
        assert forall|i: int| total(bands.take(m)) <= i < n implies (
        #[trigger] got.0[i]) is None by {
            lemma_exponents_from(ctx, 1, m, base, done, text, 1, i);
            lemma_totals_ascend(bands, 1, m);
        }
        assert forall|k: int| 0 <= k < m implies got.1->0 >= #[trigger] place_of_sum(
            base,
            all,
            k,
        ) by {
            lemma_exponents_from(ctx, 1, m, base, done, text, k, 0);
            if k > 0 {
                lemma_place_shift(base, 0, c, k);
            }
        }
        if got.1 != done.1 {
            let q = choose|q: int|
                0 <= q < m - 1 && got.1 == Some(#[trigger] place_of_sum(base, c, q) as u8);
            lemma_place_shift(base, 0, c, q + 1);
            assert(got.1 == Some(place_of_sum(base, all, q + 1) as u8));
        } else {
            assert(got.1 == Some(place_of_sum(base, all, 0) as u8));
        }
        assert(are_running_sums(got, bands, m, ctx.frame_len as nat, base, all));
    }
}

/// A version 1 channel whose five-bit field is cut short runs out of bits.
pub proof fn version_1_exponents_need_their_base(ctx: WmaContext, bits: Seq<bool>)
    requires
        ctx.version == Version::V1,
        bits.len() < 5,
    ensures
        read_exponents(ctx, bits).0 == Err::<ExponentValues, WmaError>(WmaError::OutOfBits),
{
}

/// The codewords of changes, one after the other.
pub open spec fn changes_text(codes: Seq<u32>, lens: Seq<u8>, changes: Seq<int>) -> Seq<bool>
    decreases changes.len(),
{
    if changes.len() == 0 {
        Seq::empty()
    } else {
        codeword(codes, lens, changes[0] + 60) + changes_text(codes, lens, changes.skip(1))
    }
}

/// Changes from -60 to 60, spelled with codewords that stand alone, are read back, and
/// nothing past them is read.
pub proof fn changes_are_read_back(
    codes: Seq<u32>,
    lens: Seq<u8>,
    changes: Seq<int>,
    rest: Seq<bool>,
)
    requires
        codes.len() == lens.len() == 121,
        forall|j: int|
            0 <= j < changes.len() ==> -60 <= #[trigger] changes[j] <= 60 && stands_alone(
                codes,
                lens,
                changes[j] + 60,
            ),
    ensures
        read_changes(codes, lens, changes.len(), changes_text(codes, lens, changes) + rest) == (
            Ok::<Seq<int>, WmaError>(changes),
            rest,
        ),
    decreases changes.len(),
{
    let text = changes_text(codes, lens, changes);
    if changes.len() == 0 {
        assert(text + rest =~= rest);
        assert(changes =~= Seq::<int>::empty());
    } else {
        let tail = changes.skip(1);
        let more = changes_text(codes, lens, tail);
        let i = changes[0] + 60;
        assert(stands_alone(codes, lens, changes[0] + 60));
        assert forall|j: int| 0 <= j < tail.len() implies -60 <= #[trigger] tail[j] <= 60
            && stands_alone(codes, lens, tail[j] + 60) by {
            assert(tail[j] == changes[j + 1]);
        }
        changes_are_read_back(codes, lens, tail, rest);
        codewords_are_found(codes, lens, i, more + rest);
        assert(text + rest =~= codeword(codes, lens, i) + (more + rest));
        assert(changes =~= seq![changes[0]] + tail);
    }
}

/// A sum is kept where 32 bits hold it, and else brought to the nearest number that they hold.
pub proof fn sums_are_kept_within_32_bits(sum: int, other: i32)
    ensures
        -0x8000_0000 <= saturated(sum) <= 0x7FFF_FFFF,
        -0x8000_0000 <= sum <= 0x7FFF_FFFF ==> saturated(sum) == sum,
        sum >= other ==> sum - saturated(sum) <= sum - other && saturated(sum) >= other,
        sum <= other ==> saturated(sum) <= other,
{
}

} // verus!

//! Bit sequences as mathematical objects: the number a run of bits spells
//! most-significant-first, the bits that spell a number, and the bits a byte
//! string holds.
use vstd::arithmetic::div_mod::{lemma_div_denominator, lemma_mod_breakdown};
use vstd::arithmetic::power2::{lemma2_to64, lemma_pow2_pos, lemma_pow2_unfold, pow2};
use vstd::prelude::*;

verus! {

/// The number that `bits` spells, most significant bit first.
pub open spec fn value_of(bits: Seq<bool>) -> nat
    decreases bits.len(),
{
    if bits.len() == 0 {
        0
    } else {
        2 * value_of(bits.drop_last()) + if bits.last() { 1nat } else { 0nat }
    }
}

/// The low `n` bits of `v`, most significant bit first.
pub open spec fn bits_of(v: nat, n: nat) -> Seq<bool>
    decreases n,
{
    if n == 0 {
        Seq::empty()
    } else {
        bits_of(v / 2, (n - 1) as nat).push(v % 2 == 1)
    }
}

/// Bit `k` of a byte, counted from its most significant end.
pub open spec fn byte_bit(b: u8, k: int) -> bool {
    (b >> ((7 - k) as u8)) & 1u8 == 1u8
}

/// The bits of a byte string, most significant bit of each byte first.
pub open spec fn bytes_bits(bytes: Seq<u8>) -> Seq<bool> {
    Seq::new(8 * bytes.len(), |i: int| byte_bit(bytes[i / 8], i % 8))
}

/// A run of `n` zero bits.
pub open spec fn zero_bits(n: nat) -> Seq<bool> {
    Seq::new(n, |i: int| false)
}

pub proof fn lemma_bits_of_len(v: nat, n: nat)
    ensures
        bits_of(v, n).len() == n,
    decreases n,
{
    if n > 0 {
        lemma_bits_of_len(v / 2, (n - 1) as nat);
    }
}

/// Bits spell a number below two to their count.
pub proof fn lemma_value_bound(bits: Seq<bool>)
    ensures
        value_of(bits) < pow2(bits.len()),
    decreases bits.len(),
{
    lemma2_to64();
    if bits.len() > 0 {
        lemma_value_bound(bits.drop_last());
        lemma_pow2_unfold(bits.len());
    }
}

/// A number that fits in `n` bits is spelt by its low `n` bits.
pub proof fn lemma_value_of_bits(v: nat, n: nat)
    requires
        v < pow2(n),
    ensures
        value_of(bits_of(v, n)) == v,
    decreases n,
{
    lemma2_to64();
    if n > 0 {
        lemma_pow2_unfold(n);
        assert(v / 2 < pow2((n - 1) as nat));
        lemma_value_of_bits(v / 2, (n - 1) as nat);
        assert(bits_of(v, n).drop_last() =~= bits_of(v / 2, (n - 1) as nat));
        assert(v == 2 * (v / 2) + v % 2);
    }
}

/// The low `n` bits of a number spell it modulo two to the `n`.
pub proof fn lemma_value_of_low_bits(v: nat, n: nat)
    ensures
        value_of(bits_of(v, n)) == v % pow2(n),
    decreases n,
{
    lemma2_to64();
    if n > 0 {
        let p = pow2((n - 1) as nat);
        lemma_pow2_unfold(n);
        lemma_pow2_pos((n - 1) as nat);
        lemma_value_of_low_bits(v / 2, (n - 1) as nat);
        assert(bits_of(v, n).drop_last() =~= bits_of(v / 2, (n - 1) as nat));
        lemma_mod_breakdown(v as int, 2, p as int);
    }
}

/// The bits that spell a run's number, at the run's own width, are the run.
pub proof fn lemma_bits_of_value(bits: Seq<bool>)
    ensures
        bits_of(value_of(bits), bits.len()) == bits,
    decreases bits.len(),
{
    if bits.len() > 0 {
        let init = bits.drop_last();
        lemma_bits_of_value(init);
        let v = value_of(bits);
        assert(v / 2 == value_of(init));
        assert((v % 2 == 1) == bits.last());
        assert(bits_of(v, bits.len()) =~= bits);
    } else {
        assert(bits_of(value_of(bits), bits.len()) =~= bits);
    }
}

/// Only the low `n` bits of a number matter to its `n`-bit spelling.
pub proof fn lemma_bits_of_inj(a: nat, b: nat, n: nat)
    requires
        a < pow2(n),
        b < pow2(n),
        bits_of(a, n) == bits_of(b, n),
    ensures
        a == b,
{
    lemma_value_of_bits(a, n);
    lemma_value_of_bits(b, n);
}

/// The leading `k` bits of an `n`-bit spelling spell the number without its
/// low `n - k` bits.
pub proof fn lemma_bits_of_take(v: nat, n: nat, k: nat)
    requires
        k <= n,
    ensures
        bits_of(v, n).take(k as int) == bits_of(v / pow2((n - k) as nat), k),
    decreases n - k,
{
    lemma2_to64();
    lemma_bits_of_len(v, n);
    if k == n {
        assert(v / 1 == v) by (nonlinear_arith);
        assert(bits_of(v, n).take(k as int) =~= bits_of(v, n));
    } else {
        let m = (n - 1) as nat;
        lemma_bits_of_len(v / 2, m);
        assert(bits_of(v, n).take(k as int) =~= bits_of(v / 2, m).take(k as int));
        lemma_bits_of_take(v / 2, m, k);
        lemma_pow2_unfold((n - k) as nat);
        lemma_pow2_pos((m - k) as nat);
        lemma_div_denominator(v as int, 2, pow2((m - k) as nat) as int);
    }
}

/// The first bit weighs most: it counts two to the number of bits that follow it.
pub proof fn first_bit_weighs_most(first: bool, rest: Seq<bool>)
    ensures
        value_of(seq![first] + rest) == value_of(rest) + (if first {
            pow2(rest.len())
        } else {
            0
        }),
    decreases rest.len(),
{
    lemma2_to64();
    let all = seq![first] + rest;
    if rest.len() == 0 {
        reveal_with_fuel(value_of, 2);
        assert(all.drop_last() =~= Seq::<bool>::empty());
    } else {
        first_bit_weighs_most(first, rest.drop_last());
        assert(all.drop_last() =~= seq![first] + rest.drop_last());
        lemma_pow2_unfold(rest.len());
    }
}

/// The bits of a byte spell the byte, most significant first.
pub proof fn bytes_are_spelled_most_significant_first(b: u8)
    ensures
        bytes_bits(seq![b]).len() == 8,
        value_of(bytes_bits(seq![b])) == b,
{
    let bits = bytes_bits(seq![b]);
    let eight = seq![
        byte_bit(b, 0),
        byte_bit(b, 1),
        byte_bit(b, 2),
        byte_bit(b, 3),
        byte_bit(b, 4),
        byte_bit(b, 5),
        byte_bit(b, 6),
        byte_bit(b, 7),
    ];
    assert(bits =~= eight);
    reveal_with_fuel(value_of, 9);
    assert(b == 128 * ((b >> 7) & 1) + 64 * ((b >> 6) & 1) + 32 * ((b >> 5) & 1) + 16 * ((b >> 4)
        & 1) + 8 * ((b >> 3) & 1) + 4 * ((b >> 2) & 1) + 2 * ((b >> 1) & 1) + ((b >> 0) & 1))
        by (bit_vector);
    assert((b >> 7) & 1 <= 1 && (b >> 6) & 1 <= 1 && (b >> 5) & 1 <= 1 && (b >> 4) & 1 <= 1 && (b
        >> 3) & 1 <= 1 && (b >> 2) & 1 <= 1 && (b >> 1) & 1 <= 1 && (b >> 0) & 1 <= 1)
        by (bit_vector);
}

/// The bits of a byte string are those of its bytes, one after the other.
pub proof fn bytes_follow_each_other(a: Seq<u8>, b: Seq<u8>)
    ensures
        bytes_bits(a + b) == bytes_bits(a) + bytes_bits(b),
{
    let all = a + b;
    let n = 8 * a.len() as int;
    assert forall|i: int| 0 <= i < bytes_bits(all).len() implies bytes_bits(all)[i] == (
    bytes_bits(a) + bytes_bits(b))[i] by {
        if i >= n {
            assert(i / 8 - a.len() == (i - n) / 8);
            assert(i % 8 == (i - n) % 8);
        }
    }
    assert(bytes_bits(all) =~= bytes_bits(a) + bytes_bits(b));
}

/// Padding is zeros.
pub proof fn padding_is_zeros(n: nat)
    ensures
        zero_bits(n).len() == n,
        value_of(zero_bits(n)) == 0,
        forall|i: int| 0 <= i < n ==> !#[trigger] zero_bits(n)[i],
    decreases n,
{
    if n > 0 {
        padding_is_zeros((n - 1) as nat);
        assert(zero_bits(n).drop_last() =~= zero_bits((n - 1) as nat));
    }
}

} // verus!

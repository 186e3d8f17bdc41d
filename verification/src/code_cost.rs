//! What a prefix code costs: weights times lengths, and the code space that
//! lengths take.
use vstd::arithmetic::power2::{lemma2_to64, lemma_pow2_unfold, pow2};
use vstd::prelude::*;

verus! {

/// A symbol's weight and the length of its codeword.
pub type Coded = (nat, nat);

/// Symbols of these weights with codewords of these lengths.
pub open spec fn coded(weights: Seq<nat>, lens: Seq<nat>) -> Seq<Coded> {
    Seq::new(weights.len(), |s: int| (weights[s], lens[s]))
}

/// The sum of `f` over symbols.
pub open spec fn total(s: Seq<Coded>, f: spec_fn(Coded) -> nat) -> nat
    decreases s.len(),
{
    if s.len() == 0 {
        0
    } else {
        total(s.drop_last(), f) + f(s.last())
    }
}

/// Weight times length.
pub open spec fn weighted() -> spec_fn(Coded) -> nat {
    |c: Coded| c.0 * c.1
}

/// The share of a codeword in a code space of size two to `whole`.
pub open spec fn claim(whole: nat) -> spec_fn(Coded) -> nat {
    |c: Coded| pow2((whole - c.1) as nat)
}

/// The sum of weights times lengths.
pub open spec fn cost(s: Seq<Coded>) -> nat {
    total(s, weighted())
}

/// The part that the codewords take of a code space of size two to `whole`.
pub open spec fn room(s: Seq<Coded>, whole: nat) -> nat {
    total(s, claim(whole))
}

/// Whether no length is above `whole`, and the codewords fit in the code space.
pub open spec fn fits(s: Seq<Coded>, whole: nat) -> bool {
    &&& forall|k: int| 0 <= k < s.len() ==> (#[trigger] s[k]).1 <= whole
    &&& room(s, whole) <= pow2(whole)
}

/// Whether two lists of symbols have the same weights.
pub open spec fn same_weights(s: Seq<Coded>, t: Seq<Coded>) -> bool {
    &&& s.len() == t.len()
    &&& forall|k: int| 0 <= k < s.len() ==> (#[trigger] s[k]).0 == t[k].0
}

/// `s` without the items at `i` and `j`.
pub open spec fn without_two<A>(s: Seq<A>, i: int, j: int) -> Seq<A> {
    if i > j {
        s.remove(i).remove(j)
    } else {
        s.remove(j).remove(i)
    }
}

proof fn lemma_total_update(s: Seq<Coded>, f: spec_fn(Coded) -> nat, i: int, c: Coded)
    requires
        0 <= i < s.len(),
    ensures
        total(s.update(i, c), f) + f(s[i]) == total(s, f) + f(c),
    decreases s.len(),
{
    let t = s.update(i, c);
    if i == s.len() - 1 {
        assert(t.drop_last() =~= s.drop_last());
    } else {
        lemma_total_update(s.drop_last(), f, i, c);
        assert(t.drop_last() =~= s.drop_last().update(i, c));
    }
}

proof fn lemma_total_remove(s: Seq<Coded>, f: spec_fn(Coded) -> nat, i: int)
    requires
        0 <= i < s.len(),
    ensures
        total(s.remove(i), f) + f(s[i]) == total(s, f),
    decreases s.len(),
{
    let t = s.remove(i);
    if i == s.len() - 1 {
        assert(t =~= s.drop_last());
    } else {
        lemma_total_remove(s.drop_last(), f, i);
        assert(t.drop_last() =~= s.drop_last().remove(i));
        assert(t.last() == s.last());
    }
}

proof fn lemma_total_push(s: Seq<Coded>, f: spec_fn(Coded) -> nat, c: Coded)
    ensures
        total(s.push(c), f) == total(s, f) + f(c),
{
    assert(s.push(c).drop_last() =~= s);
}

/// Replacing two symbols by one.
proof fn lemma_total_joined(s: Seq<Coded>, f: spec_fn(Coded) -> nat, i: int, j: int, c: Coded)
    requires
        0 <= i < s.len(),
        0 <= j < s.len(),
        i != j,
    ensures
        total(without_two(s, i, j).push(c), f) + f(s[i]) + f(s[j]) == total(s, f) + f(c),
{
    let hi = if i > j { i } else { j };
    let lo = if i > j { j } else { i };
    lemma_total_remove(s, f, hi);
    lemma_total_remove(s.remove(hi), f, lo);
    lemma_total_push(without_two(s, i, j), f, c);
}

/// Codewords that are all shorter than `whole` take twice as much of the space of
/// that size as of half of it.
proof fn lemma_room_halves(s: Seq<Coded>, whole: nat)
    requires
        whole >= 1,
        forall|k: int| 0 <= k < s.len() ==> (#[trigger] s[k]).1 < whole,
    ensures
        room(s, whole) == 2 * room(s, (whole - 1) as nat),
    decreases s.len(),
{
    if s.len() > 0 {
        assert(s[s.len() - 1].1 < whole);
        assert forall|k: int| 0 <= k < s.drop_last().len() implies (#[trigger] s.drop_last()[k]).1
            < whole by {
            assert(s.drop_last()[k] == s[k]);
        }
        lemma_room_halves(s.drop_last(), whole);
        lemma_pow2_unfold((whole - s.last().1) as nat);
    }
}

/// Codewords that are all shorter than `whole` fit in half the space.
pub proof fn lemma_none_longest(s: Seq<Coded>, whole: nat)
    requires
        whole >= 1,
        fits(s, whole),
        forall|k: int| 0 <= k < s.len() ==> (#[trigger] s[k]).1 != whole,
    ensures
        fits(s, (whole - 1) as nat),
{
    assert forall|k: int| 0 <= k < s.len() implies (#[trigger] s[k]).1 < whole by {}
    lemma_room_halves(s, whole);
    lemma_pow2_unfold(whole);
}

/// A codeword that alone is the longest can be shortened by a bit.
pub proof fn lemma_one_longest(s: Seq<Coded>, whole: nat, x: int)
    requires
        whole >= 1,
        fits(s, whole),
        0 <= x < s.len(),
        s[x].1 == whole,
        forall|k: int| 0 <= k < s.len() && k != x ==> (#[trigger] s[k]).1 != whole,
    ensures
        ({
            let t = s.update(x, (s[x].0, (whole - 1) as nat));
            &&& fits(t, (whole - 1) as nat)
            &&& same_weights(s, t)
            &&& cost(t) <= cost(s)
        }),
{
    let half = (whole - 1) as nat;
    let c = (s[x].0, half);
    let t = s.update(x, c);
    let others = s.remove(x);
    assert(t.remove(x) =~= others);
    lemma2_to64();
    assert forall|k: int| 0 <= k < others.len() implies (#[trigger] others[k]).1 < whole by {
        let at = if k < x { k } else { k + 1 };
        assert(others[k] == s[at]);
        assert(s[at].1 != whole);
    }
    lemma_total_remove(s, claim(whole), x);
    lemma_total_remove(t, claim(half), x);
    lemma_room_halves(others, whole);
    lemma_pow2_unfold(whole);
    lemma_total_update(s, weighted(), x, c);
    assert(s[x].0 * half <= s[x].0 * whole) by (nonlinear_arith)
        requires
            half <= whole,
    ;
    assert forall|k: int| 0 <= k < t.len() implies (#[trigger] t[k]).1 <= half by {
        if k != x {
            assert(t[k] == s[k]);
            assert(s[k].1 != whole);
        }
    }
}

/// `s` with the lengths at `p` and `q` exchanged.
spec fn exchanged(s: Seq<Coded>, p: int, q: int) -> Seq<Coded> {
    s.update(p, (s[p].0, s[q].1)).update(q, (s[q].0, s[p].1))
}

/// Giving the longer of two codewords to the lighter symbol costs no more.
proof fn lemma_exchange(s: Seq<Coded>, p: int, q: int, whole: nat)
    requires
        0 <= p < s.len(),
        0 <= q < s.len(),
        p != q,
        s[p].0 <= s[q].0,
        s[p].1 <= s[q].1,
        fits(s, whole),
    ensures
        fits(exchanged(s, p, q), whole),
        same_weights(s, exchanged(s, p, q)),
        cost(exchanged(s, p, q)) <= cost(s),
{
    let c = (s[p].0, s[q].1);
    let d = (s[q].0, s[p].1);
    let t = s.update(p, c);
    lemma_total_update(s, weighted(), p, c);
    lemma_total_update(t, weighted(), q, d);
    lemma_total_update(s, claim(whole), p, c);
    lemma_total_update(t, claim(whole), q, d);
    let (w, v, l, m) = (s[p].0 as int, s[q].0 as int, s[p].1 as int, s[q].1 as int);
    assert(w * m + v * l <= w * l + v * m) by (nonlinear_arith)
        requires
            w <= v,
            l <= m,
    ;
}

/// Where two codewords are the longest, they can be those of the two lightest
/// symbols.
pub proof fn lemma_two_longest(s: Seq<Coded>, whole: nat, i: int, j: int, x: int, y: int) -> (t: Seq<
    Coded,
>)
    requires
        fits(s, whole),
        0 <= i < s.len(),
        0 <= j < s.len(),
        i != j,
        forall|k: int| 0 <= k < s.len() ==> s[i].0 <= (#[trigger] s[k]).0,
        forall|k: int| 0 <= k < s.len() && k != i ==> s[j].0 <= (#[trigger] s[k]).0,
        0 <= x < s.len(),
        0 <= y < s.len(),
        x != y,
        s[x].1 == whole,
        s[y].1 == whole,
    ensures
        fits(t, whole),
        same_weights(s, t),
        t[i].1 == whole,
        t[j].1 == whole,
        cost(t) <= cost(s),
{
    let first = if s[i].1 == whole {
        s
    } else {
        let z = if x != j { x } else { y };
        lemma_exchange(s, i, z, whole);
        exchanged(s, i, z)
    };
    assert(first[i].1 == whole);
    if first[j].1 == whole {
        first
    } else {
        // One of the two that were the longest is neither `i` nor `j`, and still is.
        let u = if s[i].1 == whole {
            if x != i { x } else { y }
        } else if x != j {
            y
        } else {
            x
        };
        assert(u != i && u != j && first[u].1 == whole);
        assert(first[j].0 == s[j].0 && first[u].0 == s[u].0);
        lemma_exchange(first, j, u, whole);
        exchanged(first, j, u)
    }
}

/// Two codewords of length `whole` leave room for one of a bit less in their
/// place, which costs less by the two weights.
pub proof fn lemma_joined(s: Seq<Coded>, whole: nat, i: int, j: int)
    requires
        whole >= 1,
        fits(s, whole),
        0 <= i < s.len(),
        0 <= j < s.len(),
        i != j,
        s[i].1 == whole,
        s[j].1 == whole,
    ensures
        ({
            let t = without_two(s, i, j).push((s[i].0 + s[j].0, (whole - 1) as nat));
            &&& fits(t, whole)
            &&& cost(s) == cost(t) + s[i].0 + s[j].0
        }),
{
    let half = (whole - 1) as nat;
    let c = (s[i].0 + s[j].0, half);
    let rest = without_two(s, i, j);
    let t = rest.push(c);
    lemma2_to64();
    lemma_total_joined(s, weighted(), i, j, c);
    lemma_total_joined(s, claim(whole), i, j, c);
    lemma_pow2_unfold(1);
    let (a, b, w) = (s[i].0 as int, s[j].0 as int, whole as int);
    assert((a + b) * (w - 1) + a + b == a * w + b * w) by (nonlinear_arith);
    assert forall|k: int| 0 <= k < t.len() implies (#[trigger] t[k]).1 <= whole by {
        if k < rest.len() {
            let hi = if i > j { i } else { j };
            let lo = if i > j { j } else { i };
            let at = if k < lo { k } else if k + 1 < hi { k + 1 } else { k + 2 };
            assert(t[k] == s[at]);
        }
    }
}

/// In a space of size one there is room for one codeword.
pub proof fn lemma_smallest_space(s: Seq<Coded>)
    requires
        fits(s, 0),
    ensures
        s.len() <= 1,
{
    lemma2_to64();
    if s.len() >= 2 {
        let init = s.drop_last();
        assert(s[s.len() - 1].1 == 0);
        assert(init[init.len() - 1] == s[s.len() - 2]);
        assert(s[s.len() - 2].1 == 0);
        assert(room(init, 0) == total(init.drop_last(), claim(0)) + 1);
    }
}

} // verus!

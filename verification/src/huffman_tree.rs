//! Merging weighted symbols into a prefix-code tree.
//!
//! The two lightest nodes are joined until one is left. The weight of a joined
//! node is the floating-point sum of the two weights, which the caller
//! computes; every decision is taken here.
use crate::binary64::Binary64;
use crate::code_cost::{
    coded, cost, fits, lemma_joined, lemma_none_longest, lemma_one_longest, lemma_smallest_space,
    lemma_two_longest, room, same_weights, without_two, Coded,
};
use crate::huffman::{
    is_complete, is_prefix_code, length_ok, lengths_ok, space, HuffmanCode, HuffmanError,
};
use vstd::arithmetic::power2::{
    lemma2_to64, lemma_pow2_adds, lemma_pow2_pos, lemma_pow2_unfold, pow2,
};
use vstd::prelude::*;

verus! {

/// A node that no other node has absorbed: its weight and its number.
pub type Root = (Binary64, usize);

/// Whether root `a` is taken before root `b`: the lighter first, and of equally
/// light ones the one with the smaller number.
pub open spec fn lighter(a: Root, b: Root) -> bool {
    a.0.key() < b.0.key() || (a.0.key() == b.0.key() && a.1 < b.1)
}

/// Whether a weight may be merged: finite and not negative.
pub open spec fn weight_ok(w: Binary64) -> bool {
    w.finite() && w.key() >= 0
}

/// Number of steps from node `v` up to its root.
pub open spec fn depth(parent: Seq<usize>, v: int) -> nat
    decreases parent.len() - v,
{
    if 0 <= v < parent.len() && v < parent[v] < parent.len() {
        1 + depth(parent, parent[v] as int)
    } else {
        0
    }
}

/// A forest over the symbols, which ends as one tree.
///
/// Nodes `0..symbols` are the symbols, and node `symbols + k` joins the pair
/// `merges[k]`.
#[derive(Debug, Clone)]
pub struct HuffmanTree {
    symbols: usize,
    parent: Vec<usize>,
    merges: Vec<(usize, usize)>,
    roots: Vec<(Binary64, usize)>,
}

impl HuffmanTree {
    /// Number of symbols.
    pub closed spec fn alphabet(&self) -> nat {
        self.symbols as nat
    }

    /// The node above each node; a root is above itself.
    pub closed spec fn parents(&self) -> Seq<usize> {
        self.parent@
    }

    /// The nodes not absorbed yet, in the order in which they were made.
    pub closed spec fn open_roots(&self) -> Seq<Root> {
        self.roots@
    }

    /// The forest's invariant.
    pub closed spec fn wf(&self) -> bool {
        let p = self.parent@;
        let n = self.symbols;
        let r = self.roots@;
        &&& n >= 1
        &&& p.len() == n + self.merges@.len()
        &&& r.len() + self.merges@.len() == n
        &&& forall|v: int| 0 <= v < p.len() ==> v <= #[trigger] p[v] < p.len()
        &&& forall|v: int|
            0 <= v < p.len() && (#[trigger] p[v]) != v ==> p[v] >= n && (self.merges@[p[v] - n].0
                == v || self.merges@[p[v] - n].1 == v)
        &&& forall|k: int|
            0 <= k < self.merges@.len() ==> {
                let m = #[trigger] self.merges@[k];
                m.0 != m.1 && m.0 < n + k && m.1 < n + k && p[m.0 as int] == n + k && p[m.1 as int]
                    == n + k
            }
        &&& forall|i: int|
            0 <= i < r.len() ==> {
                let root = #[trigger] r[i];
                root.1 < p.len() && p[root.1 as int] == root.1 && !root.0.nan()
            }
        &&& forall|i: int, j: int| 0 <= i < j < r.len() ==> (#[trigger] r[i]).1 < (#[trigger] r[j]).1
        &&& forall|v: int|
            0 <= v < p.len() && #[trigger] p[v] == v ==> exists|i: int|
                0 <= i < r.len() && (#[trigger] r[i]).1 == v
    }

    /// Start with one node per symbol.
    pub fn new(weights: &[Binary64]) -> (tree: Result<Self, HuffmanError>)
        ensures
            match tree {
                Ok(t) => {
                    &&& weights@.len() > 0
                    &&& forall|i: int| 0 <= i < weights@.len() ==> weight_ok(#[trigger] weights@[i])
                    &&& t.wf()
                    &&& t.alphabet() == weights@.len()
                    &&& t.parents() == Seq::new(weights@.len(), |i: int| i as usize)
                    &&& t.open_roots() == Seq::new(
                        weights@.len(),
                        |i: int| (weights@[i], i as usize),
                    )
                    &&& light_first(t, weights@)
                },
                Err(HuffmanError::EmptyAlphabet) => weights@.len() == 0,
                Err(HuffmanError::InvalidWeight { symbol, weight }) => {
                    &&& symbol < weights@.len()
                    &&& weight == weights@[symbol as int]
                    &&& !weight_ok(weight)
                    &&& forall|i: int| 0 <= i < symbol ==> weight_ok(#[trigger] weights@[i])
                },
                Err(_) => false,
            },
    {
        let n: usize = weights.len();
        if n == 0 {
            return Err(HuffmanError::EmptyAlphabet);
        }
        let zero = Binary64 { bits: 0 };
        let mut parent: Vec<usize> = Vec::new();
        let mut roots: Vec<(Binary64, usize)> = Vec::new();
        let mut i: usize = 0;
        while i < n
            invariant
                i <= n == weights@.len(),
                zero.key() == 0 && !zero.nan(),
                forall|k: int| 0 <= k < i ==> weight_ok(#[trigger] weights@[k]),
                parent@ =~= Seq::new(i as nat, |k: int| k as usize),
                roots@ =~= Seq::new(i as nat, |k: int| (weights@[k], k as usize)),
            decreases n - i,
        {
            let w: Binary64 = weights[i];
            if !w.is_finite() || w.lt(zero) {
                return Err(HuffmanError::InvalidWeight { symbol: i, weight: w });
            }
            parent.push(i);
            roots.push((w, i));
            i = i + 1;
        }
        let tree = HuffmanTree { symbols: n, parent, merges: Vec::new(), roots };
        proof {
            assert forall|k: int| 0 <= k < n implies !(#[trigger] tree.roots@[k]).0.nan() by {
                assert(weight_ok(weights@[k]));
            }
            assert forall|v: int| 0 <= v < n && #[trigger] tree.parent@[v] == v implies exists|i: int|

                0 <= i < tree.roots@.len() && (#[trigger] tree.roots@[i]).1 == v by {
                assert(tree.roots@[v].1 == v);
            }
        }
        Ok(tree)
    }

    /// The place of the lightest root, `skip` left out.
    fn lightest(&self, skip: usize) -> (at: usize)
        requires
            self.wf(),
            self.open_roots().len() >= 2 || (self.open_roots().len() == 1 && skip >= 1),
        ensures
            at < self.open_roots().len(),
            at != skip,
            is_lightest(self.open_roots(), at as int, skip as int),
    {
        let n: usize = self.roots.len();
        let mut at: usize = if skip == 0 {
            1
        } else {
            0
        };
        let mut i: usize = at + 1;
        while i < n
            invariant
                self.wf(),
                n == self.roots@.len(),
                at < i <= n,
                at < n,
                at != skip,
                forall|k: int|
                    0 <= k < i && k != skip && k != at ==> lighter(
                        self.roots@[at as int],
                        #[trigger] self.roots@[k],
                    ),
            decreases n - i,
        {
            if i != skip && self.roots[i].0.lt(self.roots[at].0) {
                proof {
                    let new = self.roots@[i as int];
                    let old_at = self.roots@[at as int];
                    assert(lighter(new, old_at));
                    assert forall|k: int| 0 <= k < i + 1 && k != skip && k != i implies lighter(
                        new,
                        #[trigger] self.roots@[k],
                    ) by {
                        if k != at {
                            assert(lighter(old_at, self.roots@[k]));
                        }
                    }
                }
                at = i;
            }
            i = i + 1;
        }
        at
    }

    /// The weights of the two lightest roots, or `None` where a single root is
    /// left.
    pub fn next_pair(&self) -> (pair: Option<(Binary64, Binary64)>)
        requires
            self.wf(),
        ensures
            match pair {
                Some((a, b)) => {
                    &&& self.open_roots().len() >= 2
                    &&& exists|i: int, j: int|
                        two_lightest(self.open_roots(), i, j) && a == (
                        #[trigger] self.open_roots()[i]).0 && b == (
                        #[trigger] self.open_roots()[j]).0
                },
                None => self.open_roots().len() == 1,
            },
    {
        if self.roots.len() < 2 {
            proof {
                let last = self.parent@.len() - 1;
                assert(self.parent@[last] == last);
            }
            return None;
        }
        let none: usize = self.roots.len();
        let i: usize = self.lightest(none);
        let j: usize = self.lightest(i);
        assert(two_lightest(self.open_roots(), i as int, j as int));
        Some((self.roots[i].0, self.roots[j].0))
    }

    /// Join the two lightest roots under a new one of weight `sum`.
    pub fn merge(&mut self, sum: Binary64)
        requires
            old(self).wf(),
            old(self).open_roots().len() >= 2,
            !sum.nan(),
        ensures
            final(self).wf(),
            final(self).alphabet() == old(self).alphabet(),
            final(self).open_roots().len() == old(self).open_roots().len() - 1,
            exists|i: int, j: int| #[trigger] joins(*old(self), i, j, sum, *final(self)),
            forall|weights: Seq<Binary64>| #[trigger]
                light_first(*old(self), weights) && no_lighter(*old(self), sum) ==> light_first(
                    *final(self),
                    weights,
                ),
    {
        let ghost roots = self.roots@;
        let ghost parents = self.parent@;
        let none: usize = self.roots.len();
        let i: usize = self.lightest(none);
        let j: usize = self.lightest(i);
        assert(two_lightest(roots, i as int, j as int));
        let a: usize = self.roots[i].1;
        let b: usize = self.roots[j].1;
        let up: usize = self.parent.len();
        let (hi, lo): (usize, usize) = if i > j {
            (i, j)
        } else {
            (j, i)
        };
        self.roots.remove(hi);
        self.roots.remove(lo);
        self.roots.push((sum, up));
        self.parent[a] = up;
        self.parent[b] = up;
        self.parent.push(up);
        self.merges.push((a, b));
        proof {
            assert(self.roots@ =~= without_two(roots, i as int, j as int).push((sum, up)));
            assert(self.parent@ =~= parents.update(a as int, up).update(b as int, up).push(up));
            assert(joins(*old(self), i as int, j as int, sum, *self));
            lemma_merge_keeps_wf(*old(self), *self, i as int, j as int, sum);
            assert forall|weights: Seq<Binary64>| #[trigger]
                light_first(*old(self), weights) && no_lighter(*old(self), sum) implies light_first(
                *self,
                weights,
            ) by {
                lemma_merge_keeps_order(*old(self), *self, i as int, j as int, sum, weights);
            }
        }
    }

    /// The canonical code whose lengths are the depths of the symbols. A lone
    /// symbol gets one bit. A symbol deeper than sixty-four levels is refused,
    /// with its depth (or the largest the error can hold).
    pub fn finish(&self) -> (code: Result<HuffmanCode, HuffmanError>)
        requires
            self.wf(),
            self.open_roots().len() == 1,
        ensures
            match code {
                Ok(c) => {
                    &&& c.wf()
                    &&& is_complete(c@)
                    &&& has_depths(*self, c@)
                },
                Err(HuffmanError::InvalidLength { symbol, len }) => {
                    let d = depth(self.parents(), symbol as int);
                    &&& symbol < self.alphabet()
                    &&& d > 64
                    &&& len == (if d <= 255 {
                        d
                    } else {
                        255
                    })
                    &&& forall|s: int|
                        0 <= s < symbol ==> #[trigger] depth(self.parents(), s) <= 64
                },
                Err(_) => false,
            },
    {
        let n: usize = self.symbols;
        let mut lengths: Vec<u8> = Vec::new();
        if n == 1 {
            lengths.push(1);
            assert(lengths@ =~= seq![1u8]);
        } else {
            let mut s: usize = 0;
            while s < n
                invariant
                    self.wf(),
                    self.roots@.len() == 1,
                    n == self.symbols >= 2,
                    s <= n,
                    lengths@.len() == s,
                    forall|k: int|
                        0 <= k < s ==> #[trigger] lengths@[k] == capped(depth(self.parent@, k)),
                    forall|k: int| 0 <= k < s ==> #[trigger] lengths@[k] >= 1,
                decreases n - s,
            {
                let d: u8 = self.depth_of(s);
                proof {
                    lemma_leaf_has_parent(*self, s as int);
                }
                lengths.push(d);
                s = s + 1;
            }
        }
        let code = HuffmanCode::from_lengths(lengths.as_slice());
        proof {
            lemma2_to64();
            let lens = lengths@;
            if lengths_ok(lens) && n >= 2 {
                assert forall|k: int| 0 <= k < n implies depth(self.parent@, k) <= 64
                    && #[trigger] lens[k] == depth(self.parent@, k) by {
                    assert(length_ok(lens[k]));
                }
                lemma_tree_fills_space(*self, lens);
            }
            if let Err(HuffmanError::InvalidLength { symbol, len }) = code {
                assert(!length_ok(lens[symbol as int]));
                assert forall|s: int| 0 <= s < symbol implies #[trigger] depth(self.parent@, s)
                    <= 64 by {
                    assert(length_ok(lens[s]));
                }
            }
        }
        code
    }

    /// Depth of a node, or 255 where it is more.
    fn depth_of(&self, node: usize) -> (d: u8)
        requires
            self.wf(),
            node < self.parents().len(),
        ensures
            d == capped(depth(self.parents(), node as int)),
    {
        let mut v: usize = node;
        let mut d: u8 = 0;
        while self.parent[v] != v
            invariant
                self.wf(),
                v < self.parent@.len(),
                d <= 255,
                capped(depth(self.parent@, node as int)) == capped(d as nat + depth(self.parent@, v as int)),
            decreases self.parent@.len() - v,
        {
            v = self.parent[v];
            if d < 255 {
                d = d + 1;
            }
        }
        d
    }
}

/// Whether `lens` are the lengths that a finished tree gives: one bit for a lone
/// symbol, else the depths of the symbols.
pub open spec fn has_depths(tree: HuffmanTree, lens: Seq<u8>) -> bool {
    &&& lens.len() == tree.alphabet()
    &&& if tree.alphabet() == 1 {
        lens == seq![1u8]
    } else {
        forall|s: int| 0 <= s < lens.len() ==> #[trigger] lens[s] == depth(tree.parents(), s)
    }
}

/// Whether `after` is `before` with its two lightest roots, those at `i` and
/// `j`, joined under a new last node of weight `sum`.
pub open spec fn joins(
    before: HuffmanTree,
    i: int,
    j: int,
    sum: Binary64,
    after: HuffmanTree,
) -> bool {
    let roots = before.open_roots();
    let up = before.parents().len() as usize;
    &&& two_lightest(roots, i, j)
    &&& after.open_roots() == without_two(roots, i, j).push((sum, up))
    &&& after.parents() == before.parents().update(roots[i].1 as int, up).update(
        roots[j].1 as int,
        up,
    ).push(up)
}

/// Whether node `u` has been absorbed no later than node `v`.
pub open spec fn absorbed_first(parent: Seq<usize>, u: int, v: int) -> bool {
    parent[v] != v ==> (parent[u] != u && parent[u] <= parent[v])
}

/// Whether lighter nodes have been absorbed before heavier ones: joined nodes in
/// the order in which they were made, which is the order of their weights, and
/// symbols in the order of theirs.
pub open spec fn light_first(tree: HuffmanTree, weights: Seq<Binary64>) -> bool {
    let p = tree.parents();
    let n = tree.alphabet() as int;
    let r = tree.open_roots();
    &&& weights.len() == n
    &&& forall|u: int, v: int| n <= u < v < p.len() ==> #[trigger] absorbed_first(p, u, v)
    &&& forall|u: int, v: int|
        0 <= u < n && 0 <= v < n && lighter((weights[u], u as usize), (weights[v], v as usize))
            ==> #[trigger] absorbed_first(p, u, v)
    &&& forall|i: int|
        0 <= i < r.len() && (#[trigger] r[i]).1 < n ==> r[i].0 == weights[r[i].1 as int]
    &&& forall|i: int, j: int|
        0 <= i < j < r.len() && n <= (#[trigger] r[i]).1 && n <= (#[trigger] r[j]).1
            ==> r[i].0.key() <= r[j].0.key()
}

/// Whether no open joined node is heavier than `sum`. The sum of the two lightest
/// weights meets this, for such sums never decrease as the tree grows.
pub open spec fn no_lighter(tree: HuffmanTree, sum: Binary64) -> bool {
    forall|i: int|
        0 <= i < tree.open_roots().len() && tree.alphabet() <= (#[trigger] tree.open_roots()[i]).1
            ==> tree.open_roots()[i].0.key() <= sum.key()
}

/// A depth as far as a byte can hold it.
spec fn capped(d: nat) -> nat {
    if d <= 255 {
        d
    } else {
        255
    }
}

/// Whether the root at `at` is the lightest, that at `skip` left out.
pub open spec fn is_lightest(roots: Seq<Root>, at: int, skip: int) -> bool {
    forall|k: int|
        0 <= k < roots.len() && k != skip && k != at ==> lighter(roots[at], #[trigger] roots[k])
}

/// Whether the roots at `i` and `j` are the lightest and the next lightest.
pub open spec fn two_lightest(roots: Seq<Root>, i: int, j: int) -> bool {
    &&& 0 <= i < roots.len()
    &&& 0 <= j < roots.len()
    &&& i != j
    &&& is_lightest(roots, i, -1)
    &&& is_lightest(roots, j, i)
}

proof fn lemma_merge_keeps_wf(
    before: HuffmanTree,
    after: HuffmanTree,
    i: int,
    j: int,
    sum: Binary64,
)
    requires
        before.wf(),
        !sum.nan(),
        two_lightest(before.roots@, i, j),
        before.parent@.len() <= usize::MAX,
        after.symbols == before.symbols,
        ({
            let up = before.parent@.len() as usize;
            let a = before.roots@[i].1;
            let b = before.roots@[j].1;
            &&& after.roots@ == without_two(before.roots@, i, j).push((sum, up))
            &&& after.parent@ == before.parent@.update(a as int, up).update(b as int, up).push(up)
            &&& after.merges@ == before.merges@.push((a, b))
        }),
    ensures
        after.wf(),
{
    let r = before.roots@;
    let q = after.roots@;
    let p = before.parent@;
    let t = after.parent@;
    let up = p.len() as usize;
    let a = r[i].1;
    let b = r[j].1;
    let n = before.symbols;
    let lo = if i > j { j } else { i };
    let hi = if i > j { i } else { j };
    let old_at = |k: int| if k < lo { k } else if k + 1 < hi { k + 1 } else { k + 2 };
    assert(r[lo].1 < r[hi].1);
    assert(a != b);
    assert(q.len() == r.len() - 1);
    assert forall|k: int| 0 <= k < q.len() - 1 implies q[k] == #[trigger] r[old_at(k)] by {}
    assert forall|k: int| 0 <= k < q.len() implies {
        let root = #[trigger] q[k];
        root.1 < t.len() && t[root.1 as int] == root.1 && !root.0.nan()
    } by {
        if k < q.len() - 1 {
            let m = old_at(k);
            assert(q[k] == r[m]);
            assert(m != i && m != j);
            assert(r[m].1 != a) by {
                if m < i {
                    assert(r[m].1 < r[i].1);
                } else {
                    assert(r[i].1 < r[m].1);
                }
            }
            assert(r[m].1 != b) by {
                if m < j {
                    assert(r[m].1 < r[j].1);
                } else {
                    assert(r[j].1 < r[m].1);
                }
            }
        }
    }
    assert forall|x: int, y: int| 0 <= x < y < q.len() implies (#[trigger] q[x]).1 < (
    #[trigger] q[y]).1 by {
        assert(q[x] == r[old_at(x)]);
        if y < q.len() - 1 {
            assert(q[y] == r[old_at(y)]);
            assert(r[old_at(x)].1 < r[old_at(y)].1);
        } else {
            assert(r[old_at(x)].1 < p.len());
        }
    }
    assert forall|v: int| 0 <= v < t.len() && #[trigger] t[v] == v implies exists|k: int|
        0 <= k < q.len() && (#[trigger] q[k]).1 == v by {
        if v == up {
            assert(q[q.len() - 1].1 == v);
        } else {
            assert(v != a && v != b);
            assert(p[v] == v);
            let m = choose|m: int| 0 <= m < r.len() && (#[trigger] r[m]).1 == v;
            let k = if m < lo { m } else if m < hi { m - 1 } else { m - 2 };
            assert(old_at(k) == m);
            assert(q[k] == r[m]);
        }
    }
    assert forall|v: int| 0 <= v < t.len() implies v <= #[trigger] t[v] < t.len() by {
        if v < up {
            assert(v <= p[v] < p.len());
        }
    }
    assert forall|k: int| 0 <= k < after.merges@.len() implies {
        let m = #[trigger] after.merges@[k];
        m.0 != m.1 && m.0 < n + k && m.1 < n + k && t[m.0 as int] == n + k && t[m.1 as int] == n + k
    } by {
        if k < before.merges@.len() {
            let m = before.merges@[k];
            assert(p[m.0 as int] == n + k);
            assert(p[a as int] == a);
            assert(p[b as int] == b);
        }
    }
    assert forall|v: int| 0 <= v < t.len() && (#[trigger] t[v]) != v implies t[v] >= n && (
    after.merges@[t[v] - n].0 == v || after.merges@[t[v] - n].1 == v) by {
        if v != a && v != b {
            assert(p[v] != v);
        }
    }
}

/// Whether `parent` leads from each node to itself or to a later node.
spec fn upward(parent: Seq<usize>) -> bool {
    forall|v: int| 0 <= v < parent.len() ==> v <= #[trigger] parent[v] < parent.len()
}

/// Whether each node that is above itself is an open root.
spec fn roots_listed(parent: Seq<usize>, roots: Seq<Root>) -> bool {
    forall|v: int|
        0 <= v < parent.len() && #[trigger] parent[v] == v ==> exists|k: int|
            0 <= k < roots.len() && (#[trigger] roots[k]).1 == v
}

/// A root that stays open when two are joined is heavier than both.
proof fn lemma_open_is_heavier(p: Seq<usize>, r: Seq<Root>, i: int, j: int, u: int) -> (k: int)
    requires
        roots_listed(p, r),
        two_lightest(r, i, j),
        0 <= u < p.len(),
        p[u] == u,
        u != r[i].1,
        u != r[j].1,
    ensures
        0 <= k < r.len(),
        r[k].1 == u,
        lighter(r[i], r[k]),
        lighter(r[j], r[k]),
{
    let k = choose|k: int| 0 <= k < r.len() && (#[trigger] r[k]).1 == u;
    assert(k != i && k != j);
    k
}

/// Joining `a` and `b` leaves the order of absorption as it was, where what is
/// lighter than `a` or `b` is absorbed or is the other of the two.
proof fn lemma_absorbed_after(p: Seq<usize>, t: Seq<usize>, a: int, b: int, u: int, v: int)
    requires
        p.len() <= usize::MAX,
        0 <= a < p.len(),
        0 <= b < p.len(),
        0 <= u < p.len(),
        0 <= v < p.len(),
        upward(p),
        p[a] == a,
        p[b] == b,
        t == p.update(a, p.len() as usize).update(b, p.len() as usize).push(p.len() as usize),
        absorbed_first(p, u, v),
        (v == a || v == b) ==> (u == a || u == b || p[u] != u),
    ensures
        absorbed_first(t, u, v),
{
    assert(u <= p[u] < p.len());
    assert(v <= p[v] < p.len());
}

proof fn lemma_joined_in_order(
    p: Seq<usize>,
    t: Seq<usize>,
    r: Seq<Root>,
    n: int,
    i: int,
    j: int,
    u: int,
    v: int,
)
    requires
        p.len() <= usize::MAX,
        upward(p),
        roots_listed(p, r),
        two_lightest(r, i, j),
        forall|k: int| 0 <= k < r.len() ==> (#[trigger] r[k]).1 < p.len(),
        forall|x: int, y: int| 0 <= x < y < r.len() ==> (#[trigger] r[x]).1 < (#[trigger] r[y]).1,
        forall|x: int, y: int|
            0 <= x < y < r.len() && n <= (#[trigger] r[x]).1 && n <= (#[trigger] r[y]).1
                ==> r[x].0.key() <= r[y].0.key(),
        p[r[i].1 as int] == r[i].1,
        p[r[j].1 as int] == r[j].1,
        t == p.update(r[i].1 as int, p.len() as usize).update(
            r[j].1 as int,
            p.len() as usize,
        ).push(p.len() as usize),
        0 <= n <= u < v < t.len(),
        v < p.len() ==> absorbed_first(p, u, v),
    ensures
        absorbed_first(t, u, v),
{
    let a = r[i].1;
    let b = r[j].1;
    if v < p.len() {
        if (v == a || v == b) && u != a && u != b && p[u] == u {
            let k = lemma_open_is_heavier(p, r, i, j, u);
            let at = if v == a { i } else { j };
            assert(r[at].1 == v);
            if at < k {
                assert(r[at].1 < r[k].1);
            }
            assert(r[k].0.key() <= r[at].0.key());
        }
        lemma_absorbed_after(p, t, a as int, b as int, u, v);
    }
}

proof fn lemma_symbols_in_order(
    p: Seq<usize>,
    t: Seq<usize>,
    r: Seq<Root>,
    weights: Seq<Binary64>,
    i: int,
    j: int,
    u: int,
    v: int,
)
    requires
        p.len() <= usize::MAX,
        upward(p),
        roots_listed(p, r),
        two_lightest(r, i, j),
        forall|k: int| 0 <= k < r.len() ==> (#[trigger] r[k]).1 < p.len(),
        forall|k: int|
            0 <= k < r.len() && (#[trigger] r[k]).1 < weights.len() ==> r[k].0
                == weights[r[k].1 as int],
        p[r[i].1 as int] == r[i].1,
        p[r[j].1 as int] == r[j].1,
        t == p.update(r[i].1 as int, p.len() as usize).update(
            r[j].1 as int,
            p.len() as usize,
        ).push(p.len() as usize),
        weights.len() <= p.len(),
        0 <= u < weights.len(),
        0 <= v < weights.len(),
        lighter((weights[u], u as usize), (weights[v], v as usize)),
        absorbed_first(p, u, v),
    ensures
        absorbed_first(t, u, v),
{
    let a = r[i].1;
    let b = r[j].1;
    if (v == a || v == b) && u != a && u != b && p[u] == u {
        let k = lemma_open_is_heavier(p, r, i, j, u);
        let at = if v == a { i } else { j };
        assert(r[at].1 == v);
        assert(r[k].0 == weights[u]);
        assert(r[at].0 == weights[v]);
    }
    lemma_absorbed_after(p, t, a as int, b as int, u, v);
}

proof fn lemma_roots_in_order(
    r: Seq<Root>,
    weights: Seq<Binary64>,
    i: int,
    j: int,
    last: Root,
)
    requires
        two_lightest(r, i, j),
        last.1 >= weights.len(),
        forall|k: int|
            0 <= k < r.len() && (#[trigger] r[k]).1 < weights.len() ==> r[k].0
                == weights[r[k].1 as int],
        forall|x: int, y: int|
            0 <= x < y < r.len() && weights.len() <= (#[trigger] r[x]).1 && weights.len() <= (
            #[trigger] r[y]).1 ==> r[x].0.key() <= r[y].0.key(),
        forall|k: int|
            0 <= k < r.len() && weights.len() <= (#[trigger] r[k]).1 ==> r[k].0.key()
                <= last.0.key(),
    ensures
        ({
            let q = without_two(r, i, j).push(last);
            &&& forall|k: int|
                0 <= k < q.len() && (#[trigger] q[k]).1 < weights.len() ==> q[k].0
                    == weights[q[k].1 as int]
            &&& forall|x: int, y: int|
                0 <= x < y < q.len() && weights.len() <= (#[trigger] q[x]).1 && weights.len() <= (
                #[trigger] q[y]).1 ==> q[x].0.key() <= q[y].0.key()
        }),
{
    let q = without_two(r, i, j).push(last);
    let lo = if i > j { j } else { i };
    let hi = if i > j { i } else { j };
    let old_at = |k: int| if k < lo { k } else if k + 1 < hi { k + 1 } else { k + 2 };
    assert forall|k: int| 0 <= k < q.len() - 1 implies q[k] == #[trigger] r[old_at(k)] by {}
    assert forall|k: int| 0 <= k < q.len() && (#[trigger] q[k]).1 < weights.len() implies q[k].0
        == weights[q[k].1 as int] by {
        assert(k < q.len() - 1);
        assert(q[k] == r[old_at(k)]);
    }
    assert forall|x: int, y: int|
        0 <= x < y < q.len() && weights.len() <= (#[trigger] q[x]).1 && weights.len() <= (
        #[trigger] q[y]).1 implies q[x].0.key() <= q[y].0.key() by {
        assert(q[x] == r[old_at(x)]);
        if y < q.len() - 1 {
            assert(q[y] == r[old_at(y)]);
        }
    }
}

proof fn lemma_merge_keeps_order(
    before: HuffmanTree,
    after: HuffmanTree,
    i: int,
    j: int,
    sum: Binary64,
    weights: Seq<Binary64>,
)
    requires
        before.wf(),
        after.symbols == before.symbols,
        before.parent@.len() <= usize::MAX,
        joins(before, i, j, sum, after),
        light_first(before, weights),
        no_lighter(before, sum),
    ensures
        light_first(after, weights),
{
    let r = before.roots@;
    let p = before.parent@;
    let t = after.parent@;
    let n = before.symbols as int;
    assert(upward(p));
    assert(roots_listed(p, r));
    assert(p[r[i].1 as int] == r[i].1);
    assert(p[r[j].1 as int] == r[j].1);
    lemma_roots_in_order(r, weights, i, j, (sum, p.len() as usize));
    assert forall|u: int, v: int| n <= u < v < t.len() implies #[trigger] absorbed_first(
        t,
        u,
        v,
    ) by {
        if v < p.len() {
            assert(absorbed_first(before.parents(), u, v));
        }
        lemma_joined_in_order(p, t, r, n, i, j, u, v);
    }
    assert forall|u: int, v: int|
        0 <= u < n && 0 <= v < n && lighter(
            (weights[u], u as usize),
            (weights[v], v as usize),
        ) implies #[trigger] absorbed_first(t, u, v) by {
        assert(absorbed_first(before.parents(), u, v));
        lemma_symbols_in_order(p, t, r, weights, i, j, u, v);
    }
}

/// A node absorbed no earlier lies no deeper.
proof fn lemma_later_is_no_deeper(p: Seq<usize>, n: int, x: int, y: int)
    requires
        upward(p),
        forall|v: int| 0 <= v < p.len() && (#[trigger] p[v]) != v ==> p[v] >= n,
        forall|u: int, v: int| n <= u < v < p.len() ==> #[trigger] absorbed_first(p, u, v),
        0 <= x < p.len(),
        0 <= y < p.len(),
        p[x] != x,
        p[y] != y,
        p[x] <= p[y],
    ensures
        depth(p, y) <= depth(p, x),
    decreases p.len() - x,
{
    let px = p[x] as int;
    let py = p[y] as int;
    assert(x < px < p.len());
    assert(y < py < p.len());
    if px != py {
        if p[py] == py {
            assert(depth(p, py) == 0);
        } else {
            assert(absorbed_first(p, px, py));
            lemma_later_is_no_deeper(p, n, px, py);
        }
    }
}

/// A heavier symbol gets no longer a codeword: of two symbols of a finished tree
/// whose nodes were absorbed the lightest first, the heavier lies no deeper.
pub proof fn heavier_symbols_are_no_deeper(
    tree: HuffmanTree,
    weights: Seq<Binary64>,
    light: int,
    heavy: int,
)
    requires
        tree.wf(),
        tree.open_roots().len() == 1,
        light_first(tree, weights),
        0 <= light < tree.alphabet(),
        0 <= heavy < tree.alphabet(),
        weights[light].key() < weights[heavy].key(),
    ensures
        depth(tree.parents(), heavy) <= depth(tree.parents(), light),
{
    lemma_last_is_root(tree);
    if tree.symbols >= 2 {
        let p = tree.parents();
        assert(p[heavy] != heavy);
        assert(lighter((weights[light], light as usize), (weights[heavy], heavy as usize)));
        assert(absorbed_first(p, light, heavy));
        lemma_later_is_no_deeper(p, tree.symbols as int, light, heavy);
    }
}

// ------------------------------------------------------------ optimality

/// Whether a reading of weights as integers keeps their order.
pub open spec fn keeps_order(value: spec_fn(Binary64) -> nat) -> bool {
    forall|a: Binary64, b: Binary64|
        a.key() <= b.key() ==> #[trigger] value(a) <= #[trigger] value(b)
}

/// Whether `sum` is read as the sum of the two lightest roots.
pub open spec fn sums_exactly(
    value: spec_fn(Binary64) -> nat,
    tree: HuffmanTree,
    sum: Binary64,
) -> bool {
    forall|i: int, j: int| #[trigger]
        two_lightest(tree.open_roots(), i, j) ==> value(sum) == value(tree.open_roots()[i].0)
            + value(tree.open_roots()[j].0)
}

/// Whether `after` is `before` with its two lightest roots joined under `sum`.
pub open spec fn merged(before: HuffmanTree, sum: Binary64, after: HuffmanTree) -> bool {
    &&& before.wf()
    &&& after.wf()
    &&& after.alphabet() == before.alphabet()
    &&& exists|i: int, j: int| #[trigger] joins(before, i, j, sum, after)
}

/// Whether `states` are the states of a tree from its start over `weights` on, each
/// the one before it with a merge under the next of `sums`.
pub open spec fn grown(
    states: Seq<HuffmanTree>,
    sums: Seq<Binary64>,
    weights: Seq<Binary64>,
) -> bool {
    &&& states.len() == sums.len() + 1
    &&& states[0].wf()
    &&& states[0].alphabet() == weights.len()
    &&& states[0].parents() == Seq::new(weights.len(), |i: int| i as usize)
    &&& states[0].open_roots() == Seq::new(weights.len(), |i: int| (weights[i], i as usize))
    &&& forall|k: int|
        0 <= k < sums.len() ==> merged(states[k], #[trigger] sums[k], states[k + 1])
}

/// The weights as integers.
pub open spec fn values(weights: Seq<Binary64>, value: spec_fn(Binary64) -> nat) -> Seq<nat> {
    Seq::new(weights.len(), |s: int| value(weights[s]))
}

/// The depths of the symbols.
pub open spec fn depths(tree: HuffmanTree) -> Seq<nat> {
    Seq::new(tree.alphabet(), |s: int| depth(tree.parents(), s))
}

/// The sums from merge `k` on.
spec fn remaining(sums: Seq<Binary64>, value: spec_fn(Binary64) -> nat, k: int) -> nat
    decreases sums.len() - k,
{
    if k >= sums.len() {
        0
    } else {
        value(sums[k]) + remaining(sums, value, k + 1)
    }
}

/// Lengths for the open roots that fit in a code space cost at least the sums of
/// the merges to come.
proof fn lemma_merges_are_cheapest(
    states: Seq<HuffmanTree>,
    sums: Seq<Binary64>,
    weights: Seq<Binary64>,
    value: spec_fn(Binary64) -> nat,
    k: int,
    s: Seq<Coded>,
    whole: nat,
)
    requires
        keeps_order(value),
        grown(states, sums, weights),
        forall|k: int| 0 <= k < sums.len() ==> sums_exactly(value, states[k], #[trigger] sums[k]),
        0 <= k <= sums.len(),
        s.len() == states[k].open_roots().len(),
        forall|m: int|
            0 <= m < s.len() ==> (#[trigger] s[m]).0 == value(states[k].open_roots()[m].0),
        fits(s, whole),
    ensures
        remaining(sums, value, k) <= cost(s),
    decreases sums.len() - k, whole,
{
    if k < sums.len() {
        let roots = states[k].open_roots();
        let sum = sums[k];
        assert(merged(states[k], sum, states[k + 1]));
        assert(sums_exactly(value, states[k], sum));
        let (i, j) = choose|i: int, j: int| #[trigger] joins(states[k], i, j, sum, states[k + 1]);
        assert(two_lightest(roots, i, j));
        if whole == 0 {
            lemma_smallest_space(s);
        } else if forall|m: int| 0 <= m < s.len() ==> (#[trigger] s[m]).1 != whole {
            lemma_none_longest(s, whole);
            lemma_merges_are_cheapest(
                states,
                sums,
                weights,
                value,
                k,
                s,
                (whole - 1) as nat,
            );
        } else {
            let x = choose|x: int| 0 <= x < s.len() && (#[trigger] s[x]).1 == whole;
            if forall|m: int| 0 <= m < s.len() && m != x ==> (#[trigger] s[m]).1 != whole {
                lemma_one_longest(s, whole, x);
                let t = s.update(x, (s[x].0, (whole - 1) as nat));
                assert forall|m: int| 0 <= m < t.len() implies (#[trigger] t[m]).0 == value(
                    roots[m].0,
                ) by {
                    assert(s[m].0 == t[m].0);
                }
                lemma_merges_are_cheapest(
                    states,
                    sums,
                    weights,
                    value,
                    k,
                    t,
                    (whole - 1) as nat,
                );
            } else {
                let y = choose|y: int| 0 <= y < s.len() && y != x && (#[trigger] s[y]).1 == whole;
                lemma_lightest_is_least(s, roots, value, i, j);
                let t = lemma_two_longest(s, whole, i, j, x, y);
                lemma_joined(t, whole, i, j);
                assert(s[i].0 == t[i].0 && s[j].0 == t[j].0);
                let u = without_two(t, i, j).push((t[i].0 + t[j].0, (whole - 1) as nat));
                let next = states[k + 1].open_roots();
                assert(next.drop_last() =~= without_two(roots, i, j));
                assert(u.drop_last() =~= without_two(t, i, j));
                lemma_joined_weights(s, t, u, roots, value, i, j, sum, next);
                lemma_merges_are_cheapest(states, sums, weights, value, k + 1, u, whole);
            }
        }
    }
}

/// The two lightest roots are read as the two least integers.
proof fn lemma_lightest_is_least(
    s: Seq<Coded>,
    roots: Seq<Root>,
    value: spec_fn(Binary64) -> nat,
    i: int,
    j: int,
)
    requires
        keeps_order(value),
        two_lightest(roots, i, j),
        s.len() == roots.len(),
        forall|m: int| 0 <= m < s.len() ==> (#[trigger] s[m]).0 == value(roots[m].0),
    ensures
        forall|m: int| 0 <= m < s.len() ==> s[i].0 <= (#[trigger] s[m]).0,
        forall|m: int| 0 <= m < s.len() && m != i ==> s[j].0 <= (#[trigger] s[m]).0,
{
    assert forall|m: int| 0 <= m < s.len() implies s[i].0 <= (#[trigger] s[m]).0 by {
        if m != i {
            assert(lighter(roots[i], roots[m]));
            assert(value(roots[i].0) <= value(roots[m].0));
        }
    }
    assert forall|m: int| 0 <= m < s.len() && m != i implies s[j].0 <= (#[trigger] s[m]).0 by {
        if m != j {
            assert(lighter(roots[j], roots[m]));
            assert(value(roots[j].0) <= value(roots[m].0));
        }
    }
}

/// Joining two of the symbols, as two of the roots are joined, keeps the weights
/// the values of the roots.
proof fn lemma_joined_weights(
    s: Seq<Coded>,
    t: Seq<Coded>,
    u: Seq<Coded>,
    roots: Seq<Root>,
    value: spec_fn(Binary64) -> nat,
    i: int,
    j: int,
    sum: Binary64,
    next: Seq<Root>,
)
    requires
        two_lightest(roots, i, j),
        s.len() == roots.len(),
        same_weights(s, t),
        forall|m: int| 0 <= m < s.len() ==> (#[trigger] s[m]).0 == value(roots[m].0),
        value(sum) == value(roots[i].0) + value(roots[j].0),
        next.len() == roots.len() - 1,
        next.drop_last() == without_two(roots, i, j),
        next.last().0 == sum,
        u.drop_last() == without_two(t, i, j),
        u.len() == next.len(),
        u.last().0 == t[i].0 + t[j].0,
    ensures
        forall|m: int| 0 <= m < u.len() ==> (#[trigger] u[m]).0 == value(next[m].0),
{
    let lo = if i > j { j } else { i };
    let hi = if i > j { i } else { j };
    assert(s[i].0 == t[i].0 && s[j].0 == t[j].0);
    assert forall|m: int| 0 <= m < u.len() implies (#[trigger] u[m]).0 == value(next[m].0) by {
        if m < u.len() - 1 {
            let at = if m < lo { m } else if m + 1 < hi { m + 1 } else { m + 2 };
            assert(u[m] == u.drop_last()[m]);
            assert(next[m] == next.drop_last()[m]);
            assert(u.drop_last()[m] == t[at]);
            assert(next.drop_last()[m] == roots[at]);
            assert(s[at].0 == t[at].0);
        } else {
            assert(u[m] == u.last());
            assert(next[m] == next.last());
        }
    }
}

/// The root above node `v`.
spec fn top(parent: Seq<usize>, v: int) -> int
    decreases parent.len() - v,
{
    if 0 <= v < parent.len() && v < parent[v] < parent.len() {
        top(parent, parent[v] as int)
    } else {
        v
    }
}

/// The weights of the first `upto` symbols below root `v`.
spec fn below(w: Seq<nat>, parent: Seq<usize>, v: int, upto: int) -> nat
    decreases upto,
{
    if upto <= 0 {
        0
    } else {
        below(w, parent, v, upto - 1) + if top(parent, upto - 1) == v {
            w[upto - 1]
        } else {
            0nat
        }
    }
}

/// The weights of the first `upto` symbols, each times its depth.
spec fn lifted(w: Seq<nat>, parent: Seq<usize>, upto: int) -> nat
    decreases upto,
{
    if upto <= 0 {
        0
    } else {
        lifted(w, parent, upto - 1) + w[upto - 1] * depth(parent, upto - 1)
    }
}

/// Whether `t` is `p` with the roots `a` and `b` joined under a new last node.
spec fn joined_parents(p: Seq<usize>, t: Seq<usize>, a: int, b: int) -> bool {
    &&& p.len() <= usize::MAX
    &&& upward(p)
    &&& 0 <= a < p.len()
    &&& 0 <= b < p.len()
    &&& a != b
    &&& p[a] == a
    &&& p[b] == b
    &&& t == p.update(a, p.len() as usize).update(b, p.len() as usize).push(p.len() as usize)
}

/// Joining two roots puts what is below them one level down.
proof fn lemma_climb(p: Seq<usize>, t: Seq<usize>, a: int, b: int, v: int)
    requires
        joined_parents(p, t, a, b),
        0 <= v < p.len(),
    ensures
        0 <= top(p, v) < p.len(),
        top(p, v) == a || top(p, v) == b ==> {
            &&& top(t, v) == p.len()
            &&& depth(t, v) == depth(p, v) + 1
        },
        top(p, v) != a && top(p, v) != b ==> {
            &&& top(t, v) == top(p, v)
            &&& depth(t, v) == depth(p, v)
        },
    decreases p.len() - v,
{
    let up = p.len() as int;
    assert(v <= p[v] < p.len());
    assert(t[up] == up);
    assert(depth(t, up) == 0 && top(t, up) == up);
    if p[v] == v {
        if v == a || v == b {
            assert(t[v] == up);
        } else {
            assert(t[v] == v);
        }
    } else {
        assert(t[v] == p[v]);
        lemma_climb(p, t, a, b, p[v] as int);
    }
}

proof fn lemma_below_joined(
    w: Seq<nat>,
    p: Seq<usize>,
    t: Seq<usize>,
    a: int,
    b: int,
    upto: int,
)
    requires
        joined_parents(p, t, a, b),
        0 <= upto <= p.len(),
    ensures
        below(w, t, p.len() as int, upto) == below(w, p, a, upto) + below(w, p, b, upto),
        forall|c: int|
            0 <= c < p.len() && c != a && c != b ==> #[trigger] below(w, t, c, upto) == below(
                w,
                p,
                c,
                upto,
            ),
        lifted(w, t, upto) == lifted(w, p, upto) + below(w, p, a, upto) + below(w, p, b, upto),
    decreases upto,
{
    if upto > 0 {
        let v = upto - 1;
        lemma_below_joined(w, p, t, a, b, v);
        lemma_climb(p, t, a, b, v);
        let (x, d) = (w[v] as int, depth(p, v) as int);
        assert(x * (d + 1) == x * d + x) by (nonlinear_arith);
        assert forall|c: int| 0 <= c < p.len() && c != a && c != b implies #[trigger] below(
            w,
            t,
            c,
            upto,
        ) == below(w, p, c, upto) by {
            assert(below(w, t, c, v) == below(w, p, c, v));
        }
    }
}

/// Whether each open root is read as the weights of the symbols below it.
spec fn balanced(tree: HuffmanTree, w: Seq<nat>, value: spec_fn(Binary64) -> nat) -> bool {
    forall|m: int|
        0 <= m < tree.open_roots().len() ==> value((#[trigger] tree.open_roots()[m]).0) == below(
            w,
            tree.parents(),
            tree.open_roots()[m].1 as int,
            tree.alphabet() as int,
        )
}

/// A merge lifts the weighted depths by its sum.
proof fn lemma_merge_lifts(
    before: HuffmanTree,
    after: HuffmanTree,
    i: int,
    j: int,
    sum: Binary64,
    w: Seq<nat>,
    value: spec_fn(Binary64) -> nat,
)
    requires
        before.wf(),
        after.wf(),
        after.alphabet() == before.alphabet(),
        joins(before, i, j, sum, after),
        sums_exactly(value, before, sum),
        balanced(before, w, value),
    ensures
        balanced(after, w, value),
        lifted(w, after.parents(), after.alphabet() as int) == lifted(
            w,
            before.parents(),
            before.alphabet() as int,
        ) + value(sum),
{
    let r = before.open_roots();
    let q = after.open_roots();
    let p = before.parents();
    let t = after.parents();
    let n = before.alphabet() as int;
    let a = r[i].1 as int;
    let b = r[j].1 as int;
    assert(before.parent.len() == p.len());
    assert(upward(p));
    assert(a != b) by {
        if i < j {
            assert(r[i].1 < r[j].1);
        } else {
            assert(r[j].1 < r[i].1);
        }
    }
    assert(joined_parents(p, t, a, b));
    assert(two_lightest(r, i, j));
    lemma_below_joined(w, p, t, a, b, n);
    assert(value(r[i].0) == below(w, p, a, n));
    assert(value(r[j].0) == below(w, p, b, n));
    let lo = if i > j { j } else { i };
    let hi = if i > j { i } else { j };
    assert forall|m: int| 0 <= m < q.len() implies value((#[trigger] q[m]).0) == below(
        w,
        t,
        q[m].1 as int,
        n,
    ) by {
        if m < q.len() - 1 {
            let at = if m < lo { m } else if m + 1 < hi { m + 1 } else { m + 2 };
            assert(q[m] == r[at]);
            assert(at != i && at != j);
            assert(r[at].1 != a) by {
                if at < i {
                    assert(r[at].1 < r[i].1);
                } else {
                    assert(r[i].1 < r[at].1);
                }
            }
            assert(r[at].1 != b) by {
                if at < j {
                    assert(r[at].1 < r[j].1);
                } else {
                    assert(r[j].1 < r[at].1);
                }
            }
            assert(value(r[at].0) == below(w, p, r[at].1 as int, n));
            assert(r[at].1 < p.len());
            assert(below(w, t, r[at].1 as int, n) == below(w, p, r[at].1 as int, n));
        }
    }
}

/// Before any merge every symbol is its own root.
proof fn lemma_start_below(w: Seq<nat>, p: Seq<usize>, v: int, upto: int)
    requires
        0 <= upto <= p.len(),
        0 <= v < p.len(),
        forall|s: int| 0 <= s < p.len() ==> #[trigger] p[s] == s,
    ensures
        below(w, p, v, upto) == (if v < upto {
            w[v]
        } else {
            0nat
        }),
        lifted(w, p, upto) == 0,
    decreases upto,
{
    if upto > 0 {
        lemma_start_below(w, p, v, upto - 1);
        assert(p[upto - 1] == upto - 1);
        assert(w[upto - 1] * 0 == 0) by (nonlinear_arith);
    }
}

/// The weighted depths are the sums of the merges made.
proof fn lemma_lifted_by_sums(
    states: Seq<HuffmanTree>,
    sums: Seq<Binary64>,
    weights: Seq<Binary64>,
    value: spec_fn(Binary64) -> nat,
    k: int,
)
    requires
        grown(states, sums, weights),
        forall|k: int| 0 <= k < sums.len() ==> sums_exactly(value, states[k], #[trigger] sums[k]),
        0 <= k <= sums.len(),
    ensures
        states[k].wf(),
        states[k].alphabet() == weights.len(),
        balanced(states[k], values(weights, value), value),
        lifted(values(weights, value), states[k].parents(), weights.len() as int) + remaining(
            sums,
            value,
            k,
        ) == remaining(sums, value, 0),
    decreases k,
{
    let w = values(weights, value);
    if k == 0 {
        let p = states[0].parents();
        let r = states[0].open_roots();
        assert(states[0].parent.len() == p.len());
        assert forall|m: int| 0 <= m < r.len() implies value((#[trigger] r[m]).0) == below(
            w,
            p,
            r[m].1 as int,
            weights.len() as int,
        ) by {
            lemma_start_below(w, p, m, weights.len() as int);
        }
        lemma_start_below(w, p, 0, weights.len() as int);
    } else {
        let before = states[k - 1];
        let after = states[k];
        let sum = sums[k - 1];
        lemma_lifted_by_sums(states, sums, weights, value, k - 1);
        assert(merged(before, sum, states[k - 1 + 1]));
        assert(sums_exactly(value, before, sum));
        let (i, j) = choose|i: int, j: int| #[trigger] joins(before, i, j, sum, after);
        lemma_merge_lifts(before, after, i, j, sum, w, value);
    }
}

/// The weighted depths are what the depths cost as lengths.
proof fn lemma_lifted_is_cost(w: Seq<nat>, parent: Seq<usize>, s: Seq<Coded>)
    requires
        s.len() <= w.len(),
        forall|k: int| 0 <= k < s.len() ==> #[trigger] s[k] == (w[k], depth(parent, k)),
    ensures
        cost(s) == lifted(w, parent, s.len() as int),
    decreases s.len(),
{
    if s.len() > 0 {
        let init = s.drop_last();
        assert forall|k: int| 0 <= k < init.len() implies #[trigger] init[k] == (
            w[k],
            depth(parent, k),
        ) by {
            assert(init[k] == s[k]);
        }
        lemma_lifted_is_cost(w, parent, init);
        assert(s[s.len() - 1] == (w[s.len() - 1], depth(parent, s.len() - 1)));
    }
}

/// A finished tree gives an optimal prefix code: where weights are read as integers
/// in their order, and every sum is exact, no lengths that fit in a code space cost
/// less than the depths of the symbols.
pub proof fn finished_tree_is_optimal(
    states: Seq<HuffmanTree>,
    sums: Seq<Binary64>,
    weights: Seq<Binary64>,
    value: spec_fn(Binary64) -> nat,
    lens: Seq<nat>,
    whole: nat,
)
    requires
        keeps_order(value),
        grown(states, sums, weights),
        forall|k: int| 0 <= k < sums.len() ==> sums_exactly(value, states[k], #[trigger] sums[k]),
        states.last().open_roots().len() == 1,
        lens.len() == weights.len(),
        fits(coded(values(weights, value), lens), whole),
    ensures
        cost(coded(values(weights, value), depths(states.last()))) <= cost(
            coded(values(weights, value), lens),
        ),
{
    let w = values(weights, value);
    let s = coded(w, lens);
    let last = states.last();
    lemma_merges_are_cheapest(states, sums, weights, value, 0, s, whole);
    lemma_lifted_by_sums(states, sums, weights, value, sums.len() as int);
    let d = coded(w, depths(last));
    lemma_lifted_is_cost(w, last.parents(), d);
}

/// Code lengths as integers.
pub open spec fn lengths_of(lens: Seq<u8>) -> Seq<nat> {
    Seq::new(lens.len(), |s: int| lens[s] as nat)
}

/// The share of the code space that lengths take, counted over weighted symbols.
proof fn lemma_room_is_space(lens: Seq<u8>, s: Seq<Coded>)
    requires
        s.len() == lens.len(),
        forall|k: int| 0 <= k < lens.len() ==> (#[trigger] s[k]).1 == lens[k],
        forall|k: int| 0 <= k < lens.len() ==> length_ok(#[trigger] lens[k]),
    ensures
        room(s, 64) == space(lens),
    decreases lens.len(),
{
    if lens.len() > 0 {
        let init = lens.drop_last();
        let front = s.drop_last();
        assert forall|k: int| 0 <= k < init.len() implies (#[trigger] front[k]).1 == init[k] by {
            assert(front[k] == s[k]);
        }
        assert forall|k: int| 0 <= k < init.len() implies length_ok(#[trigger] init[k]) by {
            assert(init[k] == lens[k]);
        }
        lemma_room_is_space(init, front);
        assert(length_ok(lens[lens.len() - 1]));
        assert(s[lens.len() - 1].1 == lens[lens.len() - 1]);
    }
}

/// The code of a finished tree is an optimal prefix code: under the same reading of
/// weights, no prefix code over the alphabet costs less.
pub proof fn finished_code_is_optimal(
    states: Seq<HuffmanTree>,
    sums: Seq<Binary64>,
    weights: Seq<Binary64>,
    value: spec_fn(Binary64) -> nat,
    code: Seq<u8>,
    other: Seq<u8>,
)
    requires
        keeps_order(value),
        grown(states, sums, weights),
        forall|k: int| 0 <= k < sums.len() ==> sums_exactly(value, states[k], #[trigger] sums[k]),
        states.last().open_roots().len() == 1,
        has_depths(states.last(), code),
        other.len() == weights.len(),
        lengths_ok(other),
        is_prefix_code(other),
    ensures
        cost(coded(values(weights, value), lengths_of(code))) <= cost(
            coded(values(weights, value), lengths_of(other)),
        ),
{
    let w = values(weights, value);
    let last = states.last();
    let s = coded(w, lengths_of(other));
    assert forall|k: int| 0 <= k < other.len() implies (#[trigger] s[k]).1 <= 64 by {
        assert(length_ok(other[k]));
    }
    lemma_lifted_by_sums(states, sums, weights, value, sums.len() as int);
    if weights.len() == 1 {
        let c = coded(w, lengths_of(code));
        assert(length_ok(other[0]));
        assert(c.drop_last() =~= Seq::<Coded>::empty());
        assert(s.drop_last() =~= Seq::<Coded>::empty());
        let (x, l) = (w[0] as int, other[0] as int);
        assert(x * 1 <= x * l) by (nonlinear_arith)
            requires
                x >= 0,
                l >= 1,
        ;
    } else {
        lemma_room_is_space(other, s);
        finished_tree_is_optimal(states, sums, weights, value, lengths_of(other), 64);
        assert(lengths_of(code) =~= depths(last));
    }
}

/// The single root of a finished tree is its last node.
proof fn lemma_last_is_root(tree: HuffmanTree)
    requires
        tree.wf(),
        tree.roots@.len() == 1,
    ensures
        tree.parent@.len() == 2 * tree.symbols - 1,
        forall|v: int|
            0 <= v < tree.parent@.len() ==> (#[trigger] tree.parent@[v] == v) == (v
                == tree.parent@.len() - 1),
{
    let p = tree.parent@;
    let last = p.len() - 1;
    assert(p[last] == last);
    let i = choose|i: int| 0 <= i < tree.roots@.len() && (#[trigger] tree.roots@[i]).1 == last;
    assert forall|v: int| 0 <= v < p.len() && #[trigger] p[v] == v implies v == last by {
        let k = choose|k: int| 0 <= k < tree.roots@.len() && (#[trigger] tree.roots@[k]).1 == v;
        assert(k == i);
    }
}

proof fn lemma_leaf_has_parent(tree: HuffmanTree, s: int)
    requires
        tree.wf(),
        tree.roots@.len() == 1,
        tree.symbols >= 2,
        0 <= s < tree.symbols,
    ensures
        depth(tree.parent@, s) >= 1,
{
    lemma_last_is_root(tree);
    assert(tree.parent@[s] != s);
    assert(s <= tree.parent@[s] < tree.parent@.len());
}

proof fn lemma_depth_bound(parent: Seq<usize>, v: int)
    requires
        0 <= v <= parent.len(),
    ensures
        depth(parent, v) <= parent.len() - v,
    decreases parent.len() - v,
{
    if 0 <= v < parent.len() && v < parent[v] < parent.len() {
        lemma_depth_bound(parent, parent[v] as int);
    }
}

/// The share of the code space below node `v`, where the whole space has size
/// two to `whole`.
spec fn share(parent: Seq<usize>, whole: nat, v: int) -> nat {
    pow2((whole - depth(parent, v)) as nat)
}

/// The shares of the nodes below `upto` that no node below `bound` absorbs.
spec fn frontier(parent: Seq<usize>, whole: nat, bound: int, upto: int) -> nat
    decreases upto,
{
    if upto <= 0 {
        0
    } else {
        frontier(parent, whole, bound, upto - 1) + if parent[upto - 1] == upto - 1 || parent[upto
            - 1] >= bound {
            share(parent, whole, upto - 1)
        } else {
            0nat
        }
    }
}

/// The shares of the children of node `b` below `upto`.
spec fn children(parent: Seq<usize>, whole: nat, b: int, upto: int) -> nat
    decreases upto,
{
    if upto <= 0 {
        0
    } else {
        children(parent, whole, b, upto - 1) + if parent[upto - 1] == b {
            share(parent, whole, upto - 1)
        } else {
            0nat
        }
    }
}

proof fn lemma_frontier_split(parent: Seq<usize>, whole: nat, b: int, upto: int)
    requires
        0 <= upto <= b,
        upto <= parent.len(),
    ensures
        frontier(parent, whole, b, upto) == frontier(parent, whole, b + 1, upto) + children(
            parent,
            whole,
            b,
            upto,
        ),
    decreases upto,
{
    if upto > 0 {
        lemma_frontier_split(parent, whole, b, upto - 1);
    }
}

proof fn lemma_children(tree: HuffmanTree, whole: nat, k: int, upto: int)
    requires
        tree.wf(),
        0 <= k < tree.merges@.len(),
        0 <= upto <= tree.symbols + k,
    ensures
        children(tree.parent@, whole, tree.symbols + k, upto) == (if tree.merges@[k].0 < upto {
            share(tree.parent@, whole, tree.merges@[k].0 as int)
        } else {
            0nat
        }) + (if tree.merges@[k].1 < upto {
            share(tree.parent@, whole, tree.merges@[k].1 as int)
        } else {
            0nat
        }),
    decreases upto,
{
    if upto > 0 {
        lemma_children(tree, whole, k, upto - 1);
        let v = upto - 1;
        let m = tree.merges@[k];
        assert(tree.parent@[m.0 as int] == tree.symbols + k);
        assert(tree.parent@[m.1 as int] == tree.symbols + k);
        if tree.parent@[v] == tree.symbols + k {
            assert(tree.parent@[v] != v);
            assert(m.0 == v || m.1 == v);
        }
    }
}

proof fn lemma_frontier_step(tree: HuffmanTree, whole: nat, k: int)
    requires
        tree.wf(),
        0 <= k < tree.merges@.len(),
        whole >= tree.parent@.len(),
    ensures
        frontier(tree.parent@, whole, tree.symbols + k + 1, tree.symbols + k + 1) == frontier(
            tree.parent@,
            whole,
            tree.symbols + k,
            tree.symbols + k,
        ),
{
    let p = tree.parent@;
    let b = tree.symbols + k;
    let m = tree.merges@[k];
    lemma_frontier_split(p, whole, b, b);
    lemma_children(tree, whole, k, b);
    assert(b <= p[b]);
    assert(p[m.0 as int] == b);
    assert(p[m.1 as int] == b);
    assert(depth(p, m.0 as int) == 1 + depth(p, b));
    assert(depth(p, m.1 as int) == 1 + depth(p, b));
    lemma_depth_bound(p, b);
    lemma_depth_bound(p, m.0 as int);
    lemma_pow2_unfold((whole - depth(p, b)) as nat);
}

proof fn lemma_frontier_of_root(tree: HuffmanTree, whole: nat, upto: int)
    requires
        tree.wf(),
        tree.roots@.len() == 1,
        0 <= upto < tree.parent@.len(),
    ensures
        frontier(tree.parent@, whole, tree.parent@.len() as int, upto) == 0,
    decreases upto,
{
    if upto > 0 {
        lemma_frontier_of_root(tree, whole, upto - 1);
        lemma_last_is_root(tree);
        assert(tree.parent@[upto - 1] != upto - 1);
        assert(tree.parent@[upto - 1] < tree.parent@.len());
    }
}

proof fn lemma_frontier_constant(tree: HuffmanTree, whole: nat, k: int)
    requires
        tree.wf(),
        tree.roots@.len() == 1,
        0 <= k <= tree.merges@.len(),
        whole >= tree.parent@.len(),
    ensures
        frontier(tree.parent@, whole, tree.symbols + k, tree.symbols + k) == pow2(whole),
    decreases tree.merges@.len() - k,
{
    if k == tree.merges@.len() {
        let p = tree.parent@;
        lemma_last_is_root(tree);
        lemma_frontier_of_root(tree, whole, p.len() - 1);
        assert(p[p.len() - 1] == p.len() - 1);
        assert(depth(p, p.len() - 1) == 0);
    } else {
        lemma_frontier_constant(tree, whole, k + 1);
        lemma_frontier_step(tree, whole, k);
    }
}

proof fn lemma_leaves_space(tree: HuffmanTree, lens: Seq<u8>, upto: int)
    requires
        tree.wf(),
        tree.roots@.len() == 1,
        tree.symbols >= 2,
        lens.len() == tree.symbols,
        forall|k: int| 0 <= k < lens.len() ==> #[trigger] lens[k] == depth(tree.parent@, k),
        forall|k: int| 0 <= k < lens.len() ==> #[trigger] lens[k] <= 64,
        0 <= upto <= tree.symbols,
    ensures
        frontier(tree.parent@, tree.parent@.len() + 64, tree.symbols as int, upto) == pow2(
            tree.parent@.len(),
        ) * space(lens.take(upto)),
    decreases upto,
{
    let big = pow2(tree.parent@.len()) as int;
    if upto == 0 {
        assert(lens.take(0) =~= Seq::<u8>::empty());
        assert(big * 0 == 0) by (nonlinear_arith);
    } else {
        lemma_leaves_space(tree, lens, upto - 1);
        let v = upto - 1;
        lemma_last_is_root(tree);
        assert(tree.parent@[v] != v);
        assert(tree.parent@[v] >= tree.symbols);
        assert(lens.take(upto).drop_last() =~= lens.take(v));
        assert(lens[v] == depth(tree.parent@, v));
        lemma_pow2_adds(tree.parent@.len(), (64 - lens[v]) as nat);
        let x = space(lens.take(v)) as int;
        let y = pow2((64 - lens[v]) as nat) as int;
        assert(big * (x + y) == big * x + big * y) by (nonlinear_arith);
    }
}

/// The depths of the symbols of a finished tree fill the code space.
proof fn lemma_tree_fills_space(tree: HuffmanTree, lens: Seq<u8>)
    requires
        tree.wf(),
        tree.roots@.len() == 1,
        tree.symbols >= 2,
        lens.len() == tree.symbols,
        forall|k: int| 0 <= k < lens.len() ==> #[trigger] lens[k] == depth(tree.parent@, k),
        forall|k: int| 0 <= k < lens.len() ==> #[trigger] lens[k] <= 64,
    ensures
        space(lens) == pow2(64),
{
    let n = tree.parent@.len();
    lemma_frontier_constant(tree, n + 64, 0);
    lemma_leaves_space(tree, lens, tree.symbols as int);
    assert(lens.take(tree.symbols as int) =~= lens);
    lemma_pow2_adds(n, 64);
    lemma_pow2_pos(n);
    let big = pow2(n) as int;
    let x = space(lens) as int;
    let y = pow2(64) as int;
    assert(x == y) by (nonlinear_arith)
        requires
            big * x == big * y,
            big > 0,
    ;
}

/// Roots are taken in one order: a lighter one first, and of two of one weight the one with
/// the smaller number. Of two different nodes one comes first.
pub proof fn roots_are_taken_in_one_order(a: Root, b: Root, c: Root)
    ensures
        a.0.key() < b.0.key() ==> lighter(a, b),
        a.0 == b.0 ==> (lighter(a, b) <==> a.1 < b.1),
        a.1 != b.1 ==> lighter(a, b) || lighter(b, a),
        !(lighter(a, b) && lighter(b, a)),
        lighter(a, b) && lighter(b, c) ==> lighter(a, c),
{
}

/// Zero and every positive finite number is a weight; a negative number, an infinity and
/// what is no number is not.
pub proof fn weights_are_finite_and_not_negative(w: Binary64)
    ensures
        weight_ok(w) <==> w.bits < 0x7FF0_0000_0000_0000 || w.bits == 0x8000_0000_0000_0000,
{
}

} // verus!

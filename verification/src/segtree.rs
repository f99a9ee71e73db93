//! Array-backed segment tree over a caller-supplied monoid: point update and
//! range query, both against a sequence-of-leaves model.

use vstd::prelude::*;

verus! {

/// A monoid: an associative combine with a two-sided identity, given both as
/// spec-level functions and as executable code that matches them.  The proof
/// obligations are the algebra laws the trees rely on; an implementor
/// discharges them once and every tree over the type gets them for free.
pub trait Monoid: Sized + Copy {
    /// The identity element, at the spec level.
    spec fn unity_spec() -> Self;

    /// The combine operation, at the spec level.
    spec fn op_spec(self, other: Self) -> Self;

    /// `unity_spec` is a two-sided identity for `op_spec`.
    proof fn lemma_unity(a: Self)
        ensures
            Self::unity_spec().op_spec(a) == a,
            a.op_spec(Self::unity_spec()) == a,
    ;

    /// `op_spec` is associative.
    proof fn lemma_assoc(a: Self, b: Self, c: Self)
        ensures
            a.op_spec(b).op_spec(c) == a.op_spec(b.op_spec(c)),
    ;

    /// The identity element, as a value.
    fn unity() -> (r: Self)
        ensures
            r == Self::unity_spec(),
    ;

    /// The combine operation, as code.
    fn op(&self, other: &Self) -> (r: Self)
        ensures
            r == self.op_spec(*other),
    ;
}

/// Left-to-right fold of a sequence under the monoid, starting from the
/// identity.  This is the reference meaning of every range query.
pub open spec fn agg<T: Monoid>(s: Seq<T>) -> T
    decreases s.len(),
{
    if s.len() == 0 {
        T::unity_spec()
    } else {
        agg(s.drop_last()).op_spec(s.last())
    }
}

/// Folding a concatenation equals combining the folds of the parts.
pub proof fn lemma_agg_concat<T: Monoid>(s1: Seq<T>, s2: Seq<T>)
    ensures
        agg(s1 + s2) == agg(s1).op_spec(agg(s2)),
    decreases s2.len(),
{
    if s2.len() == 0 {
        assert(s1 + s2 =~= s1);
        T::lemma_unity(agg(s1));
    } else {
        assert((s1 + s2).drop_last() =~= s1 + s2.drop_last());
        assert((s1 + s2).last() == s2.last());
        lemma_agg_concat(s1, s2.drop_last());
        T::lemma_assoc(agg(s1), agg(s2.drop_last()), s2.last());
    }
}

/// Folding a singleton gives back its element.
pub proof fn lemma_agg_singleton<T: Monoid>(x: T)
    ensures
        agg(seq![x]) == x,
{
    assert(seq![x].drop_last() =~= Seq::<T>::empty());
    assert(seq![x].last() == x);
    assert(agg(seq![x]) == agg(Seq::<T>::empty()).op_spec(x));
    T::lemma_unity(x);
}

/// `n` is a positive power of two.
pub open spec fn is_pow2(n: int) -> bool
    decreases n,
{
    if n <= 0 {
        false
    } else if n == 1 {
        true
    } else {
        n % 2 == 0 && is_pow2(n / 2)
    }
}

/// `v` lies on the path from the root to heap slot `p` (inclusive at both
/// ends); slot `p`'s parent is `(p - 1) / 2`.
pub open spec fn is_anc(v: int, p: int) -> bool
    decreases p,
{
    if p <= 0 {
        v == p
    } else {
        v == p || is_anc(v, (p - 1) / 2)
    }
}

pub proof fn lemma_anc_le(v: int, p: int)
    requires
        0 <= p,
        is_anc(v, p),
    ensures
        v <= p,
    decreases p,
{
    if p > 0 && v != p {
        lemma_anc_le(v, (p - 1) / 2);
    }
}

/// Heap slot `i` is the node of a complete tree with `cap` leaves that covers
/// the leaf window `[a, b)`.  The product form encodes `i = cap/(b-a) - 1 +
/// a/(b-a)` without divisions.
pub open spec fn node_covers(cap: int, i: int, a: int, b: int) -> bool {
    &&& 0 <= a < b <= cap
    &&& is_pow2(b - a)
    &&& (b - a) * (i + 1) == cap + a
}

/// Structural consequences of `node_covers`: where the slot index sits, and
/// how the two child slots cover the two halves of the window.
pub proof fn lemma_node_structure(cap: int, i: int, a: int, b: int)
    requires
        is_pow2(cap),
        node_covers(cap, i, a, b),
    ensures
        b - a == 1 ==> i == cap - 1 + a,
        b - a > 1 ==> 0 <= i < cap - 1 && (b - a) % 2 == 0
            && node_covers(cap, 2 * i + 1, a, (a + b) / 2)
            && node_covers(cap, 2 * i + 2, (a + b) / 2, b),
{
    let s = b - a;
    if s == 1 {
        assert(i == cap - 1 + a) by (nonlinear_arith)
            requires s * (i + 1) == cap + a && s == 1;
    } else {
        assert(s >= 2 && s % 2 == 0 && is_pow2(s / 2));
        let m = (a + b) / 2;
        assert(m == a + s / 2);
        assert((s / 2) * (2 * i + 1 + 1) == cap + a) by (nonlinear_arith)
            requires s * (i + 1) == cap + a && s >= 2 && s % 2 == 0;
        assert((s / 2) * (2 * i + 2 + 1) == cap + a + s / 2) by (nonlinear_arith)
            requires s * (i + 1) == cap + a && s >= 2 && s % 2 == 0;
        // index bounds: s >= 2 and a <= cap - s give i + 1 <= (2*cap - 2)/2.
        assert(a + s <= cap);
        assert(i + 1 >= 1 && i < cap - 1) by (nonlinear_arith)
            requires s * (i + 1) == cap + a && s >= 2 && 0 <= a && a + s <= cap && cap >= 1;
        assert(0 <= a < m < b <= cap);
    }
}

/// Plain segment tree: a complete binary tree in one flat array, leaves in
/// the upper half.  Supports point overwrite and monoid range query.
pub struct SegmentTree<T: Monoid> {
    dat: Vec<T>,
    length: usize,
}

impl<T: Monoid> SegmentTree<T> {
    /// Number of leaf slots (the requested length rounded up to a power of
    /// two).
    pub closed spec fn spec_cap(&self) -> int {
        self.dat@.len() as int / 2
    }

    /// The logical length the tree was built for.
    pub closed spec fn spec_len(&self) -> usize {
        self.length
    }

    /// The model: the sequence of all leaf slots.  Slots at or beyond
    /// `spec_len()` are padding and hold the identity until written.
    pub closed spec fn leaves(&self) -> Seq<T> {
        self.dat@.subrange(self.spec_cap() - 1, 2 * self.spec_cap() - 1)
    }

    /// Well-formed: power-of-two capacity and every internal slot holds the
    /// combine of its two children.
    pub closed spec fn wf(&self) -> bool {
        &&& is_pow2(self.spec_cap())
        &&& self.dat@.len() == 2 * self.spec_cap()
        &&& self.length <= self.spec_cap()
        &&& forall|v: int|
            0 <= v < self.spec_cap() - 1 ==> #[trigger] self.dat@[v] == self.dat@[2 * v
                + 1].op_spec(self.dat@[2 * v + 2])
    }

    /// A slot covering `[a, b)` holds the fold of those leaves.
    proof fn lemma_node_agg(&self, i: int, a: int, b: int)
        requires
            self.wf(),
            node_covers(self.spec_cap(), i, a, b),
        ensures
            0 <= i < 2 * self.spec_cap() - 1,
            self.dat@[i] == agg(self.leaves().subrange(a, b)),
        decreases b - a,
    {
        let cap = self.spec_cap();
        lemma_node_structure(cap, i, a, b);
        if b - a == 1 {
            assert(self.leaves().subrange(a, b) =~= seq![self.dat@[i]]);
            lemma_agg_singleton(self.dat@[i]);
        } else {
            let m = (a + b) / 2;
            self.lemma_node_agg(2 * i + 1, a, m);
            self.lemma_node_agg(2 * i + 2, m, b);
            assert(self.leaves().subrange(a, b) =~= self.leaves().subrange(a, m)
                + self.leaves().subrange(m, b));
            lemma_agg_concat(self.leaves().subrange(a, m), self.leaves().subrange(m, b));
        }
    }

    /// Builds a tree for `n` elements, every leaf holding the identity.
    pub fn new(n: usize) -> (r: SegmentTree<T>)
        requires
            1 <= n <= usize::MAX / 4,
        ensures
            r.wf(),
            r.spec_len() == n,
            n <= r.leaves().len() < 2 * n,
            r.leaves() == Seq::new(r.leaves().len(), |i: int| T::unity_spec()),
    {
        let mut len: usize = 1;
        while len < n
            invariant
                1 <= len < 2 * n,
                is_pow2(len as int),
                n <= usize::MAX / 4,
            decreases 2 * n - len,
        {
            len = len * 2;
        }
        let mut dat: Vec<T> = Vec::new();
        let total = len * 2;
        let u = T::unity();
        while dat.len() < total
            invariant
                dat@.len() <= total,
                forall|j: int| 0 <= j < dat@.len() ==> dat@[j] == T::unity_spec(),
                u == T::unity_spec(),
            decreases total - dat.len(),
        {
            dat.push(u);
        }
        proof {
            T::lemma_unity(T::unity_spec());
        }
        let r = SegmentTree { dat, length: n };
        proof {
            assert(r.leaves() =~= Seq::new(r.leaves().len(), |i: int| T::unity_spec()));
        }
        r
    }

    /// The logical length.
    pub fn len(&self) -> (r: usize)
        ensures
            r == self.spec_len(),
    {
        self.length
    }

    /// Overwrites leaf `i` and recomputes every ancestor.
    pub fn update(&mut self, i: usize, val: T)
        requires
            old(self).wf(),
            i < old(self).spec_len(),
        ensures
            final(self).wf(),
            final(self).spec_len() == old(self).spec_len(),
            final(self).leaves() == old(self).leaves().update(i as int, val),
    {
        let cap = self.dat.len() / 2;
        let mut p: usize = cap - 1 + i;
        self.dat.set(p, val);
        proof {
            assert(self.leaves() =~= old(self).leaves().update(i as int, val));
            let p0 = p as int;
            assert forall|v: int|
                0 <= v < self.spec_cap() - 1 && !is_anc(v, p0) implies #[trigger] self.dat@[v]
                == self.dat@[2 * v + 1].op_spec(self.dat@[2 * v + 2]) by {
                if 2 * v + 1 == p0 || 2 * v + 2 == p0 {
                    assert(v == (p0 - 1) / 2);
                    assert(is_anc(v, v));
                    assert(is_anc(v, p0));
                }
            }
        }
        while p != 0
            invariant
                self.wf_except(p as int),
                p < self.spec_cap() - 1 ==> self.dat@[p as int] == self.dat@[2 * (p as int)
                    + 1].op_spec(self.dat@[2 * (p as int) + 2]),
                self.spec_cap() == old(self).spec_cap(),
                self.length == old(self).length,
                is_pow2(self.spec_cap()),
                self.dat@.len() == 2 * self.spec_cap(),
                p <= 2 * self.spec_cap() - 2,
                self.leaves() == old(self).leaves().update(i as int, val),
            decreases p,
        {
            let prev = Ghost(p as int);
            p = (p - 1) / 2;
            proof {
                assert(p as int <= self.spec_cap() - 2);
            }
            // reading the length as a usize bounds the index arithmetic below
            let dl = self.dat.len();
            let combined = self.dat[2 * p + 1].op(&self.dat[2 * p + 2]);
            let pre = Ghost(self.dat@);
            self.dat.set(p, combined);
            proof {
                self.lemma_step_restores(pre@, prev@, p as int);
                assert(self.leaves() =~= pre@.subrange(
                    self.spec_cap() - 1,
                    2 * self.spec_cap() - 1,
                ));
            }
        }
        proof {
            assert forall|v: int| 0 <= v < self.spec_cap() - 1 implies #[trigger] self.dat@[v]
                == self.dat@[2 * v + 1].op_spec(self.dat@[2 * v + 2]) by {
                if v != 0 {
                    assert(!is_anc(v, 0));
                }
            }
        }
    }

    /// Consistency of every internal slot except the strict ancestors of `p`
    /// (and `p` itself if internal).
    spec fn wf_except(&self, p: int) -> bool {
        forall|v: int|
            0 <= v < self.spec_cap() - 1 && !is_anc(v, p) ==> #[trigger] self.dat@[v]
                == self.dat@[2 * v + 1].op_spec(self.dat@[2 * v + 2])
    }

    /// After recomputing slot `p` (the parent of `prev`) from its children,
    /// everything outside the strict ancestors of `p` is consistent, and so
    /// is `p` itself.
    proof fn lemma_step_restores(&self, pre: Seq<T>, prev: int, p: int)
        requires
            0 < prev < 2 * self.spec_cap() - 1,
            p == (prev - 1) / 2,
            self.dat@.len() == 2 * self.spec_cap(),
            pre.len() == self.dat@.len(),
            self.dat@ == pre.update(p, pre[2 * p + 1].op_spec(pre[2 * p + 2])),
            forall|v: int|
                0 <= v < self.spec_cap() - 1 && !is_anc(v, prev) ==> #[trigger] pre[v] == pre[2 * v
                    + 1].op_spec(pre[2 * v + 2]),
            prev < self.spec_cap() - 1 ==> pre[prev] == pre[2 * prev + 1].op_spec(
                pre[2 * prev + 2],
            ),
        ensures
            self.wf_except(p),
            self.dat@[p] == self.dat@[2 * p + 1].op_spec(self.dat@[2 * p + 2]),
    {
        let cap = self.spec_cap();
        assert(0 <= p < prev);
        assert(self.dat@[2 * p + 1] == pre[2 * p + 1] && self.dat@[2 * p + 2] == pre[2 * p + 2]);
        assert forall|v: int| 0 <= v < cap - 1 && !is_anc(v, p) implies #[trigger] self.dat@[v]
            == self.dat@[2 * v + 1].op_spec(self.dat@[2 * v + 2]) by {
            assert(v != p);
            if v == prev {
                // prev's own slot and children are untouched by the write at p
                assert(self.dat@[v] == pre[v]);
            } else {
                assert(!is_anc(v, prev));
                if 2 * v + 1 == p || 2 * v + 2 == p {
                    assert(v == (p - 1) / 2);
                    assert(is_anc(v, v));
                    assert(is_anc(v, p));
                }
            }
        }
    }

    /// Reads leaf `ind`.
    pub fn get(&self, ind: usize) -> (r: T)
        requires
            self.wf(),
            ind < self.spec_len(),
        ensures
            r == self.leaves()[ind as int],
    {
        self.dat[self.dat.len() / 2 + ind - 1]
    }

    /// Folds the leaves of `[l, r)` left to right; the empty window gives the
    /// identity.
    pub fn query(&self, l: usize, r: usize) -> (res: T)
        requires
            self.wf(),
            l <= r,
            r <= self.spec_len(),
        ensures
            res == agg(self.leaves().subrange(l as int, r as int)),
    {
        let cap = self.dat.len() / 2;
        let res = self.query_(l, r, 0, 0, cap);
        proof {
            if l == r {
                assert(self.leaves().subrange(l as int, r as int) =~= Seq::<T>::empty());
            }
        }
        res
    }

    /// Recursive worker over the slot `i` covering `[a, b)`: contributes the
    /// fold of the leaves in `[a, b)` clipped to `[l, r)`.
    fn query_(&self, l: usize, r: usize, i: usize, a: usize, b: usize) -> (res: T)
        requires
            self.wf(),
            l <= r,
            node_covers(self.spec_cap(), i as int, a as int, b as int),
        ensures
            res == clipped_agg(self.leaves(), l as int, r as int, a as int, b as int),
        decreases b - a,
    {
        proof {
            lemma_node_structure(self.spec_cap(), i as int, a as int, b as int);
        }
        // reading the length as a usize bounds the index arithmetic below
        let dl = self.dat.len();
        if l <= a && b <= r {
            proof {
                self.lemma_node_agg(i as int, a as int, b as int);
            }
            self.dat[i]
        } else if !(r <= a || b <= l) {
            let m = a + (b - a) / 2;
            proof {
                assert(m == (a + b) / 2);
            }
            let retl = self.query_(l, r, i * 2 + 1, a, m);
            let retr = self.query_(l, r, i * 2 + 2, m, b);
            proof {
                self.lemma_combine_halves(l as int, r as int, a as int, m as int, b as int);
            }
            retl.op(&retr)
        } else {
            T::unity()
        }
    }

    /// Clipping `[l, r)` against `[a, b)` splits at the midpoint `m`: the two
    /// clipped folds combine to the whole clipped fold.
    proof fn lemma_combine_halves(&self, l: int, r: int, a: int, m: int, b: int)
        requires
            l <= r,
            0 <= a < m < b <= self.leaves().len(),
            !(r <= a || b <= l),
            !(l <= a && b <= r),
        ensures
            clipped_agg(self.leaves(), l, r, a, m).op_spec(clipped_agg(self.leaves(), l, r, m, b))
                == clipped_agg(self.leaves(), l, r, a, b),
    {
        let s = self.leaves();
        let lo = if l > a { l } else { a };
        let hi = if r < b { r } else { b };
        if hi <= lo {
            // the window misses [a, b) entirely; both halves are empty too
            T::lemma_unity(T::unity_spec());
        } else if r <= m {
            // only the left half is touched
            T::lemma_unity(clipped_agg(s, l, r, a, m));
        } else if m <= l {
            // only the right half is touched
            T::lemma_unity(clipped_agg(s, l, r, m, b));
        } else {
            // both halves contribute the adjacent pieces [lo, m) and [m, hi)
            assert(s.subrange(lo, hi) =~= s.subrange(lo, m) + s.subrange(m, hi));
            lemma_agg_concat(s.subrange(lo, m), s.subrange(m, hi));
        }
    }
}

/// The fold of the leaves of `s` that lie both in `[l, r)` and in `[a, b)`;
/// the identity when the two windows do not meet.
pub open spec fn clipped_agg<T: Monoid>(s: Seq<T>, l: int, r: int, a: int, b: int) -> T {
    let lo = if l > a { l } else { a };
    let hi = if r < b { r } else { b };
    if lo < hi {
        agg(s.subrange(lo, hi))
    } else {
        T::unity_spec()
    }
}

} // verus!

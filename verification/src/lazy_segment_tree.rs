//! Segment tree with lazy range updates.  The aggregation monoid is combined
//! with a second monoid of composable effects; a pending effect at a node is
//! already reflected in the node's own aggregate and still owed to the node's
//! children.  Every operation is specified against the sequence of effective
//! leaf values.

use vstd::prelude::*;

use crate::segtree::{Monoid, agg, is_anc, is_pow2, lemma_agg_concat, lemma_agg_singleton,
    lemma_anc_le, lemma_node_structure, node_covers};

verus! {

/// An effect algebra over the aggregation monoid `T`.  `Self` is a monoid of
/// deferred updates; `apply_spec(v, e, a, b)` says what the effect does to
/// the aggregate of the index window `[a, b)`.  The three laws are exactly
/// what lazy propagation needs: the no-op effect changes nothing, composed
/// effects act like the two effects in order, and acting on a combined
/// aggregate equals combining the actions on the halves.
pub trait Effect<T: Monoid>: Monoid {
    /// What applying the effect `e` to the aggregate `val` of window
    /// `[a, b)` produces.
    spec fn apply_spec(val: T, e: Self, a: int, b: int) -> T;

    /// The identity effect leaves every aggregate unchanged.
    proof fn lemma_apply_unity(val: T, a: int, b: int)
        requires
            a <= b,
        ensures
            Self::apply_spec(val, Self::unity_spec(), a, b) == val,
    ;

    /// Applying `e1` then `e2` equals applying the composition
    /// `e1.op_spec(e2)` once.
    proof fn lemma_apply_compose(val: T, e1: Self, e2: Self, a: int, b: int)
        requires
            a <= b,
        ensures
            Self::apply_spec(Self::apply_spec(val, e1, a, b), e2, a, b) == Self::apply_spec(
                val,
                e1.op_spec(e2),
                a,
                b,
            ),
    ;

    /// Acting on a combined aggregate splits at any midpoint.
    proof fn lemma_apply_split(x: T, y: T, e: Self, a: int, m: int, b: int)
        requires
            a <= m <= b,
        ensures
            Self::apply_spec(x.op_spec(y), e, a, b) == Self::apply_spec(x, e, a, m).op_spec(
                Self::apply_spec(y, e, m, b),
            ),
    ;

    /// The apply function, as code.
    fn apply(val: &T, e: &Self, a: usize, b: usize) -> (r: T)
        requires
            a <= b,
        ensures
            r == Self::apply_spec(*val, *e, a as int, b as int),
    ;
}

/// Applies `e` to every element of `s` individually; element `k` stands for
/// the single index `a + k`.
pub open spec fn apply_each<T: Monoid, U: Effect<T>>(s: Seq<T>, e: U, a: int) -> Seq<T> {
    Seq::new(s.len(), |k: int| U::apply_spec(s[k], e, a + k, a + k + 1))
}

/// The effective leaf values of the subtree rooted at slot `v` covering
/// `[a, b)`: what the leaves will read once every pending effect inside the
/// subtree has been pushed all the way down.
pub open spec fn eff<T: Monoid, U: Effect<T>>(
    dat: Seq<T>,
    lazy: Seq<U>,
    v: int,
    a: int,
    b: int,
) -> Seq<T>
    decreases b - a,
{
    if b - a <= 1 {
        seq![dat[v]]
    } else {
        apply_each(
            eff(dat, lazy, 2 * v + 1, a, (a + b) / 2) + eff(dat, lazy, 2 * v + 2, (a + b) / 2, b),
            lazy[v],
            a,
        )
    }
}

/// Well-formedness of the subtree at slot `v` covering `[a, b)` in a tree of
/// `cap` leaves: leaves carry no pending effect, internal slots sit below the
/// leaf row, and every internal aggregate already reflects its own pending
/// effect — it equals the fold of its effective leaves.
pub open spec fn wf_node<T: Monoid, U: Effect<T>>(
    dat: Seq<T>,
    lazy: Seq<U>,
    cap: int,
    v: int,
    a: int,
    b: int,
) -> bool
    decreases b - a,
{
    if b - a <= 1 {
        &&& cap - 1 <= v < 2 * cap - 1
        &&& lazy[v] == U::unity_spec()
    } else {
        &&& 0 <= v < cap - 1
        &&& (b - a) % 2 == 0
        &&& wf_node(dat, lazy, cap, 2 * v + 1, a, (a + b) / 2)
        &&& wf_node(dat, lazy, cap, 2 * v + 2, (a + b) / 2, b)
        &&& dat[v] == agg(eff(dat, lazy, v, a, b))
    }
}

/// The subtree over `[a, b)` has exactly `b - a` effective leaves.
pub proof fn lemma_eff_len<T: Monoid, U: Effect<T>>(
    dat: Seq<T>,
    lazy: Seq<U>,
    v: int,
    a: int,
    b: int,
)
    requires
        a < b,
    ensures
        eff(dat, lazy, v, a, b).len() == b - a,
    decreases b - a,
{
    if b - a > 1 {
        let m = (a + b) / 2;
        lemma_eff_len(dat, lazy, 2 * v + 1, a, m);
        lemma_eff_len(dat, lazy, 2 * v + 2, m, b);
    }
}

/// Applying the identity effect to each element changes nothing.
pub proof fn lemma_apply_each_unity<T: Monoid, U: Effect<T>>(s: Seq<T>, a: int)
    ensures
        apply_each(s, U::unity_spec(), a) == s,
{
    assert forall|k: int| 0 <= k < s.len() implies apply_each(s, U::unity_spec(), a)[k]
        == s[k] by {
        U::lemma_apply_unity(s[k], a + k, a + k + 1);
    }
    assert(apply_each(s, U::unity_spec(), a) =~= s);
}

/// Element-wise application composes the same way the effects do.
pub proof fn lemma_apply_each_compose<T: Monoid, U: Effect<T>>(s: Seq<T>, e1: U, e2: U, a: int)
    ensures
        apply_each(apply_each(s, e1, a), e2, a) == apply_each(s, e1.op_spec(e2), a),
{
    assert forall|k: int| 0 <= k < s.len() implies apply_each(apply_each(s, e1, a), e2, a)[k]
        == apply_each(s, e1.op_spec(e2), a)[k] by {
        U::lemma_apply_compose(s[k], e1, e2, a + k, a + k + 1);
    }
    assert(apply_each(apply_each(s, e1, a), e2, a) =~= apply_each(s, e1.op_spec(e2), a));
}

/// Element-wise application distributes over concatenation, shifting the
/// index base for the second part.
pub proof fn lemma_apply_each_concat<T: Monoid, U: Effect<T>>(s1: Seq<T>, s2: Seq<T>, e: U, a: int)
    ensures
        apply_each(s1 + s2, e, a) == apply_each(s1, e, a) + apply_each(s2, e, a + s1.len()),
{
    assert(apply_each(s1 + s2, e, a) =~= apply_each(s1, e, a) + apply_each(s2, e, a + s1.len()));
}

/// Folding the element-wise application equals applying the effect once to
/// the fold, over the whole window.
pub proof fn lemma_agg_apply_each<T: Monoid, U: Effect<T>>(s: Seq<T>, e: U, a: int)
    requires
        s.len() >= 1,
    ensures
        agg(apply_each(s, e, a)) == U::apply_spec(agg(s), e, a, a + s.len()),
    decreases s.len(),
{
    let n = s.len() as int;
    if n == 1 {
        lemma_agg_singleton(s[0]);
        assert(apply_each(s, e, a) =~= seq![U::apply_spec(s[0], e, a, a + 1)]);
        lemma_agg_singleton(U::apply_spec(s[0], e, a, a + 1));
        assert(s =~= seq![s[0]]);
    } else {
        let s1 = s.drop_last();
        lemma_agg_apply_each(s1, e, a);
        assert(apply_each(s, e, a).drop_last() =~= apply_each(s1, e, a));
        assert(apply_each(s, e, a).last() == U::apply_spec(s.last(), e, a + n - 1, a + n));
        U::lemma_apply_split(agg(s1), s.last(), e, a, a + n - 1, a + n);
    }
}

/// Everything in a child's subtree is in the parent's subtree.
pub proof fn lemma_anc_child(v: int, c: int, j: int)
    requires
        v >= 0,
        c == 2 * v + 1 || c == 2 * v + 2,
        is_anc(c, j),
    ensures
        is_anc(v, j),
    decreases j,
{
    if j == c {
        assert((c - 1) / 2 == v);
        assert(is_anc(v, v));
    } else {
        // j > c >= 1 here, so j has a parent inside the subtree
        lemma_anc_le(c, j);
        lemma_anc_child(v, c, (j - 1) / 2);
    }
}

/// The two child subtrees of a slot share no slot.
pub proof fn lemma_sibling_disjoint(v: int, j: int)
    requires
        v >= 0,
        is_anc(2 * v + 1, j),
    ensures
        !is_anc(2 * v + 2, j),
    decreases j,
{
    let lv = 2 * v + 1;
    let rv = 2 * v + 2;
    if is_anc(rv, j) {
        lemma_anc_le(lv, j);
        lemma_anc_le(rv, j);
        if j == lv {
            assert(false);
        } else if j == rv {
            // is_anc(lv, rv) would force lv on the path through rv's parent v
            assert(is_anc(lv, v));
            lemma_anc_le(lv, v);
        } else {
            lemma_sibling_disjoint(v, (j - 1) / 2);
        }
    }
}

/// A slot is never inside the subtree of one of its children.
pub proof fn lemma_parent_not_in_child(v: int, c: int)
    requires
        v >= 0,
        c == 2 * v + 1 || c == 2 * v + 2,
    ensures
        !is_anc(c, v),
{
    if is_anc(c, v) {
        lemma_anc_le(c, v);
    }
}

/// `eff` and `wf_node` read only the slots of the subtree: two states that
/// agree there agree on both.
pub proof fn lemma_frame<T: Monoid, U: Effect<T>>(
    dat1: Seq<T>,
    lazy1: Seq<U>,
    dat2: Seq<T>,
    lazy2: Seq<U>,
    cap: int,
    v: int,
    a: int,
    b: int,
)
    requires
        v >= 0,
        wf_node(dat2, lazy2, cap, v, a, b),
        forall|j: int| 0 <= j < 2 * cap - 1 && #[trigger] is_anc(v, j) ==> dat1[j] == dat2[j]
            && lazy1[j] == lazy2[j],
    ensures
        eff(dat1, lazy1, v, a, b) == eff(dat2, lazy2, v, a, b),
        wf_node(dat1, lazy1, cap, v, a, b),
    decreases b - a,
{
    assert(is_anc(v, v));
    if b - a <= 1 {
        assert(eff(dat1, lazy1, v, a, b) =~= eff(dat2, lazy2, v, a, b));
    } else {
        let m = (a + b) / 2;
        let lv = 2 * v + 1;
        let rv = 2 * v + 2;
        assert forall|j: int| 0 <= j < 2 * cap - 1 && #[trigger] is_anc(lv, j) implies dat1[j]
            == dat2[j] && lazy1[j] == lazy2[j] by {
            lemma_anc_child(v, lv, j);
        }
        assert forall|j: int| 0 <= j < 2 * cap - 1 && #[trigger] is_anc(rv, j) implies dat1[j]
            == dat2[j] && lazy1[j] == lazy2[j] by {
            lemma_anc_child(v, rv, j);
        }
        lemma_frame(dat1, lazy1, dat2, lazy2, cap, lv, a, m);
        lemma_frame(dat1, lazy1, dat2, lazy2, cap, rv, m, b);
    }
}

/// Under `wf_node`, every slot's aggregate equals the fold of its effective
/// leaves — for internal slots by the invariant, for leaves by folding the
/// singleton.
pub proof fn lemma_dat_agg<T: Monoid, U: Effect<T>>(
    dat: Seq<T>,
    lazy: Seq<U>,
    cap: int,
    v: int,
    a: int,
    b: int,
)
    requires
        a < b,
        wf_node(dat, lazy, cap, v, a, b),
    ensures
        dat[v] == agg(eff(dat, lazy, v, a, b)),
{
    if b - a <= 1 {
        lemma_agg_singleton(dat[v]);
    }
}

/// One step of pushing an effect onto a child: the child's aggregate has the
/// effect applied over the child's whole window, and — if the child is
/// internal — the effect is composed onto the child's pending effect.  The
/// child's effective leaves then each receive the effect, and the child stays
/// well-formed.
pub proof fn lemma_push_child<T: Monoid, U: Effect<T>>(
    dat0: Seq<T>,
    lazy0: Seq<U>,
    datf: Seq<T>,
    lazyf: Seq<U>,
    cap: int,
    c: int,
    a: int,
    b: int,
    e: U,
)
    requires
        a < b,
        wf_node(dat0, lazy0, cap, c, a, b),
        datf[c] == U::apply_spec(dat0[c], e, a, b),
        b - a > 1 ==> lazyf[c] == lazy0[c].op_spec(e),
        b - a <= 1 ==> lazyf[c] == lazy0[c],
        forall|j: int| 0 <= j < 2 * cap - 1 && #[trigger] is_anc(c, j) && j != c ==> datf[j]
            == dat0[j] && lazyf[j] == lazy0[j],
    ensures
        eff(datf, lazyf, c, a, b) == apply_each(eff(dat0, lazy0, c, a, b), e, a),
        wf_node(datf, lazyf, cap, c, a, b),
{
    if b - a <= 1 {
        assert(eff(datf, lazyf, c, a, b) =~= apply_each(eff(dat0, lazy0, c, a, b), e, a));
    } else {
        let m = (a + b) / 2;
        let gl = 2 * c + 1;
        let gr = 2 * c + 2;
        assert forall|j: int| 0 <= j < 2 * cap - 1 && #[trigger] is_anc(gl, j) implies datf[j]
            == dat0[j] && lazyf[j] == lazy0[j] by {
            lemma_anc_le(gl, j);
            lemma_anc_child(c, gl, j);
        }
        assert forall|j: int| 0 <= j < 2 * cap - 1 && #[trigger] is_anc(gr, j) implies datf[j]
            == dat0[j] && lazyf[j] == lazy0[j] by {
            lemma_anc_le(gr, j);
            lemma_anc_child(c, gr, j);
        }
        lemma_frame(datf, lazyf, dat0, lazy0, cap, gl, a, m);
        lemma_frame(datf, lazyf, dat0, lazy0, cap, gr, m, b);
        let g = eff(dat0, lazy0, gl, a, m) + eff(dat0, lazy0, gr, m, b);
        assert(eff(dat0, lazy0, c, a, b) == apply_each(g, lazy0[c], a));
        assert(eff(datf, lazyf, c, a, b) == apply_each(g, lazy0[c].op_spec(e), a));
        lemma_apply_each_compose(g, lazy0[c], e, a);
        // the aggregate clause
        lemma_eff_len(dat0, lazy0, c, a, b);
        lemma_agg_apply_each(eff(dat0, lazy0, c, a, b), e, a);
    }
}

/// The result of a range update on the effective leaves: every element whose
/// absolute index `base + k` lies in `[l, r)` receives the effect, the rest
/// stay as they are.
pub open spec fn updated_window<T: Monoid, U: Effect<T>>(
    s: Seq<T>,
    e: U,
    base: int,
    l: int,
    r: int,
) -> Seq<T> {
    Seq::new(
        s.len(),
        |k: int|
            if l <= base + k < r {
                U::apply_spec(s[k], e, base + k, base + k + 1)
            } else {
                s[k]
            },
    )
}

/// A range update splits over concatenation, shifting the index base.
pub proof fn lemma_updated_window_concat<T: Monoid, U: Effect<T>>(
    s1: Seq<T>,
    s2: Seq<T>,
    e: U,
    base: int,
    l: int,
    r: int,
)
    ensures
        updated_window(s1 + s2, e, base, l, r) == updated_window(s1, e, base, l, r)
            + updated_window(s2, e, base + s1.len(), l, r),
{
    assert(updated_window(s1 + s2, e, base, l, r) =~= updated_window(s1, e, base, l, r)
        + updated_window(s2, e, base + s1.len(), l, r));
}

/// A range update that covers the whole window applies the effect everywhere.
pub proof fn lemma_updated_window_full<T: Monoid, U: Effect<T>>(
    s: Seq<T>,
    e: U,
    base: int,
    l: int,
    r: int,
)
    requires
        l <= base,
        base + s.len() <= r,
    ensures
        updated_window(s, e, base, l, r) == apply_each(s, e, base),
{
    assert(updated_window(s, e, base, l, r) =~= apply_each(s, e, base));
}

/// A range update that misses the window entirely changes nothing.
pub proof fn lemma_updated_window_empty<T: Monoid, U: Effect<T>>(
    s: Seq<T>,
    e: U,
    base: int,
    l: int,
    r: int,
)
    requires
        r <= base || base + s.len() <= l,
    ensures
        updated_window(s, e, base, l, r) == s,
{
    assert(updated_window(s, e, base, l, r) =~= s);
}

/// The fold of the elements of `s` whose indices lie in `[lo, hi)`, clipped
/// to the sequence; the identity when nothing is left.
pub open spec fn window_agg<T: Monoid>(s: Seq<T>, lo: int, hi: int) -> T {
    let lo2 = if lo > 0 {
        lo
    } else {
        0
    };
    let hi2 = if hi < s.len() {
        hi
    } else {
        s.len() as int
    };
    if lo2 < hi2 {
        agg(s.subrange(lo2, hi2))
    } else {
        T::unity_spec()
    }
}

/// A clipped fold over a concatenation combines the clipped folds of the
/// parts, with the window shifted for the second part.
pub proof fn lemma_window_agg_concat<T: Monoid>(s1: Seq<T>, s2: Seq<T>, lo: int, hi: int)
    ensures
        window_agg(s1 + s2, lo, hi) == window_agg(s1, lo, hi).op_spec(
            window_agg(s2, lo - s1.len(), hi - s1.len()),
        ),
{
    let n1 = s1.len() as int;
    let n = n1 + s2.len() as int;
    let w = s1 + s2;
    let lo2 = if lo > 0 { lo } else { 0 };
    let hi2 = if hi < n { hi } else { n };
    if hi2 <= lo2 {
        T::lemma_unity(T::unity_spec());
    } else if hi2 <= n1 {
        assert(w.subrange(lo2, hi2) =~= s1.subrange(lo2, hi2));
        T::lemma_unity(window_agg(s1, lo, hi));
    } else if lo2 >= n1 {
        assert(w.subrange(lo2, hi2) =~= s2.subrange(lo2 - n1, hi2 - n1));
        T::lemma_unity(window_agg(s2, lo - n1, hi - n1));
    } else {
        assert(w.subrange(lo2, hi2) =~= s1.subrange(lo2, n1) + s2.subrange(0, hi2 - n1));
        lemma_agg_concat(s1.subrange(lo2, n1), s2.subrange(0, hi2 - n1));
    }
}

/// Reassembling a slot after its children have been handled: with no pending
/// effect and the aggregate recombined from the children, the slot is
/// well-formed and its effective leaves are the children's, concatenated.
pub proof fn lemma_recombine<T: Monoid, U: Effect<T>>(
    dat: Seq<T>,
    lazy: Seq<U>,
    cap: int,
    v: int,
    a: int,
    b: int,
)
    requires
        b - a > 1,
        0 <= v < cap - 1,
        (b - a) % 2 == 0,
        wf_node(dat, lazy, cap, 2 * v + 1, a, (a + b) / 2),
        wf_node(dat, lazy, cap, 2 * v + 2, (a + b) / 2, b),
        lazy[v] == U::unity_spec(),
        dat[v] == dat[2 * v + 1].op_spec(dat[2 * v + 2]),
    ensures
        wf_node(dat, lazy, cap, v, a, b),
        eff(dat, lazy, v, a, b) == eff(dat, lazy, 2 * v + 1, a, (a + b) / 2) + eff(
            dat,
            lazy,
            2 * v + 2,
            (a + b) / 2,
            b,
        ),
{
    let m = (a + b) / 2;
    let el = eff(dat, lazy, 2 * v + 1, a, m);
    let er = eff(dat, lazy, 2 * v + 2, m, b);
    lemma_apply_each_unity::<T, U>(el + er, a);
    lemma_dat_agg(dat, lazy, cap, 2 * v + 1, a, m);
    lemma_dat_agg(dat, lazy, cap, 2 * v + 2, m, b);
    lemma_agg_concat(el, er);
}

/// A constant sequence folds to its element whenever combining the element
/// with itself gives it back.
pub proof fn lemma_agg_const<T: Monoid>(n: int, init: T)
    requires
        n >= 1,
        T::op_spec(init, init) == init,
    ensures
        agg(Seq::new(n as nat, |k: int| init)) == init,
    decreases n,
{
    let s = Seq::new(n as nat, |k: int| init);
    if n == 1 {
        assert(s =~= seq![init]);
        lemma_agg_singleton(init);
    } else {
        assert(s.drop_last() =~= Seq::new((n - 1) as nat, |k: int| init));
        lemma_agg_const(n - 1, init);
    }
}

/// A tree whose aggregate slots all hold `init` and whose pending slots all
/// hold the identity is well-formed when `init` absorbs itself, and every
/// effective leaf reads `init`.
pub proof fn lemma_all_init_wf<T: Monoid, U: Effect<T>>(
    dat: Seq<T>,
    lazy: Seq<U>,
    cap: int,
    v: int,
    a: int,
    b: int,
    init: T,
)
    requires
        is_pow2(cap),
        node_covers(cap, v, a, b),
        dat.len() == 2 * cap,
        lazy.len() == 2 * cap,
        forall|j: int| 0 <= j < dat.len() ==> dat[j] == init,
        forall|j: int| 0 <= j < lazy.len() ==> lazy[j] == U::unity_spec(),
        T::op_spec(init, init) == init,
    ensures
        wf_node(dat, lazy, cap, v, a, b),
        eff(dat, lazy, v, a, b) == Seq::new((b - a) as nat, |k: int| init),
    decreases b - a,
{
    lemma_node_structure(cap, v, a, b);
    if b - a == 1 {
        assert(eff(dat, lazy, v, a, b) =~= Seq::new(1, |k: int| init));
    } else {
        let m = (a + b) / 2;
        lemma_all_init_wf(dat, lazy, cap, 2 * v + 1, a, m, init);
        lemma_all_init_wf(dat, lazy, cap, 2 * v + 2, m, b, init);
        let el = eff(dat, lazy, 2 * v + 1, a, m);
        let er = eff(dat, lazy, 2 * v + 2, m, b);
        lemma_apply_each_unity::<T, U>(el + er, a);
        assert(el + er =~= Seq::new((b - a) as nat, |k: int| init));
        lemma_agg_const(b - a, init);
    }
}

/// Segment tree with lazy range updates over an aggregation monoid `T` and
/// an effect algebra `U`.  The logical index range is `[0, len())`, where
/// `len()` is the construction length rounded up to a power of two; the
/// padding positions behave as ordinary leaves holding the initial value.
pub struct LazySegmentTree<T: Monoid, U: Effect<T>> {
    dat: Vec<T>,
    lazy: Vec<U>,
    length: usize,
}

impl<T: Monoid, U: Effect<T>> LazySegmentTree<T, U> {
    /// Number of leaves (a power of two).
    pub closed spec fn spec_cap(&self) -> int {
        self.length as int
    }

    /// `len()` as a spec value.
    pub closed spec fn spec_len(&self) -> usize {
        self.length
    }

    /// Array sizes and capacity shape.
    pub closed spec fn arrays_ok(&self) -> bool {
        &&& 1 <= self.length <= usize::MAX / 4
        &&& is_pow2(self.length as int)
        &&& self.dat@.len() == 2 * self.length
        &&& self.lazy@.len() == 2 * self.length
    }

    /// The whole tree is well-formed.
    pub closed spec fn wf(&self) -> bool {
        &&& self.arrays_ok()
        &&& wf_node(self.dat@, self.lazy@, self.spec_cap(), 0, 0, self.spec_cap())
    }

    /// The model: the effective value of every leaf, pending effects
    /// included.
    pub closed spec fn leaves(&self) -> Seq<T> {
        eff(self.dat@, self.lazy@, 0, 0, self.spec_cap())
    }

    /// The model has one entry per leaf.
    pub proof fn lemma_leaves_len(&self)
        requires
            self.wf(),
        ensures
            self.leaves().len() == self.spec_len(),
    {
        lemma_eff_len(self.dat@, self.lazy@, 0, 0, self.spec_cap());
    }

    /// The number of leaves.
    pub fn len(&self) -> (r: usize)
        ensures
            r == self.spec_len(),
    {
        self.length
    }

    /// Takes the pending effect at `v` (covering `[l, r)`), resets it to the
    /// identity, applies it to each child's aggregate, composes it into each
    /// internal child's pending effect, and recombines `v`'s aggregate.  The
    /// effective leaves of the subtree do not change.
    fn propagate(&mut self, v: usize, l: usize, r: usize)
        requires
            old(self).arrays_ok(),
            l < r <= old(self).spec_cap(),
            wf_node(
                old(self).dat@,
                old(self).lazy@,
                old(self).spec_cap(),
                v as int,
                l as int,
                r as int,
            ),
        ensures
            final(self).arrays_ok(),
            final(self).length == old(self).length,
            wf_node(
                final(self).dat@,
                final(self).lazy@,
                old(self).spec_cap(),
                v as int,
                l as int,
                r as int,
            ),
            eff(final(self).dat@, final(self).lazy@, v as int, l as int, r as int) == eff(
                old(self).dat@,
                old(self).lazy@,
                v as int,
                l as int,
                r as int,
            ),
            final(self).lazy@[v as int] == U::unity_spec(),
            forall|j: int|
                0 <= j < old(self).dat@.len() && !is_anc(v as int, j) ==> final(self).dat@[j]
                    == old(self).dat@[j] && final(self).lazy@[j] == old(self).lazy@[j],
    {
        let ghost dat0 = self.dat@;
        let ghost lazy0 = self.lazy@;
        let ghost cap = self.spec_cap();
        let ghost v_ = v as int;
        let lval = self.lazy[v];
        self.lazy.set(v, U::unity());
        let m = l + (r - l) / 2;
        proof {
            assert(m as int == (l as int + r as int) / 2);
            assert(is_anc(v_, v_));
            assert(is_anc(v_, 2 * v_ + 1));
            assert(is_anc(v_, 2 * v_ + 2));
        }
        let ll = self.lazy.len();
        let lv = 2 * v + 1;
        let rv = 2 * v + 2;
        if r - l == 1 {
            // leaf: the pending effect is already the identity, so nothing
            // observable happens; when `v` is the first leaf this still
            // writes the no-op into the unused slot past the last leaf.
            if lv < ll {
                let dlv = U::apply(&self.dat[lv], &lval, l, m);
                self.dat.set(lv, dlv);
                proof {
                    U::lemma_apply_unity(dat0[lv as int], l as int, m as int);
                    assert(self.dat@ =~= dat0);
                }
            }
            proof {
                assert(self.lazy@ =~= lazy0);
                assert(self.dat@ =~= dat0);
            }
        } else {
            // internal: both children exist
            proof {
                assert(0 <= v_ < cap - 1);
                assert(lv < ll && rv < ll);
            }
            let dlv = U::apply(&self.dat[lv], &lval, l, m);
            self.dat.set(lv, dlv);
            if lv < ll / 2 - 1 {
                let nl = self.lazy[lv].op(&lval);
                self.lazy.set(lv, nl);
            }
            let drv = U::apply(&self.dat[rv], &lval, m, r);
            self.dat.set(rv, drv);
            if rv < ll / 2 - 1 {
                let nl = self.lazy[rv].op(&lval);
                self.lazy.set(rv, nl);
            }
            let comb = self.dat[lv].op(&self.dat[rv]);
            self.dat.set(v, comb);
            proof {
                let datf = self.dat@;
                let lazyf = self.lazy@;
                let lv_ = 2 * v_ + 1;
                let rv_ = 2 * v_ + 2;
                let l_ = l as int;
                let m_ = m as int;
                let r_ = r as int;
                assert(ll as int / 2 - 1 == cap - 1);
                // the only touched slots are v, lv, rv
                assert(forall|j: int|
                    0 <= j < dat0.len() && j != v_ && j != lv_ && j != rv_ ==> datf[j] == dat0[j]
                        && lazyf[j] == lazy0[j]);
                assert(lazyf[v_] == U::unity_spec());
                assert(datf[lv_] == U::apply_spec(dat0[lv_], lval, l_, m_));
                assert(datf[rv_] == U::apply_spec(dat0[rv_], lval, m_, r_));
                assert(datf[v_] == datf[lv_].op_spec(datf[rv_]));
                // each child absorbed the effect
                assert forall|j: int|
                    0 <= j < 2 * cap - 1 && #[trigger] is_anc(lv_, j) && j != lv_ implies datf[j]
                    == dat0[j] && lazyf[j] == lazy0[j] by {
                    lemma_anc_le(lv_, j);
                    if j == rv_ {
                        assert(is_anc(rv_, rv_));
                        lemma_sibling_disjoint(v_, j);
                    }
                }
                assert forall|j: int|
                    0 <= j < 2 * cap - 1 && #[trigger] is_anc(rv_, j) && j != rv_ implies datf[j]
                    == dat0[j] && lazyf[j] == lazy0[j] by {
                    lemma_anc_le(rv_, j);
                    if j == lv_ {
                        assert(is_anc(lv_, lv_));
                        lemma_sibling_disjoint(v_, lv_);
                    }
                }
                assert(wf_node(dat0, lazy0, cap, lv_, l_, m_));
                assert(wf_node(dat0, lazy0, cap, rv_, m_, r_));
                assert(m_ - l_ > 1 ==> lv_ < cap - 1 && lazyf[lv_] == lazy0[lv_].op_spec(lval));
                assert(m_ - l_ <= 1 ==> lv_ >= cap - 1 && lazyf[lv_] == lazy0[lv_]);
                assert(r_ - m_ > 1 ==> rv_ < cap - 1 && lazyf[rv_] == lazy0[rv_].op_spec(lval));
                assert(r_ - m_ <= 1 ==> rv_ >= cap - 1 && lazyf[rv_] == lazy0[rv_]);
                lemma_push_child(dat0, lazy0, datf, lazyf, cap, lv_, l_, m_, lval);
                lemma_push_child(dat0, lazy0, datf, lazyf, cap, rv_, m_, r_, lval);
                let el = eff(dat0, lazy0, lv_, l_, m_);
                let er = eff(dat0, lazy0, rv_, m_, r_);
                lemma_eff_len(dat0, lazy0, lv_, l_, m_);
                lemma_eff_len(dat0, lazy0, rv_, m_, r_);
                // effective leaves of v are unchanged
                lemma_apply_each_concat(el, er, lval, l_);
                lemma_apply_each_unity::<T, U>(
                    eff(datf, lazyf, lv_, l_, m_) + eff(datf, lazyf, rv_, m_, r_),
                    l_,
                );
                assert(eff(datf, lazyf, v_, l_, r_) == apply_each(el + er, lval, l_));
                assert(eff(dat0, lazy0, v_, l_, r_) == apply_each(el + er, lazy0[v_], l_));
                // the recombined aggregate matches the fold of the leaves
                lemma_dat_agg(datf, lazyf, cap, lv_, l_, m_);
                lemma_dat_agg(datf, lazyf, cap, rv_, m_, r_);
                lemma_agg_concat(
                    eff(datf, lazyf, lv_, l_, m_),
                    eff(datf, lazyf, rv_, m_, r_),
                );
            }
        }
    }

    /// Applies `x` to every index of `[l, r)`, over the whole tree.
    pub fn range_update(&mut self, l: usize, r: usize, x: U)
        requires
            old(self).wf(),
            l <= r,
            r <= old(self).spec_len(),
        ensures
            final(self).wf(),
            final(self).spec_len() == old(self).spec_len(),
            final(self).leaves() == updated_window(
                old(self).leaves(),
                x,
                0,
                l as int,
                r as int,
            ),
    {
        let len = self.len();
        self.range_update_(0, 0, len, l, r, x);
    }

    /// Recursive worker: applies `x` to the indices of `[l, r)` that fall in
    /// the subtree at `v` covering `[a, b)`; everything outside the subtree
    /// is untouched.
    fn range_update_(&mut self, v: usize, a: usize, b: usize, l: usize, r: usize, x: U)
        requires
            old(self).arrays_ok(),
            a < b <= old(self).spec_cap(),
            l <= r <= old(self).spec_cap(),
            wf_node(
                old(self).dat@,
                old(self).lazy@,
                old(self).spec_cap(),
                v as int,
                a as int,
                b as int,
            ),
        ensures
            final(self).arrays_ok(),
            final(self).length == old(self).length,
            wf_node(
                final(self).dat@,
                final(self).lazy@,
                old(self).spec_cap(),
                v as int,
                a as int,
                b as int,
            ),
            eff(final(self).dat@, final(self).lazy@, v as int, a as int, b as int)
                == updated_window(
                eff(old(self).dat@, old(self).lazy@, v as int, a as int, b as int),
                x,
                a as int,
                l as int,
                r as int,
            ),
            forall|j: int|
                0 <= j < old(self).dat@.len() && !is_anc(v as int, j) ==> final(self).dat@[j]
                    == old(self).dat@[j] && final(self).lazy@[j] == old(self).lazy@[j],
        decreases b - a,
    {
        let ghost cap = self.spec_cap();
        let ghost v_ = v as int;
        let ghost a_ = a as int;
        let ghost b_ = b as int;
        let ghost l_ = l as int;
        let ghost r_ = r as int;
        let ghost dat0 = self.dat@;
        let ghost lazy0 = self.lazy@;
        self.propagate(v, a, b);
        let ghost dat1 = self.dat@;
        let ghost lazy1 = self.lazy@;
        let ghost eff1 = eff(dat1, lazy1, v_, a_, b_);
        proof {
            lemma_eff_len(dat1, lazy1, v_, a_, b_);
            assert(is_anc(v_, v_));
            assert(is_anc(v_, 2 * v_ + 1));
            assert(is_anc(v_, 2 * v_ + 2));
        }
        if r <= a || b <= l {
            proof {
                lemma_updated_window_empty(eff1, x, a_, l_, r_);
            }
            return ;
        }
        if l <= a && b <= r {
            if v < self.length - 1 {
                let nl = self.lazy[v].op(&x);
                self.lazy.set(v, nl);
                proof {
                    U::lemma_unity(x);
                }
            }
            let nd = U::apply(&self.dat[v], &x, a, b);
            self.dat.set(v, nd);
            proof {
                let datf = self.dat@;
                let lazyf = self.lazy@;
                assert(datf[v_] == U::apply_spec(dat1[v_], x, a_, b_));
                assert forall|j: int|
                    0 <= j < 2 * cap - 1 && #[trigger] is_anc(v_, j) && j != v_ implies datf[j]
                    == dat1[j] && lazyf[j] == lazy1[j] by {}
                if b_ - a_ > 1 {
                    assert(lazyf[v_] == lazy1[v_].op_spec(x));
                } else {
                    assert(v_ >= cap - 1);
                    assert(lazyf[v_] == lazy1[v_]);
                }
                lemma_push_child(dat1, lazy1, datf, lazyf, cap, v_, a_, b_, x);
                lemma_updated_window_full(eff1, x, a_, l_, r_);
            }
            return ;
        }
        let m = a + (b - a) / 2;
        let lv = 2 * v + 1;
        let rv = 2 * v + 2;
        proof {
            assert(m as int == (a_ + b_) / 2);
            assert(b_ - a_ > 1);
        }
        let ghost m_ = m as int;
        let ghost lv_ = lv as int;
        let ghost rv_ = rv as int;
        self.range_update_(lv, a, m, l, r, x);
        let ghost dat2 = self.dat@;
        let ghost lazy2 = self.lazy@;
        proof {
            // the right subtree and `v` itself were untouched by the left call
            assert forall|j: int| 0 <= j < 2 * cap - 1 && #[trigger] is_anc(rv_, j) implies dat2[j]
                == dat1[j] && lazy2[j] == lazy1[j] by {
                lemma_anc_le(rv_, j);
                if is_anc(lv_, j) {
                    lemma_sibling_disjoint(v_, j);
                }
            }
            lemma_frame(dat2, lazy2, dat1, lazy1, cap, rv_, m_, b_);
            lemma_parent_not_in_child(v_, lv_);
        }
        self.range_update_(rv, m, b, l, r, x);
        let ghost dat3 = self.dat@;
        let ghost lazy3 = self.lazy@;
        proof {
            // the left subtree and `v` were untouched by the right call
            assert forall|j: int| 0 <= j < 2 * cap - 1 && #[trigger] is_anc(lv_, j) implies dat3[j]
                == dat2[j] && lazy3[j] == lazy2[j] by {
                lemma_anc_le(lv_, j);
                if is_anc(rv_, j) {
                    lemma_sibling_disjoint(v_, j);
                }
            }
            lemma_frame(dat3, lazy3, dat2, lazy2, cap, lv_, a_, m_);
            lemma_parent_not_in_child(v_, rv_);
            assert(lazy3[v_] == U::unity_spec());
        }
        if rv < 2 * self.length {
            let c = self.dat[lv].op(&self.dat[rv]);
            self.dat.set(v, c);
        }
        proof {
            let datf = self.dat@;
            let lazyf = self.lazy@;
            // the final write at `v` leaves both subtrees alone
            assert forall|j: int| 0 <= j < 2 * cap - 1 && #[trigger] is_anc(lv_, j) implies datf[j]
                == dat3[j] && lazyf[j] == lazy3[j] by {
                lemma_anc_le(lv_, j);
            }
            assert forall|j: int| 0 <= j < 2 * cap - 1 && #[trigger] is_anc(rv_, j) implies datf[j]
                == dat3[j] && lazyf[j] == lazy3[j] by {
                lemma_anc_le(rv_, j);
            }
            lemma_frame(datf, lazyf, dat3, lazy3, cap, lv_, a_, m_);
            lemma_frame(datf, lazyf, dat3, lazy3, cap, rv_, m_, b_);
            let el = eff(datf, lazyf, lv_, a_, m_);
            let er = eff(datf, lazyf, rv_, m_, b_);
            // assemble the effective leaves of v
            lemma_apply_each_unity::<T, U>(el + er, a_);
            assert(eff(datf, lazyf, v_, a_, b_) == el + er);
            let el1 = eff(dat1, lazy1, lv_, a_, m_);
            let er1 = eff(dat1, lazy1, rv_, m_, b_);
            lemma_apply_each_unity::<T, U>(el1 + er1, a_);
            assert(eff1 == el1 + er1);
            lemma_eff_len(dat1, lazy1, lv_, a_, m_);
            lemma_eff_len(dat1, lazy1, rv_, m_, b_);
            assert(el == updated_window(el1, x, a_, l_, r_));
            assert(er == updated_window(er1, x, m_, l_, r_));
            lemma_updated_window_concat(el1, er1, x, a_, l_, r_);
            // the recombined aggregate
            lemma_dat_agg(datf, lazyf, cap, lv_, a_, m_);
            lemma_dat_agg(datf, lazyf, cap, rv_, m_, b_);
            lemma_agg_concat(el, er);
            assert(datf[v_] == agg(eff(datf, lazyf, v_, a_, b_)));
            // nothing outside the subtree of v was touched at any step
            assert forall|j: int|
                0 <= j < dat0.len() && !is_anc(v_, j) implies datf[j] == dat0[j] && lazyf[j]
                == lazy0[j] by {
                if is_anc(lv_, j) {
                    lemma_anc_child(v_, lv_, j);
                }
                if is_anc(rv_, j) {
                    lemma_anc_child(v_, rv_, j);
                }
            }
        }
    }

    /// Overwrites the value at index `i`: the single-index case of a range
    /// update, descending with propagation and recombining on the way up.
    pub fn update(&mut self, i: usize, val: T)
        requires
            old(self).wf(),
            i < old(self).spec_len(),
        ensures
            final(self).wf(),
            final(self).spec_len() == old(self).spec_len(),
            final(self).leaves() == old(self).leaves().update(i as int, val),
    {
        let len = self.len();
        self.update_(0, 0, len, i, val);
    }

    /// Recursive worker: overwrites the leaf for index `i` inside the
    /// subtree at `v` covering `[l, r)`.
    fn update_(&mut self, v: usize, l: usize, r: usize, i: usize, val: T)
        requires
            old(self).arrays_ok(),
            l <= i < r,
            r <= old(self).spec_cap(),
            wf_node(
                old(self).dat@,
                old(self).lazy@,
                old(self).spec_cap(),
                v as int,
                l as int,
                r as int,
            ),
        ensures
            final(self).arrays_ok(),
            final(self).length == old(self).length,
            wf_node(
                final(self).dat@,
                final(self).lazy@,
                old(self).spec_cap(),
                v as int,
                l as int,
                r as int,
            ),
            eff(final(self).dat@, final(self).lazy@, v as int, l as int, r as int) == eff(
                old(self).dat@,
                old(self).lazy@,
                v as int,
                l as int,
                r as int,
            ).update(i - l, val),
            forall|j: int|
                0 <= j < old(self).dat@.len() && !is_anc(v as int, j) ==> final(self).dat@[j]
                    == old(self).dat@[j] && final(self).lazy@[j] == old(self).lazy@[j],
        decreases r - l,
    {
        let ghost cap = self.spec_cap();
        let ghost v_ = v as int;
        let ghost l_ = l as int;
        let ghost r_ = r as int;
        let ghost i_ = i as int;
        let ghost dat0 = self.dat@;
        let ghost lazy0 = self.lazy@;
        self.propagate(v, l, r);
        let ghost dat1 = self.dat@;
        let ghost lazy1 = self.lazy@;
        let ghost eff1 = eff(dat1, lazy1, v_, l_, r_);
        proof {
            lemma_eff_len(dat1, lazy1, v_, l_, r_);
            assert(is_anc(v_, v_));
            assert(is_anc(v_, 2 * v_ + 1));
            assert(is_anc(v_, 2 * v_ + 2));
        }
        if r - l == 1 {
            self.dat.set(v, val);
            proof {
                assert(eff(self.dat@, self.lazy@, v_, l_, r_) =~= eff1.update(i_ - l_, val));
            }
            return ;
        }
        let m = l + (r - l) / 2;
        let lv = 2 * v + 1;
        let rv = 2 * v + 2;
        proof {
            assert(m as int == (l_ + r_) / 2);
        }
        let ghost m_ = m as int;
        let ghost lv_ = lv as int;
        let ghost rv_ = rv as int;
        if i < m {
            self.update_(lv, l, m, i, val);
        } else {
            self.update_(rv, m, r, i, val);
        }
        let ghost dat2 = self.dat@;
        let ghost lazy2 = self.lazy@;
        proof {
            // the sibling subtree and `v` itself were untouched
            lemma_parent_not_in_child(v_, lv_);
            lemma_parent_not_in_child(v_, rv_);
            if i_ < m_ {
                assert forall|j: int| 0 <= j < 2 * cap - 1 && #[trigger] is_anc(rv_, j) implies
                    dat2[j] == dat1[j] && lazy2[j] == lazy1[j] by {
                    lemma_anc_le(rv_, j);
                    if is_anc(lv_, j) {
                        lemma_sibling_disjoint(v_, j);
                    }
                }
                lemma_frame(dat2, lazy2, dat1, lazy1, cap, rv_, m_, r_);
            } else {
                assert forall|j: int| 0 <= j < 2 * cap - 1 && #[trigger] is_anc(lv_, j) implies
                    dat2[j] == dat1[j] && lazy2[j] == lazy1[j] by {
                    lemma_anc_le(lv_, j);
                    if is_anc(rv_, j) {
                        lemma_sibling_disjoint(v_, j);
                    }
                }
                lemma_frame(dat2, lazy2, dat1, lazy1, cap, lv_, l_, m_);
            }
            assert(lazy2[v_] == U::unity_spec());
        }
        let c = self.dat[lv].op(&self.dat[rv]);
        self.dat.set(v, c);
        proof {
            let datf = self.dat@;
            let lazyf = self.lazy@;
            assert forall|j: int| 0 <= j < 2 * cap - 1 && #[trigger] is_anc(lv_, j) implies datf[j]
                == dat2[j] && lazyf[j] == lazy2[j] by {
                lemma_anc_le(lv_, j);
            }
            assert forall|j: int| 0 <= j < 2 * cap - 1 && #[trigger] is_anc(rv_, j) implies datf[j]
                == dat2[j] && lazyf[j] == lazy2[j] by {
                lemma_anc_le(rv_, j);
            }
            lemma_frame(datf, lazyf, dat2, lazy2, cap, lv_, l_, m_);
            lemma_frame(datf, lazyf, dat2, lazy2, cap, rv_, m_, r_);
            lemma_recombine(datf, lazyf, cap, v_, l_, r_);
            let el1 = eff(dat1, lazy1, lv_, l_, m_);
            let er1 = eff(dat1, lazy1, rv_, m_, r_);
            lemma_apply_each_unity::<T, U>(el1 + er1, l_);
            assert(eff1 == el1 + er1);
            lemma_eff_len(dat1, lazy1, lv_, l_, m_);
            lemma_eff_len(dat1, lazy1, rv_, m_, r_);
            assert(eff(datf, lazyf, v_, l_, r_) =~= eff1.update(i_ - l_, val));
            // nothing outside the subtree of v was touched
            assert forall|j: int|
                0 <= j < dat0.len() && !is_anc(v_, j) implies datf[j] == dat0[j] && lazyf[j]
                == lazy0[j] by {
                if is_anc(lv_, j) {
                    lemma_anc_child(v_, lv_, j);
                }
                if is_anc(rv_, j) {
                    lemma_anc_child(v_, rv_, j);
                }
            }
        }
    }

    /// Folds the effective values of `[l, r)` left to right; the empty
    /// window gives the identity.  Propagates along the way, so the tree
    /// mutates, but its effective leaves stay the same.
    pub fn query(&mut self, l: usize, r: usize) -> (res: T)
        requires
            old(self).wf(),
            l <= r,
            r <= old(self).spec_len(),
        ensures
            final(self).wf(),
            final(self).spec_len() == old(self).spec_len(),
            final(self).leaves() == old(self).leaves(),
            l < r ==> res == agg(old(self).leaves().subrange(l as int, r as int)),
            l == r ==> res == T::unity_spec(),
    {
        let len = self.len();
        let res = self.query_(l, r, 0, 0, len);
        proof {
            old(self).lemma_leaves_len();
            let s = old(self).leaves();
            if l < r {
                assert(window_agg(s, l as int, r as int) == agg(s.subrange(l as int, r as int)));
            }
        }
        res
    }

    /// Recursive worker: the fold of the effective values of the subtree at
    /// `i` covering `[a, b)`, clipped to the query window `[l, r)`.
    fn query_(&mut self, l: usize, r: usize, i: usize, a: usize, b: usize) -> (res: T)
        requires
            old(self).arrays_ok(),
            a < b <= old(self).spec_cap(),
            l <= r <= old(self).spec_cap(),
            wf_node(
                old(self).dat@,
                old(self).lazy@,
                old(self).spec_cap(),
                i as int,
                a as int,
                b as int,
            ),
        ensures
            final(self).arrays_ok(),
            final(self).length == old(self).length,
            wf_node(
                final(self).dat@,
                final(self).lazy@,
                old(self).spec_cap(),
                i as int,
                a as int,
                b as int,
            ),
            eff(final(self).dat@, final(self).lazy@, i as int, a as int, b as int) == eff(
                old(self).dat@,
                old(self).lazy@,
                i as int,
                a as int,
                b as int,
            ),
            forall|j: int|
                0 <= j < old(self).dat@.len() && !is_anc(i as int, j) ==> final(self).dat@[j]
                    == old(self).dat@[j] && final(self).lazy@[j] == old(self).lazy@[j],
            res == window_agg(
                eff(old(self).dat@, old(self).lazy@, i as int, a as int, b as int),
                l as int - a as int,
                r as int - a as int,
            ),
        decreases b - a,
    {
        let ghost cap = self.spec_cap();
        let ghost v_ = i as int;
        let ghost a_ = a as int;
        let ghost b_ = b as int;
        let ghost l_ = l as int;
        let ghost r_ = r as int;
        let ghost dat0 = self.dat@;
        let ghost lazy0 = self.lazy@;
        self.propagate(i, a, b);
        let ghost dat1 = self.dat@;
        let ghost lazy1 = self.lazy@;
        let ghost eff1 = eff(dat1, lazy1, v_, a_, b_);
        proof {
            lemma_eff_len(dat1, lazy1, v_, a_, b_);
            assert(is_anc(v_, v_));
            assert(is_anc(v_, 2 * v_ + 1));
            assert(is_anc(v_, 2 * v_ + 2));
        }
        if l <= a && b <= r {
            let res = self.dat[i];
            proof {
                lemma_dat_agg(dat1, lazy1, cap, v_, a_, b_);
                assert(eff1.subrange(0, b_ - a_) =~= eff1);
            }
            res
        } else if !(r <= a || b <= l) {
            let m = a + (b - a) / 2;
            let lv = i * 2 + 1;
            let rv = i * 2 + 2;
            proof {
                assert(m as int == (a_ + b_) / 2);
                assert(b_ - a_ > 1);
            }
            let ghost m_ = m as int;
            let ghost lv_ = lv as int;
            let ghost rv_ = rv as int;
            let retl = self.query_(l, r, lv, a, m);
            let ghost dat2 = self.dat@;
            let ghost lazy2 = self.lazy@;
            proof {
                assert forall|j: int| 0 <= j < 2 * cap - 1 && #[trigger] is_anc(rv_, j) implies
                    dat2[j] == dat1[j] && lazy2[j] == lazy1[j] by {
                    lemma_anc_le(rv_, j);
                    if is_anc(lv_, j) {
                        lemma_sibling_disjoint(v_, j);
                    }
                }
                lemma_frame(dat2, lazy2, dat1, lazy1, cap, rv_, m_, b_);
                lemma_parent_not_in_child(v_, lv_);
            }
            let retr = self.query_(l, r, rv, m, b);
            let ghost datf = self.dat@;
            let ghost lazyf = self.lazy@;
            proof {
                assert forall|j: int| 0 <= j < 2 * cap - 1 && #[trigger] is_anc(lv_, j) implies
                    datf[j] == dat2[j] && lazyf[j] == lazy2[j] by {
                    lemma_anc_le(lv_, j);
                    if is_anc(rv_, j) {
                        lemma_sibling_disjoint(v_, j);
                    }
                }
                lemma_frame(datf, lazyf, dat2, lazy2, cap, lv_, a_, m_);
                lemma_parent_not_in_child(v_, rv_);
                // v's slots are untouched by both recursive calls
                assert(datf[v_] == dat1[v_] && lazyf[v_] == U::unity_spec());
                let el1 = eff(dat1, lazy1, lv_, a_, m_);
                let er1 = eff(dat1, lazy1, rv_, m_, b_);
                lemma_apply_each_unity::<T, U>(el1 + er1, a_);
                assert(eff1 == el1 + er1);
                lemma_eff_len(dat1, lazy1, lv_, a_, m_);
                lemma_eff_len(dat1, lazy1, rv_, m_, b_);
                // both children kept their effective leaves, so v did too
                assert(eff(datf, lazyf, lv_, a_, m_) == el1);
                assert(eff(datf, lazyf, rv_, m_, b_) == er1);
                lemma_dat_agg(dat1, lazy1, cap, lv_, a_, m_);
                lemma_dat_agg(dat1, lazy1, cap, rv_, m_, b_);
                lemma_agg_concat(el1, er1);
                lemma_recombine(datf, lazyf, cap, v_, a_, b_);
                // the two clipped folds combine
                lemma_window_agg_concat(el1, er1, l_ - a_, r_ - a_);
                // frame against the state at entry
                assert forall|j: int|
                    0 <= j < dat0.len() && !is_anc(v_, j) implies datf[j] == dat0[j] && lazyf[j]
                    == lazy0[j] by {
                    if is_anc(lv_, j) {
                        lemma_anc_child(v_, lv_, j);
                    }
                    if is_anc(rv_, j) {
                        lemma_anc_child(v_, rv_, j);
                    }
                }
            }
            retl.op(&retr)
        } else {
            proof {
                T::lemma_unity(T::unity_spec());
            }
            T::unity()
        }
    }

    /// Builds a tree of at least `n` leaves, all holding `init`.  Every slot
    /// of the backing array starts as `init`, so the initial value must
    /// absorb itself under the combine — the identity of any monoid and any
    /// idempotent aggregate (min, max, ...) qualify.
    pub fn new(n: usize, init: T) -> (r: Self)
        requires
            1 <= n <= usize::MAX / 8,
            T::op_spec(init, init) == init,
        ensures
            r.wf(),
            n <= r.spec_len() < 2 * n,
            r.leaves() == Seq::new(r.spec_len() as nat, |k: int| init),
    {
        let mut len: usize = 1;
        while len < n
            invariant
                1 <= len < 2 * n,
                is_pow2(len as int),
                n <= usize::MAX / 8,
            decreases 2 * n - len,
        {
            len = len * 2;
        }
        let total = len * 2;
        let mut dat: Vec<T> = Vec::new();
        while dat.len() < total
            invariant
                dat@.len() <= total,
                forall|j: int| 0 <= j < dat@.len() ==> dat@[j] == init,
            decreases total - dat.len(),
        {
            dat.push(init);
        }
        let u = U::unity();
        let mut lazy: Vec<U> = Vec::new();
        while lazy.len() < total
            invariant
                lazy@.len() <= total,
                forall|j: int| 0 <= j < lazy@.len() ==> lazy@[j] == U::unity_spec(),
                u == U::unity_spec(),
            decreases total - lazy.len(),
        {
            lazy.push(u);
        }
        let r = LazySegmentTree { dat, lazy, length: len };
        proof {
            let cap = len as int;
            assert(cap * (0 + 1) == cap + 0) by (nonlinear_arith);
            assert(node_covers(cap, 0, 0, cap));
            lemma_all_init_wf(r.dat@, r.lazy@, cap, 0, 0, cap, init);
        }
        r
    }
}

/// A range update with the identity effect is a no-op: every subsequent
/// query sees the same effective leaves.
pub proof fn lemma_unity_range_update_noop<T: Monoid, U: Effect<T>>(
    pre: Seq<T>,
    base: int,
    l: int,
    r: int,
)
    ensures
        updated_window(pre, U::unity_spec(), base, l, r) == pre,
{
    assert forall|k: int| 0 <= k < pre.len() implies updated_window(
        pre,
        U::unity_spec(),
        base,
        l,
        r,
    )[k] == pre[k] by {
        U::lemma_apply_unity(pre[k], base + k, base + k + 1);
    }
    assert(updated_window(pre, U::unity_spec(), base, l, r) =~= pre);
}

/// Two range updates over the same window act like one update with the
/// composed effect.
pub proof fn lemma_range_update_compose<T: Monoid, U: Effect<T>>(
    pre: Seq<T>,
    e1: U,
    e2: U,
    base: int,
    l: int,
    r: int,
)
    ensures
        updated_window(updated_window(pre, e1, base, l, r), e2, base, l, r) == updated_window(
            pre,
            e1.op_spec(e2),
            base,
            l,
            r,
        ),
{
    assert forall|k: int| 0 <= k < pre.len() implies updated_window(
        updated_window(pre, e1, base, l, r),
        e2,
        base,
        l,
        r,
    )[k] == updated_window(pre, e1.op_spec(e2), base, l, r)[k] by {
        if l <= base + k < r {
            U::lemma_apply_compose(pre[k], e1, e2, base + k, base + k + 1);
        }
    }
    assert(updated_window(updated_window(pre, e1, base, l, r), e2, base, l, r) =~= updated_window(
        pre,
        e1.op_spec(e2),
        base,
        l,
        r,
    ));
}

/// A range update never changes a query over a window disjoint from it.
pub proof fn lemma_range_update_disjoint<T: Monoid, U: Effect<T>>(
    pre: Seq<T>,
    e: U,
    l1: int,
    r1: int,
    l2: int,
    r2: int,
)
    requires
        0 <= l2 <= r2 <= pre.len(),
        r1 <= l2 || r2 <= l1,
    ensures
        updated_window(pre, e, 0, l1, r1).subrange(l2, r2) == pre.subrange(l2, r2),
{
    assert(updated_window(pre, e, 0, l1, r1).subrange(l2, r2) =~= pre.subrange(l2, r2));
}

} // verus!

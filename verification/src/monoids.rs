//! Concrete algebras for the segment trees: sums (wrapping around at 2^64)
//! acted on by "add k to every element" effects, and minima acted on by
//! "assign x to every element" effects.

use vstd::prelude::*;

use vstd::arithmetic::div_mod::{lemma_add_mod_noop, lemma_add_mod_noop_right,
    lemma_mul_mod_noop_left};
use crate::lazy_segment_tree::Effect;
use crate::segtree::Monoid;

verus! {

/// 2^64, the wrap-around modulus of the sum algebras.
pub open spec fn m64() -> int {
    0x1_0000_0000_0000_0000
}

/// A sum aggregate: combining adds modulo 2^64, the identity is 0.
#[derive(Clone, Copy, PartialEq, Eq, Debug)]
pub struct SumVal {
    pub v: u64,
}

impl Monoid for SumVal {
    open spec fn unity_spec() -> Self {
        SumVal { v: 0 }
    }

    open spec fn op_spec(self, other: Self) -> Self {
        SumVal { v: (((self.v + other.v) % m64()) as u64) }
    }

    proof fn lemma_unity(a: Self) {
    }

    proof fn lemma_assoc(a: Self, b: Self, c: Self) {
        let m = m64();
        lemma_add_mod_noop(a.v + b.v, c.v as int, m);
        lemma_add_mod_noop_right(a.v as int, b.v + c.v, m);
    }

    fn unity() -> (r: Self) {
        SumVal { v: 0 }
    }

    fn op(&self, other: &Self) -> (r: Self) {
        SumVal { v: self.v.wrapping_add(other.v) }
    }
}

/// The effect "add `k` to every element of the range", for sums: it adds
/// `k` times the width of the range, modulo 2^64.  Effects compose by adding
/// their constants.
#[derive(Clone, Copy, PartialEq, Eq, Debug)]
pub struct AddEff {
    pub k: u64,
}

impl Monoid for AddEff {
    open spec fn unity_spec() -> Self {
        AddEff { k: 0 }
    }

    open spec fn op_spec(self, other: Self) -> Self {
        AddEff { k: (((self.k + other.k) % m64()) as u64) }
    }

    proof fn lemma_unity(a: Self) {
    }

    proof fn lemma_assoc(a: Self, b: Self, c: Self) {
        let m = m64();
        lemma_add_mod_noop(a.k + b.k, c.k as int, m);
        lemma_add_mod_noop_right(a.k as int, b.k + c.k, m);
    }

    fn unity() -> (r: Self) {
        AddEff { k: 0 }
    }

    fn op(&self, other: &Self) -> (r: Self) {
        AddEff { k: self.k.wrapping_add(other.k) }
    }
}

impl Effect<SumVal> for AddEff {
    open spec fn apply_spec(val: SumVal, e: Self, a: int, b: int) -> SumVal {
        SumVal { v: (((val.v + e.k * (b - a)) % m64()) as u64) }
    }

    proof fn lemma_apply_unity(val: SumVal, a: int, b: int) {
        assert(0 * (b - a) == 0);
    }

    proof fn lemma_apply_compose(val: SumVal, e1: Self, e2: Self, a: int, b: int) {
        let m = m64();
        let w = b - a;
        assert(e1.k * w + e2.k * w == (e1.k + e2.k) * w) by (nonlinear_arith);
        lemma_add_mod_noop_right(e2.k * w, val.v + e1.k * w, m);
        assert((((val.v + e1.k * w) % m) + e2.k * w) % m == (val.v + e1.k * w + e2.k * w) % m);
        lemma_mul_mod_noop_left(e1.k + e2.k, w, m);
        lemma_add_mod_noop_right(val.v as int, ((e1.k + e2.k) % m) * w, m);
        lemma_add_mod_noop_right(val.v as int, (e1.k + e2.k) * w, m);
    }

    proof fn lemma_apply_split(x: SumVal, y: SumVal, e: Self, a: int, m_: int, b: int) {
        let m = m64();
        let k = e.k as int;
        assert(k * (m_ - a) + k * (b - m_) == k * (b - a)) by (nonlinear_arith);
        lemma_add_mod_noop_right(e.k * (b - a), x.v + y.v, m);
        lemma_add_mod_noop(x.v + k * (m_ - a), y.v + k * (b - m_), m);
    }

    fn apply(val: &SumVal, e: &Self, a: usize, b: usize) -> (r: SumVal) {
        let w = (b - a) as u64;
        proof {
            lemma_mul_mod_noop_left(e.k as int, w as int, m64());
            lemma_add_mod_noop_right(val.v as int, e.k * w, m64());
        }
        SumVal { v: val.v.wrapping_add(e.k.wrapping_mul(w)) }
    }
}

/// A minimum aggregate: combining takes the smaller value, the identity is
/// `u64::MAX`.
#[derive(Clone, Copy, PartialEq, Eq, Debug)]
pub struct MinVal {
    pub v: u64,
}

impl Monoid for MinVal {
    open spec fn unity_spec() -> Self {
        MinVal { v: u64::MAX }
    }

    open spec fn op_spec(self, other: Self) -> Self {
        if self.v <= other.v {
            self
        } else {
            other
        }
    }

    proof fn lemma_unity(a: Self) {
    }

    proof fn lemma_assoc(a: Self, b: Self, c: Self) {
    }

    fn unity() -> (r: Self) {
        MinVal { v: u64::MAX }
    }

    fn op(&self, other: &Self) -> (r: Self) {
        if self.v <= other.v {
            *self
        } else {
            *other
        }
    }
}

/// The effect "assign `x` to every element of the range", for minima.  The
/// later assignment wins when two are composed; `Keep` is the no-op.
#[derive(Clone, Copy, PartialEq, Eq, Debug)]
pub enum AssignEff {
    Keep,
    Assign(u64),
}

impl Monoid for AssignEff {
    open spec fn unity_spec() -> Self {
        AssignEff::Keep
    }

    open spec fn op_spec(self, other: Self) -> Self {
        match other {
            AssignEff::Keep => self,
            AssignEff::Assign(_) => other,
        }
    }

    proof fn lemma_unity(a: Self) {
    }

    proof fn lemma_assoc(a: Self, b: Self, c: Self) {
    }

    fn unity() -> (r: Self) {
        AssignEff::Keep
    }

    fn op(&self, other: &Self) -> (r: Self) {
        match other {
            AssignEff::Keep => *self,
            AssignEff::Assign(_) => *other,
        }
    }
}

impl Effect<MinVal> for AssignEff {
    open spec fn apply_spec(val: MinVal, e: Self, a: int, b: int) -> MinVal {
        match e {
            AssignEff::Keep => val,
            AssignEff::Assign(x) => MinVal { v: x },
        }
    }

    proof fn lemma_apply_unity(val: MinVal, a: int, b: int) {
    }

    proof fn lemma_apply_compose(val: MinVal, e1: Self, e2: Self, a: int, b: int) {
    }

    proof fn lemma_apply_split(x: MinVal, y: MinVal, e: Self, a: int, m: int, b: int) {
    }

    fn apply(val: &MinVal, e: &Self, a: usize, b: usize) -> (r: MinVal) {
        match e {
            AssignEff::Keep => *val,
            AssignEff::Assign(x) => MinVal { v: *x },
        }
    }
}

} // verus!

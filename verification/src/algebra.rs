//! The algebraic trait ladder the numeric utilities are written against:
//! `Zero`/`One` name the distinguished elements, `Monoid` adds a combine,
//! `Group` subtraction and negation, `Ring` multiplication, `Field` division.
//! Every executable method is tied to a spec-level counterpart.  The integer
//! impls wrap around on overflow.

use vstd::prelude::*;

verus! {

pub trait Zero: Sized + Copy {
    /// The zero element, at the spec level.
    spec fn zero_spec() -> Self;

    /// The zero element, as a value.
    fn zero() -> (r: Self)
        ensures
            r == Self::zero_spec(),
    ;
}

pub trait One: Sized + Copy {
    /// The one element, at the spec level.
    spec fn one_spec() -> Self;

    /// The one element, as a value.
    fn one() -> (r: Self)
        ensures
            r == Self::one_spec(),
    ;
}

pub trait Monoid: Zero {
    /// The additive combine, at the spec level.
    spec fn plus_spec(self, other: Self) -> Self;

    /// The additive combine.
    fn plus(&self, other: &Self) -> (r: Self)
        ensures
            r == self.plus_spec(*other),
    ;
}

pub trait Group: Monoid {
    /// Negation, at the spec level.
    spec fn neg_spec(self) -> Self;

    /// Subtraction, at the spec level.
    spec fn minus_spec(self, other: Self) -> Self;

    /// Negation.
    fn negated(&self) -> (r: Self)
        ensures
            r == self.neg_spec(),
    ;

    /// Subtraction.
    fn minus(&self, other: &Self) -> (r: Self)
        ensures
            r == self.minus_spec(*other),
    ;
}

pub trait Ring: Group + One {
    /// Multiplication, at the spec level.
    spec fn times_spec(self, other: Self) -> Self;

    /// Multiplication.
    fn times(&self, other: &Self) -> (r: Self)
        ensures
            r == self.times_spec(*other),
    ;
}

pub trait Field: Ring {
    /// Whether the element has a multiplicative inverse.
    spec fn inv_ok(self) -> bool;

    /// Division, at the spec level; meaningful only when `other.inv_ok()`.
    spec fn div_spec(self, other: Self) -> Self;

    /// Division by an invertible element.
    fn divided_by(&self, other: &Self) -> (r: Self)
        requires
            other.inv_ok(),
        ensures
            r == self.div_spec(*other),
    ;
}

impl Zero for i64 {
    open spec fn zero_spec() -> i64 {
        0
    }

    fn zero() -> (r: i64) {
        0
    }
}

impl Monoid for i64 {
    open spec fn plus_spec(self, other: i64) -> i64 {
        vstd::wrapping::i64_specs::wrapping_add(self, other)
    }

    fn plus(&self, other: &i64) -> (r: i64) {
        self.wrapping_add(*other)
    }
}

impl Group for i64 {
    open spec fn neg_spec(self) -> i64 {
        vstd::wrapping::i64_specs::wrapping_sub(0, self)
    }

    open spec fn minus_spec(self, other: i64) -> i64 {
        vstd::wrapping::i64_specs::wrapping_sub(self, other)
    }

    fn negated(&self) -> (r: i64) {
        0i64.wrapping_sub(*self)
    }

    fn minus(&self, other: &i64) -> (r: i64) {
        self.wrapping_sub(*other)
    }
}

impl One for i64 {
    open spec fn one_spec() -> i64 {
        1
    }

    fn one() -> (r: i64) {
        1
    }
}

impl Ring for i64 {
    open spec fn times_spec(self, other: i64) -> i64 {
        vstd::wrapping::i64_specs::wrapping_mul(self, other)
    }

    fn times(&self, other: &i64) -> (r: i64) {
        self.wrapping_mul(*other)
    }
}

impl Zero for i32 {
    open spec fn zero_spec() -> i32 {
        0
    }

    fn zero() -> (r: i32) {
        0
    }
}

impl Monoid for i32 {
    open spec fn plus_spec(self, other: i32) -> i32 {
        vstd::wrapping::i32_specs::wrapping_add(self, other)
    }

    fn plus(&self, other: &i32) -> (r: i32) {
        self.wrapping_add(*other)
    }
}

impl Group for i32 {
    open spec fn neg_spec(self) -> i32 {
        vstd::wrapping::i32_specs::wrapping_sub(0, self)
    }

    open spec fn minus_spec(self, other: i32) -> i32 {
        vstd::wrapping::i32_specs::wrapping_sub(self, other)
    }

    fn negated(&self) -> (r: i32) {
        0i32.wrapping_sub(*self)
    }

    fn minus(&self, other: &i32) -> (r: i32) {
        self.wrapping_sub(*other)
    }
}

} // verus!

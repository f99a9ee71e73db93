//! Modular arithmetic: integers modulo a compile-time modulus `M`, with the
//! usual ring operations, fast exponentiation, and inverses through the
//! extended Euclidean algorithm.  `ModInt` fixes the modulus `10^9 + 7`.

use vstd::arithmetic::div_mod::{lemma_fundamental_div_mod, lemma_mod_multiples_vanish,
    lemma_mul_mod_noop_left, lemma_mul_mod_noop_right};
use vstd::arithmetic::power::{lemma_pow0, lemma_pow1, lemma_pow_adds, lemma_pow_mod_noop,
    lemma_pow_multiplies, lemma_square_is_pow2, pow};
use vstd::prelude::*;

use crate::algebra::{Field, Group, Monoid, One, Ring, Zero};
use crate::number::{bezout_spec, extgcd, gcd_spec};

verus! {

/// An integer modulo `M`, stored normalized to `[0, M)`.  The modulus must
/// stay below 2^31 so that a product of two residues fits in an `i64`.
#[derive(Clone, Copy, PartialEq, Eq, Debug, Hash)]
pub struct Mint<const M: u64> {
    pub val: i64,
}

/// The modulus bound every operation relies on.
pub open spec fn m_ok(m: u64) -> bool {
    2 <= m <= 0x4000_0000
}

impl<const M: u64> Mint<M> {
    /// Normalized to the canonical residue range.
    pub open spec fn wf(self) -> bool {
        0 <= self.val < M
    }

    /// Builds the residue of `x`; `%` on `int` is the mathematical
    /// (euclidean) remainder.
    pub fn new(x: i64) -> (r: Self)
        requires
            m_ok(M),
        ensures
            r.wf(),
            r.val == (x as int) % (M as int),
    {
        let m = M as i64;
        let t = match x.checked_rem(m) {
            Some(v) => v,
            None => 0,
        };
        proof {
            let x_ = x as int;
            let m_ = m as int;
            vstd::arithmetic::div_mod::lemma_mod_bound(x_, m_);
            if x_ < 0 {
                let k = (0 - x_) % m_;
                lemma_fundamental_div_mod(0 - x_, m_);
                let q = (0 - x_) / m_;
                assert(t == 0 - k);
                if k == 0 {
                    assert(x_ == (0 - q) * m_ + 0) by (nonlinear_arith)
                        requires
                            0 - x_ == q * m_ + k,
                            k == 0,
                    ;
                    vstd::arithmetic::div_mod::lemma_fundamental_div_mod_converse_mod(
                        x_,
                        m_,
                        0 - q,
                        0,
                    );
                } else {
                    assert(x_ == (0 - q - 1) * m_ + (m_ - k)) by (nonlinear_arith)
                        requires
                            0 - x_ == q * m_ + k,
                    ;
                    vstd::arithmetic::div_mod::lemma_fundamental_div_mod_converse_mod(
                        x_,
                        m_,
                        0 - q - 1,
                        m_ - k,
                    );
                }
            } else if x_ == 0 {
                vstd::arithmetic::div_mod::lemma_small_mod(0nat, M as nat);
            }
            assert(t < 0 ==> t + m == x_ % m_);
            assert(t >= 0 ==> t == x_ % m_);
        }
        if t < 0 {
            Mint { val: t + m }
        } else {
            Mint { val: t }
        }
    }

    /// Addition modulo `M`.
    pub fn add(&self, y: &Self) -> (r: Self)
        requires
            m_ok(M),
            self.wf(),
            y.wf(),
        ensures
            r.wf(),
            r.val == (self.val + y.val) % (M as int),
    {
        let m = M as i64;
        let t = self.val + y.val;
        if t >= m {
            proof {
                vstd::arithmetic::div_mod::lemma_mod_sub_multiples_vanish(t as int, m as int);
                vstd::arithmetic::div_mod::lemma_small_mod((t - m) as nat, M as nat);
            }
            Mint { val: t - m }
        } else {
            proof {
                vstd::arithmetic::div_mod::lemma_small_mod(t as nat, M as nat);
            }
            Mint { val: t }
        }
    }

    /// Subtraction modulo `M`.
    pub fn sub(&self, y: &Self) -> (r: Self)
        requires
            m_ok(M),
            self.wf(),
            y.wf(),
        ensures
            r.wf(),
            r.val == (self.val - y.val) % (M as int),
    {
        let m = M as i64;
        let t = self.val - y.val;
        if t < 0 {
            proof {
                vstd::arithmetic::div_mod::lemma_mod_add_multiples_vanish(t as int, m as int);
                vstd::arithmetic::div_mod::lemma_small_mod((t + m) as nat, M as nat);
            }
            Mint { val: t + m }
        } else {
            proof {
                vstd::arithmetic::div_mod::lemma_small_mod(t as nat, M as nat);
            }
            Mint { val: t }
        }
    }

    /// Multiplication modulo `M`.
    pub fn mul(&self, y: &Self) -> (r: Self)
        requires
            m_ok(M),
            self.wf(),
            y.wf(),
        ensures
            r.wf(),
            r.val == (self.val * y.val) % (M as int),
    {
        let m = M as i64;
        proof {
            assert(self.val * y.val <= 0x4000_0000 * 0x4000_0000) by (nonlinear_arith)
                requires
                    0 <= self.val <= 0x4000_0000,
                    0 <= y.val <= 0x4000_0000,
            ;
            assert(self.val * y.val >= 0) by (nonlinear_arith)
                requires
                    0 <= self.val,
                    0 <= y.val,
            ;
        }
        let t = self.val * y.val;
        Mint { val: t % m }
    }

    /// The additive inverse modulo `M`.
    pub fn neg(&self) -> (r: Self)
        requires
            m_ok(M),
            self.wf(),
        ensures
            r.wf(),
            r.val == (0 - self.val) % (M as int),
    {
        let m = M as i64;
        if self.val == 0 {
            proof {
                vstd::arithmetic::div_mod::lemma_small_mod(0nat, M as nat);
            }
            Mint { val: 0 }
        } else {
            proof {
                vstd::arithmetic::div_mod::lemma_mod_add_multiples_vanish(
                    0 - self.val,
                    m as int,
                );
                vstd::arithmetic::div_mod::lemma_small_mod((m - self.val) as nat, M as nat);
            }
            Mint { val: m - self.val }
        }
    }

    /// Fast exponentiation: square and multiply over the bits of `x`.
    pub fn pow(&self, x: i64) -> (r: Self)
        requires
            m_ok(M),
            self.wf(),
            0 <= x,
        ensures
            r.wf(),
            r.val == pow(self.val as int, x as nat) % (M as int),
    {
        let one = Mint::<M> { val: 1 };
        let mut res = one;
        let mut tmp = x as u64;
        let mut p = *self;
        proof {
            lemma_pow0(self.val as int);
            lemma_pow_adds(self.val as int, 0, x as nat);
            vstd::arithmetic::div_mod::lemma_small_mod(1nat, M as nat);
            lemma_mul_mod_noop_right(
                res.val as int,
                pow(p.val as int, tmp as nat),
                M as int,
            );
        }
        while tmp != 0
            invariant
                m_ok(M),
                res.wf(),
                p.wf(),
                (res.val * pow(p.val as int, tmp as nat)) % (M as int) == pow(
                    self.val as int,
                    x as nat,
                ) % (M as int),
            decreases tmp,
        {
            let ghost resv = res.val as int;
            let ghost pv = p.val as int;
            let ghost t = tmp as nat;
            let ghost m_int = M as int;
            if tmp & 1 == 1 {
                res = res.mul(&p);
            }
            proof {
                assert(tmp & 1 == tmp % 2) by (bit_vector);
                assert(tmp >> 1 == tmp / 2) by (bit_vector);
                // pow(p, t) == pow(p*p, t/2) * pow(p, t % 2)
                lemma_pow_multiplies(pv, 2, (t / 2) as nat);
                lemma_pow_adds(pv, (2 * (t / 2)) as nat, (t % 2) as nat);
                lemma_pow0(pv);
                lemma_pow1(pv);
                lemma_square_is_pow2(pv);
                // fold both updates back under the modulus
                if t % 2 == 1 {
                    lemma_mul_mod_noop_left(resv * pv, pow((pv * pv) as int, (t / 2) as nat), m_int);
                    assert((resv * pv) % m_int * pow((pv * pv) as int, (t / 2) as nat) == (res.val
                        as int) * pow((pv * pv) as int, (t / 2) as nat));
                    assert(pow(pv, t) == pow((pv * pv) as int, (t / 2) as nat) * pow(pv, 1));
                    assert(resv * pv * pow((pv * pv) as int, (t / 2) as nat) == resv * pow(
                        pv,
                        t,
                    )) by (nonlinear_arith)
                        requires
                            pow(pv, t) == pow((pv * pv) as int, (t / 2) as nat) * pv,
                    ;
                } else {
                    assert(resv * pow((pv * pv) as int, (t / 2) as nat) == resv * pow(pv, t))
                        by (nonlinear_arith)
                        requires
                            pow(pv, t) == pow((pv * pv) as int, (t / 2) as nat),
                    ;
                }
                // the new p is (p*p) % m; pull the reduction out
                lemma_mul_mod_noop_right(pv, pv, m_int);
            }
            tmp = tmp >> 1;
            let newp = p.mul(&p);
            proof {
                let pv2 = newp.val as int;
                lemma_pow_mod_noop(pv * pv, tmp as nat, m_int);
                assert(pv2 == (pv * pv) % m_int);
                lemma_mul_mod_noop_right(res.val as int, pow(pv2, tmp as nat), m_int);
                lemma_mul_mod_noop_right(res.val as int, pow((pv * pv) as int, tmp as nat), m_int);
            }
            p = newp;
        }
        proof {
            lemma_pow0(p.val as int);
            vstd::arithmetic::div_mod::lemma_small_mod(res.val as nat, M as nat);
        }
        res
    }

    /// The multiplicative inverse, for residues coprime to the modulus,
    /// through the extended Euclidean algorithm.
    pub fn inv(&self) -> (r: Self)
        requires
            m_ok(M),
            self.wf(),
            self.val != 0,
            gcd_spec(self.val as int, M as int) == 1,
        ensures
            r.wf(),
            (self.val * r.val) % (M as int) == 1,
            r.val == bezout_spec(self.val as int, M as int).0 % (M as int),
    {
        let m = M as i64;
        let (u, v) = extgcd(self.val, m);
        let r = Self::new(u);
        proof {
            let m_int = M as int;
            let a = self.val as int;
            let u_ = u as int;
            let v_ = v as int;
            assert(a * u_ + m_int * v_ == 1);
            lemma_mul_mod_noop_right(a, u_, m_int);
            assert(r.val == u_ % m_int);
            lemma_mod_multiples_vanish(0 - v_, 1, m_int);
            assert(m_int * (0 - v_) + 1 == a * u_) by (nonlinear_arith)
                requires
                    a * u_ + m_int * v_ == 1,
            ;
            vstd::arithmetic::div_mod::lemma_small_mod(1nat, M as nat);
            assert((self.val * r.val) % m_int == 1);
        }
        r
    }
}

/// The modint everything in this crate uses: modulus `10^9 + 7`.
pub type ModInt = Mint<1_000_000_007>;

/// Shorthand constructor for `ModInt`.
pub fn mint(x: i64) -> (r: ModInt)
    ensures
        r.wf(),
        r.val == (x as int) % 1_000_000_007,
{
    ModInt::new(x)
}

/// Types that can be built from a plain integer.
pub trait MapToi64: Sized {
    /// What the embedding produces.
    spec fn map_spec(x: i64) -> Self;

    /// Embeds a plain integer.
    fn map_to_number(x: i64) -> (r: Self)
        ensures
            r == Self::map_spec(x),
    ;
}

impl MapToi64 for ModInt {
    open spec fn map_spec(x: i64) -> ModInt {
        Mint { val: (((x as int) % 1_000_000_007) as i64) }
    }

    fn map_to_number(x: i64) -> (r: ModInt) {
        ModInt::new(x)
    }
}

/// The residue of the Bezout coefficient: the canonical inverse of `x`
/// modulo `m`, for `x` coprime to `m`.
pub open spec fn inv_spec(x: int, m: int) -> int {
    crate::number::bezout_spec(x, m).0 % m
}

impl Monoid for ModInt {
    open spec fn plus_spec(self, other: ModInt) -> ModInt {
        Mint { val: (((self.val + other.val) % 1_000_000_007) as i64) }
    }

    fn plus(&self, other: &ModInt) -> (r: ModInt) {
        let a = ModInt::new(self.val);
        let b = ModInt::new(other.val);
        proof {
            vstd::arithmetic::div_mod::lemma_add_mod_noop(
                self.val as int,
                other.val as int,
                1_000_000_007,
            );
        }
        a.add(&b)
    }
}

impl Group for ModInt {
    open spec fn neg_spec(self) -> ModInt {
        Mint { val: (((0 - self.val) % 1_000_000_007) as i64) }
    }

    open spec fn minus_spec(self, other: ModInt) -> ModInt {
        Mint { val: (((self.val - other.val) % 1_000_000_007) as i64) }
    }

    fn negated(&self) -> (r: ModInt) {
        let a = ModInt::new(self.val);
        proof {
            vstd::arithmetic::div_mod::lemma_sub_mod_noop(0, self.val as int, 1_000_000_007);
            vstd::arithmetic::div_mod::lemma_small_mod(0nat, 1_000_000_007);
        }
        a.neg()
    }

    fn minus(&self, other: &ModInt) -> (r: ModInt) {
        let a = ModInt::new(self.val);
        let b = ModInt::new(other.val);
        proof {
            vstd::arithmetic::div_mod::lemma_sub_mod_noop(
                self.val as int,
                other.val as int,
                1_000_000_007,
            );
        }
        a.sub(&b)
    }
}

impl Ring for ModInt {
    open spec fn times_spec(self, other: ModInt) -> ModInt {
        Mint { val: (((self.val * other.val) % 1_000_000_007) as i64) }
    }

    fn times(&self, other: &ModInt) -> (r: ModInt) {
        let a = ModInt::new(self.val);
        let b = ModInt::new(other.val);
        proof {
            vstd::arithmetic::div_mod::lemma_mul_mod_noop(
                self.val as int,
                other.val as int,
                1_000_000_007,
            );
        }
        a.mul(&b)
    }
}

impl Field for ModInt {
    open spec fn inv_ok(self) -> bool {
        &&& self.wf()
        &&& self.val != 0
        &&& gcd_spec(self.val as int, 1_000_000_007) == 1
    }

    open spec fn div_spec(self, other: ModInt) -> ModInt {
        Mint { val: (((self.val * inv_spec(other.val as int, 1_000_000_007)) % 1_000_000_007)
            as i64) }
    }

    fn divided_by(&self, other: &ModInt) -> (r: ModInt) {
        let a = ModInt::new(self.val);
        let b = other.inv();
        proof {
            lemma_mul_mod_noop_left(self.val as int, b.val as int, 1_000_000_007);
        }
        a.mul(&b)
    }
}

impl Zero for ModInt {
    open spec fn zero_spec() -> ModInt {
        Mint { val: 0 }
    }

    fn zero() -> (r: ModInt) {
        Mint { val: 0 }
    }
}

impl One for ModInt {
    open spec fn one_spec() -> ModInt {
        Mint { val: 1 }
    }

    fn one() -> (r: ModInt) {
        Mint { val: 1 }
    }
}

} // verus!

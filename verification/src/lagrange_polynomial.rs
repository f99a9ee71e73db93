//! Lagrange interpolation over the prime-modulus field: coefficients are
//! precomputed from the sample points, and evaluation sums the partial
//! products, falling back to the stored value on an exact key hit.

use vstd::prelude::*;

use crate::algebra::{Field, Group, Monoid, One, Ring, Zero};
use crate::modint::{Mint, ModInt};

verus! {

/// The denominator of sample `i` over the first `j` sample keys: the
/// product of `x_i - x_t` over `t < j` with `x_t != x_i`.
pub open spec fn denom(values: Seq<(ModInt, ModInt)>, i: int, j: int) -> ModInt
    decreases j,
{
    if j <= 0 {
        Mint { val: 1 }
    } else {
        let p = denom(values, i, j - 1);
        if values[j - 1].0 == values[i].0 {
            p
        } else {
            p.times_spec(values[i].0.minus_spec(values[j - 1].0))
        }
    }
}

/// The last position below `j` whose key is `x`, or `-1`.
pub open spec fn last_match(values: Seq<(ModInt, ModInt)>, x: ModInt, j: int) -> int
    decreases j,
{
    if j <= 0 {
        -1
    } else if values[j - 1].0 == x {
        j - 1
    } else {
        last_match(values, x, j - 1)
    }
}

/// The product of `x - x_t` over the first `j` sample keys.
pub open spec fn mul_all(values: Seq<(ModInt, ModInt)>, x: ModInt, j: int) -> ModInt
    decreases j,
{
    if j <= 0 {
        Mint { val: 1 }
    } else {
        mul_all(values, x, j - 1).times_spec(x.minus_spec(values[j - 1].0))
    }
}

/// The interpolation sum over the first `j` samples: each term is
/// `c_t * (full product) / (x - x_t)`.
pub open spec fn lag_sum(
    c: Seq<ModInt>,
    values: Seq<(ModInt, ModInt)>,
    x: ModInt,
    j: int,
) -> ModInt
    decreases j,
{
    if j <= 0 {
        Mint { val: 0 }
    } else {
        lag_sum(c, values, x, j - 1).plus_spec(
            c[j - 1].times_spec(mul_all(values, x, values.len() as int)).div_spec(
                x.minus_spec(values[j - 1].0),
            ),
        )
    }
}

/// A key match, when found, sits inside the searched prefix.
proof fn lemma_last_match_range(values: Seq<(ModInt, ModInt)>, x: ModInt, j: int)
    requires
        j >= 0,
    ensures
        -1 <= last_match(values, x, j) < j,
    decreases j,
{
    if j > 0 {
        lemma_last_match_range(values, x, j - 1);
    }
}

/// Sample points with their precomputed interpolation coefficients.
pub struct LagrangePolynomial {
    c: Vec<ModInt>,
    values: Vec<(ModInt, ModInt)>,
}

impl LagrangePolynomial {
    /// The sample points.
    pub closed spec fn samples(&self) -> Seq<(ModInt, ModInt)> {
        self.values@
    }

    /// The precomputed coefficients.
    pub closed spec fn coeffs(&self) -> Seq<ModInt> {
        self.c@
    }

    /// Coefficient `i` is `y_i` divided by sample `i`'s denominator.
    pub closed spec fn wf(&self) -> bool {
        &&& self.c@.len() == self.values@.len()
        &&& forall|i: int|
            0 <= i < self.c@.len() ==> #[trigger] self.c@[i] == self.values@[i].1.div_spec(
                denom(self.values@, i, self.values@.len() as int),
            )
    }

    /// Precomputes one coefficient per sample.  Every sample's denominator
    /// must be invertible; over the prime modulus that holds whenever no
    /// two distinct samples share a key and no difference reduces to zero.
    pub fn new(values: Vec<(ModInt, ModInt)>) -> (r: LagrangePolynomial)
        requires
            forall|i: int|
                0 <= i < values@.len() ==> #[trigger] denom(
                    values@,
                    i,
                    values@.len() as int,
                ).inv_ok(),
        ensures
            r.wf(),
            r.samples() == values@,
    {
        let n = values.len();
        let mut c: Vec<ModInt> = Vec::new();
        let mut i: usize = 0;
        while i < n
            invariant
                i <= n == values@.len(),
                c@.len() == i,
                forall|k: int|
                    0 <= k < values@.len() ==> #[trigger] denom(
                        values@,
                        k,
                        values@.len() as int,
                    ).inv_ok(),
                forall|k: int|
                    0 <= k < i ==> #[trigger] c@[k] == values@[k].1.div_spec(
                        denom(values@, k, values@.len() as int),
                    ),
            decreases n - i,
        {
            let mut mul: ModInt = ModInt::one();
            let mut t: usize = 0;
            while t < n
                invariant
                    t <= n == values@.len(),
                    i < n,
                    mul == denom(values@, i as int, t as int),
                decreases n - t,
            {
                if values[t].0.val != values[i].0.val {
                    mul = mul.times(&values[i].0.minus(&values[t].0));
                }
                t = t + 1;
            }
            let num = values[i].1.divided_by(&mul);
            c.push(num);
            i = i + 1;
        }
        LagrangePolynomial { c, values }
    }

    /// Evaluates the interpolant at `x`: the stored value on an exact key
    /// hit (the last such sample wins), otherwise the interpolation sum.
    /// Away from a hit every difference `x - x_t` must be invertible.
    pub fn calc(&self, x: ModInt) -> (r: ModInt)
        requires
            self.wf(),
            last_match(self.samples(), x, self.samples().len() as int) < 0 ==> forall|t: int|
                0 <= t < self.samples().len() ==> (#[trigger] x.minus_spec(
                    self.samples()[t].0,
                )).inv_ok(),
        ensures
            ({
                let m = last_match(self.samples(), x, self.samples().len() as int);
                if m >= 0 {
                    r == self.samples()[m].1
                } else {
                    r == lag_sum(self.coeffs(), self.samples(), x, self.samples().len() as int)
                }
            }),
    {
        let n = self.values.len();
        let mut found: Option<usize> = None;
        let mut k: usize = 0;
        while k < n
            invariant
                k <= n == self.values@.len(),
                found == (if last_match(self.values@, x, k as int) >= 0 {
                    Some(last_match(self.values@, x, k as int) as usize)
                } else {
                    Option::<usize>::None
                }),
            decreases n - k,
        {
            if self.values[k].0.val == x.val {
                found = Some(k);
            }
            k = k + 1;
        }
        proof {
            lemma_last_match_range(self.values@, x, n as int);
        }
        match found {
            Some(idx) => self.values[idx].1,
            None => {
                let mut mul: ModInt = ModInt::one();
                let mut t: usize = 0;
                while t < n
                    invariant
                        t <= n == self.values@.len(),
                        mul == mul_all(self.values@, x, t as int),
                    decreases n - t,
                {
                    mul = mul.times(&x.minus(&self.values[t].0));
                    t = t + 1;
                }
                let mut sum: ModInt = ModInt::zero();
                let mut t: usize = 0;
                while t < n
                    invariant
                        t <= n == self.values@.len() == self.c@.len(),
                        mul == mul_all(self.values@, x, n as int),
                        sum == lag_sum(self.c@, self.values@, x, t as int),
                        last_match(self.values@, x, n as int) < 0,
                        forall|q: int|
                            0 <= q < self.values@.len() ==> (#[trigger] x.minus_spec(
                                self.values@[q].0,
                            )).inv_ok(),
                    decreases n - t,
                {
                    let term = self.c[t].times(&mul).divided_by(&x.minus(&self.values[t].0));
                    sum = sum.add(&term);
                    proof {
                        vstd::arithmetic::div_mod::lemma_small_mod(
                            sum.val as nat,
                            1_000_000_007nat,
                        );
                    }
                    t = t + 1;
                }
                sum
            },
        }
    }
}

/// The residue of an arbitrary integer, as the constructor computes it.
pub open spec fn mfrom(v: int) -> ModInt {
    Mint { val: ((v % 1_000_000_007) as i64) }
}

/// The product of `-1, -2, .., -(n-1)` in the field: the first scan state
/// of the equally-spaced constructor.
pub open spec fn neg_fact_prefix(j: int) -> ModInt
    decreases j,
{
    if j <= 1 {
        Mint { val: 1 }
    } else {
        neg_fact_prefix(j - 1).times_spec(mfrom(-(j - 1)))
    }
}

/// The scan state before element `i` is processed: each step past element
/// `x` (except the last) multiplies by `x + 1` and divides by `x - (n-1)`.
pub open spec fn scan_mul(n: int, i: int) -> ModInt
    decreases i,
{
    if i <= 0 {
        neg_fact_prefix(n)
    } else if i - 1 == n - 1 {
        scan_mul(n, i - 1)
    } else {
        scan_mul(n, i - 1).times_spec(mfrom(i - 1).plus_spec(mfrom(1))).div_spec(
            mfrom(1 - n).plus_spec(mfrom(i - 1)),
        )
    }
}

impl LagrangePolynomial {
    /// Builds the interpolant of samples at the keys `0, 1, .., n-1` in a
    /// single scan: coefficient `i` is `y_i` divided by the scan state.
    /// Every scan state and every step divisor must be invertible; over the
    /// prime modulus that holds for any `n` below the modulus.
    pub fn fast_new(values: Vec<ModInt>) -> (r: LagrangePolynomial)
        requires
            values@.len() < 1_000_000_007,
            forall|i: int|
                0 <= i < values@.len() ==> (#[trigger] scan_mul(
                    values@.len() as int,
                    i,
                )).inv_ok(),
            forall|i: int|
                0 <= i < values@.len() - 1 ==> (#[trigger] mfrom(
                    1 - values@.len() as int,
                ).plus_spec(mfrom(i))).inv_ok(),
        ensures
            r.samples() == Seq::new(
                values@.len(),
                |i: int| (mfrom(i), values@[i as int]),
            ),
            r.coeffs().len() == values@.len(),
            forall|i: int|
                0 <= i < values@.len() ==> #[trigger] r.coeffs()[i] == values@[i].div_spec(
                    scan_mul(values@.len() as int, i),
                ),
    {
        let n = values.len();
        let mut pts: Vec<(ModInt, ModInt)> = Vec::new();
        let mut i: usize = 0;
        while i < n
            invariant
                i <= n == values@.len() < 1_000_000_007,
                pts@.len() == i,
                forall|k: int| 0 <= k < i ==> #[trigger] pts@[k] == (mfrom(k), values@[k]),
            decreases n - i,
        {
            let key = ModInt::new(i as i64);
            pts.push((key, values[i]));
            i = i + 1;
        }
        let mut mul: ModInt = ModInt::one();
        let mut x: usize = 1;
        while x < n
            invariant
                1 <= x,
                x <= n || x == 1,
                n < 1_000_000_007,
                mul == neg_fact_prefix(x as int),
            decreases n - x,
        {
            mul = mul.times(&ModInt::new(0 - (x as i64)));
            x = x + 1;
        }
        proof {
            if n <= 1 {
                assert(mul == neg_fact_prefix(n as int));
            }
        }
        let mut c: Vec<ModInt> = Vec::new();
        let mut i: usize = 0;
        while i < n
            invariant
                i <= n == values@.len() < 1_000_000_007,
                c@.len() == i,
                mul == scan_mul(n as int, i as int),
                forall|k: int|
                    0 <= k < n ==> (#[trigger] scan_mul(n as int, k)).inv_ok(),
                forall|k: int|
                    0 <= k < n - 1 ==> (#[trigger] mfrom(1 - n as int).plus_spec(
                        mfrom(k),
                    )).inv_ok(),
                forall|k: int|
                    0 <= k < i ==> #[trigger] c@[k] == values@[k].div_spec(
                        scan_mul(n as int, k),
                    ),
            decreases n - i,
        {
            let ret = values[i].divided_by(&mul);
            c.push(ret);
            if i != n - 1 {
                let xkey = ModInt::new(i as i64);
                let t1 = xkey.plus(&ModInt::new(1));
                let t2 = ModInt::new(0 - (n as i64) + 1).plus(&xkey);
                proof {
                    vstd::arithmetic::div_mod::lemma_small_mod(i as nat, 1_000_000_007nat);
                    vstd::arithmetic::div_mod::lemma_small_mod(1nat, 1_000_000_007nat);
                    assert(xkey == mfrom(i as int) && t1 == mfrom(i as int).plus_spec(mfrom(1)));
                    assert(t2 == mfrom(1 - n as int).plus_spec(mfrom(i as int)));
                }
                mul = mul.times(&t1).divided_by(&t2);
            }
            i = i + 1;
        }
        let r = LagrangePolynomial { c, values: pts };
        proof {
            assert(r.samples() =~= Seq::new(
                values@.len(),
                |k: int| (mfrom(k), values@[k as int]),
            ));
        }
        r
    }
}

} // verus!

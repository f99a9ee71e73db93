//! Binomial-coefficient queries over a field: factorials and inverse
//! factorials are tabulated once, and each query is a three-factor product.

use vstd::prelude::*;

use crate::algebra::{Field, One, Ring};
use crate::modint::MapToi64;

verus! {

/// The factorial of `n` in `T`, built through the integer embedding.
pub open spec fn fact_spec<T: Field + MapToi64>(n: int) -> T
    decreases n,
{
    if n <= 0 {
        T::one_spec()
    } else {
        fact_spec::<T>(n - 1).times_spec(T::map_spec(n as i64))
    }
}

/// The inverse-factorial table entry for `i`, unrolled from the top:
/// entry `n` is `1 / n!`, and entry `i` is entry `i + 1` times `i + 1`.
pub open spec fn fact_inv_spec<T: Field + MapToi64>(i: int, n: int) -> T
    decreases n - i,
{
    if i >= n {
        T::one_spec().div_spec(fact_spec::<T>(n))
    } else {
        fact_inv_spec::<T>(i + 1, n).times_spec(T::map_spec((i + 1) as i64))
    }
}

/// Tables of factorials and inverse factorials up to a fixed `n`.
pub struct ConvQuery<T: Field + MapToi64> {
    fac: Vec<T>,
    facinv: Vec<T>,
}

impl<T: Field + MapToi64 + Copy> ConvQuery<T> {
    /// The tabulated bound: tables go up to index `bound()` inclusive.
    pub closed spec fn bound(&self) -> int {
        self.fac@.len() - 1
    }

    pub closed spec fn wf(&self) -> bool {
        &&& self.fac@.len() >= 1
        &&& self.facinv@.len() == self.fac@.len()
        &&& forall|i: int| 0 <= i < self.fac@.len() ==> #[trigger] self.fac@[i] == fact_spec::<
            T,
        >(i)
        &&& forall|i: int|
            0 <= i < self.facinv@.len() ==> #[trigger] self.facinv@[i] == fact_inv_spec::<T>(
                i,
                self.bound(),
            )
    }

    /// Tabulates factorials `0! ..= n!` and their inverses.  The one
    /// division performed is by `n!`, so that value must be invertible; in a
    /// field of prime order that holds whenever `n` is below the modulus.
    pub fn new(n: usize) -> (r: Self)
        requires
            n < 0x4000_0000,
            fact_spec::<T>(n as int).inv_ok(),
        ensures
            r.wf(),
            r.bound() == n,
    {
        let mut fac: Vec<T> = Vec::new();
        fac.push(T::one());
        let mut x: usize = 1;
        while x < n + 1
            invariant
                1 <= x <= n + 1,
                n < 0x4000_0000,
                fac@.len() == x,
                forall|i: int| 0 <= i < x ==> #[trigger] fac@[i] == fact_spec::<T>(i),
            decreases n + 1 - x,
        {
            let last = fac[x - 1];
            let num = last.times(&T::map_to_number(x as i64));
            fac.push(num);
            x = x + 1;
        }
        // build the inverse table from the top down, then flip it over
        let mut rev: Vec<T> = Vec::new();
        let mut num = T::one().divided_by(&fac[n]);
        rev.push(num);
        let mut i: usize = n;
        while i > 0
            invariant
                i <= n,
                n < 0x4000_0000,
                rev@.len() == n - i + 1,
                forall|k: int| 0 <= k < rev@.len() ==> #[trigger] rev@[k] == fact_inv_spec::<T>(
                    n - k,
                    n as int,
                ),
            decreases i,
        {
            let top = rev[n - i];
            num = top.times(&T::map_to_number(i as i64));
            rev.push(num);
            i = i - 1;
        }
        let mut facinv: Vec<T> = Vec::new();
        while facinv.len() < n + 1
            invariant
                facinv@.len() <= n + 1,
                rev@.len() == n + 1,
                n < 0x4000_0000,
                forall|k: int| 0 <= k < rev@.len() ==> #[trigger] rev@[k] == fact_inv_spec::<T>(
                    n - k,
                    n as int,
                ),
                forall|k: int| 0 <= k < facinv@.len() ==> #[trigger] facinv@[k]
                    == fact_inv_spec::<T>(k, n as int),
            decreases n + 1 - facinv.len(),
        {
            let k = facinv.len();
            facinv.push(rev[n - k]);
        }
        ConvQuery { fac, facinv }
    }

    /// The binomial coefficient `C(n, m)` as the three-factor product
    /// `n! * (n-m)!^-1 * m!^-1`.
    pub fn query(&self, n: usize, m: usize) -> (r: T)
        requires
            self.wf(),
            m <= n <= self.bound(),
        ensures
            r == fact_spec::<T>(n as int).times_spec(
                fact_inv_spec::<T>(n - m, self.bound()),
            ).times_spec(fact_inv_spec::<T>(m as int, self.bound())),
    {
        let a = self.fac[n].times(&self.facinv[n - m]);
        a.times(&self.facinv[m])
    }
}

} // verus!

//! Number-theoretic helpers: greatest common divisor, the extended Euclidean
//! algorithm, and a prime sieve.

use vstd::arithmetic::div_mod::{lemma_fundamental_div_mod, lemma_mod_add_multiples_vanish,
    lemma_mod_multiples_basic};
use vstd::pervasive::VecAdditionalExecFns;
use vstd::prelude::*;

verus! {

/// Euclid's recursion; `gcd_spec(x, 0) == x`.
pub open spec fn gcd_spec(x: int, y: int) -> int
    decreases y,
{
    if y <= 0 {
        x
    } else {
        gcd_spec(y, x % y)
    }
}

/// Greatest common divisor by Euclid's algorithm.
pub fn gcd(x: i64, y: i64) -> (r: i64)
    requires
        0 <= x,
        0 <= y,
    ensures
        r == gcd_spec(x as int, y as int),
    decreases y,
{
    if y == 0 {
        x
    } else {
        gcd(y, x % y)
    }
}

/// The Bezout coefficients the extended Euclidean recursion produces.
pub open spec fn bezout_spec(a: int, b: int) -> (int, int)
    decreases b,
{
    if b <= 1 {
        (0, 1)
    } else {
        let p = bezout_spec(b, a % b);
        (p.1, p.0 - a / b * p.1)
    }
}

/// Extended Euclid for coprime inputs: returns `(s, t)` with
/// `a*s + b*t == 1`, with the classical bounds on the coefficients.
pub fn extgcd(a: i64, b: i64) -> (r: (i64, i64))
    requires
        0 <= a <= 0x3fff_ffff_ffff_ffff,
        1 <= b <= 0x3fff_ffff_ffff_ffff,
        gcd_spec(a as int, b as int) == 1,
    ensures
        a * r.0 + b * r.1 == 1,
        (r.0 as int, r.1 as int) == bezout_spec(a as int, b as int),
        -b <= r.0 <= b,
        -(if a >= 1 { a as int } else { 1 }) <= r.1 <= (if a >= 1 { a as int } else { 1 }),
    decreases b,
{
    if b == 1 {
        (0, 1)
    } else {
        proof {
            // a % b == 0 or a == 0 would force gcd == b >= 2
            if a % b == 0 {
                assert(gcd_spec(a as int, b as int) == gcd_spec(b as int, 0));
                assert(gcd_spec(b as int, 0) == b);
            }
            assert(a % b >= 1);
            if a == 0 {
                vstd::arithmetic::div_mod::lemma_small_mod(0, b as nat);
            }
            assert(a >= 1);
        }
        let (x, y) = extgcd(b, a % b);
        let t = a / b;
        proof {
            let ai = a as int;
            let bi = b as int;
            let xi = x as int;
            let yi = y as int;
            let ti = ai / bi;
            let ri = ai % bi;
            lemma_fundamental_div_mod(ai, bi);
            assert(ai - bi * ti == ri);
            assert(bi * xi + ri * yi == 1);
            assert(ai * yi + bi * (xi - ti * yi) == bi * xi + (ai - bi * ti) * yi)
                by (nonlinear_arith);
            // coefficient bounds, which also rule out overflow
            assert(0 <= ti * yi <= ai - ri || 0 >= ti * yi >= -(ai - ri)) by (nonlinear_arith)
                requires
                    ai == bi * ti + ri,
                    -bi <= yi <= bi,
                    0 <= ti,
                    1 <= bi,
                    0 <= ri,
            ;
            assert(-(ai) <= xi - ti * yi <= ai);
        }
        (y, x - t * y)
    }
}

/// Nothing below 2 is prime; otherwise primality means no proper divisor.
pub open spec fn is_prime(p: int) -> bool {
    p >= 2 && forall|d: int| 2 <= d < p ==> #[trigger] (p % d) != 0
}

/// `q` has survived sieving by every candidate below `i`: it is at least 2
/// and no `d` with `2 <= d < i` properly divides it.
pub open spec fn unmarked(q: int, i: int) -> bool {
    q >= 2 && forall|d: int| 2 <= d < i && d < q ==> #[trigger] (q % d) != 0
}

/// The sieve's state in the middle of striking out the multiples of `i`:
/// everything sieved for candidates below `i`, and the multiples of `i` from
/// `2*i` up to (but not including) `j` already struck.
pub open spec fn sieve_mid(resv: Seq<bool>, m: int, i: int, j: int) -> bool {
    forall|q: int|
        0 <= q < m ==> resv[q] == (unmarked(q, i) && !(q % i == 0 && 2 * i <= q < j))
}

/// Divisibility is transitive: a divisor of a divisor divides.
proof fn lemma_div_trans(q: int, i: int, d: int)
    requires
        2 <= d,
        2 <= i,
        i % d == 0,
        q % i == 0,
        q >= 0,
    ensures
        q % d == 0,
{
    lemma_fundamental_div_mod(q, i);
    lemma_fundamental_div_mod(i, d);
    let qi = q / i;
    let id = i / d;
    assert(q == i * qi);
    assert(i == d * id);
    assert(q == (qi * id) * d) by (nonlinear_arith)
        requires
            q == i * qi,
            i == d * id,
    ;
    lemma_mod_multiples_basic(qi * id, d);
}

/// A composite number has a divisor no larger than its square root.
proof fn lemma_small_factor(q: int)
    requires
        q >= 2,
        !is_prime(q),
    ensures
        exists|d: int| 2 <= d && d * d <= q && #[trigger] (q % d) == 0,
{
    let d0 = choose|d: int| 2 <= d < q && #[trigger] (q % d) == 0;
    assert(2 <= d0 < q && q % d0 == 0);
    if d0 * d0 <= q {
        assert(2 <= d0 && d0 * d0 <= q && q % d0 == 0);
    } else {
        lemma_fundamental_div_mod(q, d0);
        let d1 = q / d0;
        assert(q == d0 * d1);
        assert(d1 >= 2) by (nonlinear_arith)
            requires
                q == d0 * d1,
                2 <= d0 < q,
                d0 * d0 > q,
                q >= 2,
        ;
        assert(d1 * d1 <= q) by (nonlinear_arith)
            requires
                q == d0 * d1,
                d0 * d0 > q,
                d1 >= 1,
                d0 >= 1,
        ;
        lemma_mod_multiples_basic(d1, d0);
        assert(q % d0 == 0);
        lemma_fundamental_div_mod(q, d1);
        assert(q % d1 == 0) by (nonlinear_arith)
            requires
                q == d0 * d1,
                q == d1 * (q / d1) + q % d1,
                0 <= q % d1 < d1,
                d1 >= 2,
        ;
        assert(2 <= d1 && d1 * d1 <= q && q % d1 == 0);
    }
}

/// Once every candidate up to the square root has been sieved, the
/// survivors are exactly the primes.
proof fn lemma_sieved_is_prime(q: int, i: int)
    requires
        2 <= i,
        q < i * i,
        0 <= q,
    ensures
        unmarked(q, i) == is_prime(q),
{
    if q >= 2 {
        if unmarked(q, i) && !is_prime(q) {
            lemma_small_factor(q);
            let d = choose|d: int| 2 <= d && d * d <= q && #[trigger] (q % d) == 0;
            assert(d < i) by (nonlinear_arith)
                requires
                    d * d <= q,
                    q < i * i,
                    d >= 2,
                    i >= 2,
            ;
            assert(d < q) by (nonlinear_arith)
                requires
                    d * d <= q,
                    d >= 2,
            ;
            assert(q % d != 0);
        }
    }
}

/// Two multiples of `i` less than `i` apart are the same multiple.
proof fn lemma_same_multiple(q: int, j: int, i: int)
    requires
        i >= 1,
        q % i == 0,
        j % i == 0,
        j <= q < j + i,
    ensures
        q == j,
{
    lemma_fundamental_div_mod(q, i);
    lemma_fundamental_div_mod(j, i);
    assert(q == j) by (nonlinear_arith)
        requires
            q == i * (q / i),
            j == i * (j / i),
            j <= q < j + i,
            i >= 1,
    ;
}

/// Sieve of Eratosthenes: marks exactly the primes up to `n`, inclusive.
pub fn eratosthenes(n: usize) -> (res: Vec<bool>)
    requires
        n < 0x4000_0000,
    ensures
        res.len() == n + 1,
        forall|p: int| 0 <= p <= n ==> res[p] == is_prime(p),
{
    let m = n + 1;
    let mut res: Vec<bool> = Vec::new();
    while res.len() < m
        invariant
            res@.len() <= m,
            forall|j: int| 0 <= j < res@.len() ==> res@[j] == (j >= 2),
        decreases m - res.len(),
    {
        let v = res.len() >= 2;
        res.push(v);
    }
    let mut i: usize = 2;
    while i <= m / i
        invariant
            2 <= i <= 0x8002,
            m == n + 1 <= 0x4000_0000,
            res@.len() == m,
            forall|q: int| 0 <= q < m ==> res@[q] == unmarked(q, i as int),
        decreases m - i,
    {
        let ghost i_ = i as int;
        proof {
            lemma_fundamental_div_mod(m as int, i_);
            assert(i * i <= m) by (nonlinear_arith)
                requires
                    i_ <= (m as int) / i_,
                    m as int == i_ * ((m as int) / i_) + (m as int) % i_,
                    0 <= (m as int) % i_,
                    2 <= i_,
                    i_ == i as int && m as int == m as int,
            ;
            assert(i < m) by (nonlinear_arith)
                requires
                    i * i <= m,
                    i >= 2,
            ;
        }
        if res[i] {
            let mut j = i * 2;
            proof {
                lemma_mod_multiples_basic(2, i_);
                assert(sieve_mid(res@, m as int, i_, 2 * i_));
            }
            while j < m
                invariant
                    2 <= i <= 0x8002,
                    res@.len() == m <= 0x4000_0000,
                    i * 2 <= j <= m + i,
                    (j as int) % (i as int) == 0,
                    sieve_mid(res@, m as int, i as int, j as int),
                decreases m + i - j,
            {
                let ghost i_ = i as int;
                let ghost j_ = j as int;
                let ghost pre = res@;
                res.set(j, false);
                proof {
                    lemma_mod_add_multiples_vanish(j_, i_);
                    assert forall|q: int|
                        0 <= q < m implies res@[q] == (unmarked(q, i_) && !(q % i_ == 0 && 2 * i_
                        <= q < j_ + i_)) by {
                        assert(pre[q] == (unmarked(q, i_) && !(q % i_ == 0 && 2 * i_ <= q < j_)));
                        if q == j_ {
                            assert(res@[q] == false);
                            assert(j_ % i_ == 0 && 2 * i_ <= j_ < j_ + i_);
                        } else {
                            assert(res@[q] == pre[q]);
                            assert(pre[q] == (unmarked(q, i_) && !(q % i_ == 0 && 2 * i_ <= q
                                < j_)));
                            if q % i_ == 0 && j_ < q < j_ + i_ {
                                lemma_same_multiple(q, j_, i_);
                                assert(false);
                            }
                        }
                    }
                    assert(sieve_mid(res@, m as int, i_, j_ + i_));
                }
                j = j + i;
            }
            proof {
                assert forall|q: int| 0 <= q < m implies res@[q] == unmarked(q, i_ + 1) by {
                    assert(res@[q] == (unmarked(q, i_) && !(q % i_ == 0 && 2 * i_ <= q)));
                    if unmarked(q, i_) && !(q % i_ == 0 && 2 * i_ <= q) {
                        // nothing below i + 1 divides q either
                        assert forall|d: int| 2 <= d < i_ + 1 && d < q implies #[trigger] (q % d)
                            != 0 by {
                            if d == i_ {
                                if q % i_ == 0 && i_ < q {
                                    lemma_fundamental_div_mod(q, i_);
                                    assert(q >= 2 * i_) by (nonlinear_arith)
                                        requires
                                            q == i_ * (q / i_) + q % i_,
                                            q % i_ == 0,
                                            i_ < q,
                                            i_ >= 2,
                                    ;
                                }
                            }
                        }
                        assert(unmarked(q, i_ + 1));
                    } else if unmarked(q, i_) {
                        // q is a struck multiple of i, so i itself refutes it
                        assert(q % i_ == 0 && 2 * i_ <= q);
                        assert(2 <= i_ < i_ + 1 && i_ < q);
                        assert(!unmarked(q, i_ + 1));
                    } else {
                        // already out below i; the witness still applies
                        if unmarked(q, i_ + 1) {
                            assert(unmarked(q, i_));
                        }
                    }
                }
            }
        } else {
            proof {
                // i is composite: any divisor of it below i also divides
                // every multiple of i, so sieving by i adds nothing new
                assert(!unmarked(i_, i_));
                let d = choose|d: int| 2 <= d < i_ && d < i_ && #[trigger] (i_ % d) == 0;
                assert(2 <= d < i_ && i_ % d == 0);
                assert forall|q: int| 0 <= q < m implies res@[q] == unmarked(q, i_ + 1) by {
                    if unmarked(q, i_) {
                        assert forall|dd: int| 2 <= dd < i_ + 1 && dd < q implies #[trigger] (q
                            % dd) != 0 by {
                            if dd == i_ && q % i_ == 0 {
                                lemma_div_trans(q, i_, d);
                                assert(d < q);
                                assert(q % d != 0);
                            }
                        }
                        assert(unmarked(q, i_ + 1));
                    } else {
                        if unmarked(q, i_ + 1) {
                            assert(unmarked(q, i_));
                        }
                    }
                }
            }
        }
        proof {
            assert(i <= 0x8000) by (nonlinear_arith)
                requires
                    i * i <= m,
                    m <= 0x4000_0000,
                    i >= 2,
            ;
        }
        i = i + 1;
    }
    proof {
        let i_ = i as int;
        lemma_fundamental_div_mod(m as int, i_);
        assert(m < i * i) by (nonlinear_arith)
            requires
                i_ > (m as int) / i_,
                m as int == i_ * ((m as int) / i_) + (m as int) % i_,
                0 <= (m as int) % i_ < i_,
                2 <= i_,
                i_ == i as int,
        ;
        assert forall|p: int| 0 <= p <= n implies res@[p] == is_prime(p) by {
            assert(p < i * i);
            lemma_sieved_is_prime(p, i_);
        }
    }
    res
}

} // verus!

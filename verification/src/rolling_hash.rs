//! A triple polynomial rolling hash over three prime moduli: prefix hashes
//! are tabulated once, and any substring hash is recovered in constant time
//! from two prefixes and a power of the inverse base.

use vstd::arithmetic::div_mod::{lemma_add_mod_noop_right, lemma_mul_mod_noop_left,
    lemma_mul_mod_noop_right, lemma_small_mod};
use vstd::arithmetic::power::{lemma_pow0, lemma_pow1, lemma_pow_adds, pow};
use vstd::prelude::*;

use crate::modint::{inv_spec, Mint, ModInt};
use crate::number::gcd_spec;

verus! {

/// The three moduli.
pub const HM0: i64 = 1_000_000_007;

pub const HM1: i64 = 1_000_000_009;

pub const HM2: i64 = 999_999_937;

/// The three bases: the words the fixed-seed xorshift generator below emits.
pub const HB0: i64 = 305172714;

pub const HB1: i64 = 717412916;

pub const HB2: i64 = 535345545;

/// The polynomial hash of the first `i` bytes of `s`:
/// `s[0] + s[1]*b + .. + s[i-1]*b^(i-1)`, modulo `m`.
pub open spec fn poly_hash(s: Seq<u8>, b: int, m: int, i: int) -> int
    decreases i,
{
    if i <= 0 {
        0
    } else {
        (poly_hash(s, b, m, i - 1) + s[i - 1] * pow(b, (i - 1) as nat)) % m
    }
}

/// Each base is coprime to its modulus (checked step by step through
/// Euclid's recursion on the fixed values).
pub proof fn lemma_bases_coprime()
    ensures
        gcd_spec(HB0 as int, HM0 as int) == 1,
        gcd_spec(HB1 as int, HM1 as int) == 1,
        gcd_spec(HB2 as int, HM2 as int) == 1,
{
    assert(gcd_spec(305172714, 1000000007) == gcd_spec(1000000007, 305172714));
    assert(gcd_spec(1000000007, 305172714) == gcd_spec(305172714, 84481865));
    assert(gcd_spec(305172714, 84481865) == gcd_spec(84481865, 51727119));
    assert(gcd_spec(84481865, 51727119) == gcd_spec(51727119, 32754746));
    assert(gcd_spec(51727119, 32754746) == gcd_spec(32754746, 18972373));
    assert(gcd_spec(32754746, 18972373) == gcd_spec(18972373, 13782373));
    assert(gcd_spec(18972373, 13782373) == gcd_spec(13782373, 5190000));
    assert(gcd_spec(13782373, 5190000) == gcd_spec(5190000, 3402373));
    assert(gcd_spec(5190000, 3402373) == gcd_spec(3402373, 1787627));
    assert(gcd_spec(3402373, 1787627) == gcd_spec(1787627, 1614746));
    assert(gcd_spec(1787627, 1614746) == gcd_spec(1614746, 172881));
    assert(gcd_spec(1614746, 172881) == gcd_spec(172881, 58817));
    assert(gcd_spec(172881, 58817) == gcd_spec(58817, 55247));
    assert(gcd_spec(58817, 55247) == gcd_spec(55247, 3570));
    assert(gcd_spec(55247, 3570) == gcd_spec(3570, 1697));
    assert(gcd_spec(3570, 1697) == gcd_spec(1697, 176));
    assert(gcd_spec(1697, 176) == gcd_spec(176, 113));
    assert(gcd_spec(176, 113) == gcd_spec(113, 63));
    assert(gcd_spec(113, 63) == gcd_spec(63, 50));
    assert(gcd_spec(63, 50) == gcd_spec(50, 13));
    assert(gcd_spec(50, 13) == gcd_spec(13, 11));
    assert(gcd_spec(13, 11) == gcd_spec(11, 2));
    assert(gcd_spec(11, 2) == gcd_spec(2, 1));
    assert(gcd_spec(2, 1) == gcd_spec(1, 0));
    assert(gcd_spec(1, 0) == 1);
    assert(gcd_spec(717412916, 1000000009) == gcd_spec(1000000009, 717412916));
    assert(gcd_spec(1000000009, 717412916) == gcd_spec(717412916, 282587093));
    assert(gcd_spec(717412916, 282587093) == gcd_spec(282587093, 152238730));
    assert(gcd_spec(282587093, 152238730) == gcd_spec(152238730, 130348363));
    assert(gcd_spec(152238730, 130348363) == gcd_spec(130348363, 21890367));
    assert(gcd_spec(130348363, 21890367) == gcd_spec(21890367, 20896528));
    assert(gcd_spec(21890367, 20896528) == gcd_spec(20896528, 993839));
    assert(gcd_spec(20896528, 993839) == gcd_spec(993839, 25909));
    assert(gcd_spec(993839, 25909) == gcd_spec(25909, 9297));
    assert(gcd_spec(25909, 9297) == gcd_spec(9297, 7315));
    assert(gcd_spec(9297, 7315) == gcd_spec(7315, 1982));
    assert(gcd_spec(7315, 1982) == gcd_spec(1982, 1369));
    assert(gcd_spec(1982, 1369) == gcd_spec(1369, 613));
    assert(gcd_spec(1369, 613) == gcd_spec(613, 143));
    assert(gcd_spec(613, 143) == gcd_spec(143, 41));
    assert(gcd_spec(143, 41) == gcd_spec(41, 20));
    assert(gcd_spec(41, 20) == gcd_spec(20, 1));
    assert(gcd_spec(20, 1) == gcd_spec(1, 0));
    assert(gcd_spec(1, 0) == 1);
    assert(gcd_spec(535345545, 999999937) == gcd_spec(999999937, 535345545));
    assert(gcd_spec(999999937, 535345545) == gcd_spec(535345545, 464654392));
    assert(gcd_spec(535345545, 464654392) == gcd_spec(464654392, 70691153));
    assert(gcd_spec(464654392, 70691153) == gcd_spec(70691153, 40507474));
    assert(gcd_spec(70691153, 40507474) == gcd_spec(40507474, 30183679));
    assert(gcd_spec(40507474, 30183679) == gcd_spec(30183679, 10323795));
    assert(gcd_spec(30183679, 10323795) == gcd_spec(10323795, 9536089));
    assert(gcd_spec(10323795, 9536089) == gcd_spec(9536089, 787706));
    assert(gcd_spec(9536089, 787706) == gcd_spec(787706, 83617));
    assert(gcd_spec(787706, 83617) == gcd_spec(83617, 35153));
    assert(gcd_spec(83617, 35153) == gcd_spec(35153, 13311));
    assert(gcd_spec(35153, 13311) == gcd_spec(13311, 8531));
    assert(gcd_spec(13311, 8531) == gcd_spec(8531, 4780));
    assert(gcd_spec(8531, 4780) == gcd_spec(4780, 3751));
    assert(gcd_spec(4780, 3751) == gcd_spec(3751, 1029));
    assert(gcd_spec(3751, 1029) == gcd_spec(1029, 664));
    assert(gcd_spec(1029, 664) == gcd_spec(664, 365));
    assert(gcd_spec(664, 365) == gcd_spec(365, 299));
    assert(gcd_spec(365, 299) == gcd_spec(299, 66));
    assert(gcd_spec(299, 66) == gcd_spec(66, 35));
    assert(gcd_spec(66, 35) == gcd_spec(35, 31));
    assert(gcd_spec(35, 31) == gcd_spec(31, 4));
    assert(gcd_spec(31, 4) == gcd_spec(4, 3));
    assert(gcd_spec(4, 3) == gcd_spec(3, 1));
    assert(gcd_spec(3, 1) == gcd_spec(1, 0));
    assert(gcd_spec(1, 0) == 1);
}

/// Runs the fixed-seed xorshift generator three times; the outputs are the
/// fixed words the bases are reduced from.
fn base_words() -> (r: (i32, i32, i32))
    ensures
        r.0 == 305172714i32,
        r.1 == 717412916i32,
        r.2 == 1535345482i32,
{
    let mut x: i32 = 123456789;
    let mut y: i32 = 362436069;
    let mut z: i32 = 521288629;
    let mut w: i32 = 886751233;
    let mut t: i32;

    t = x ^ (x << 11);
    x = y;
    y = z;
    z = w;
    w = (w ^ (w >> 19)) ^ (t ^ (t >> 8));
    let r0 = w & 0x7fffffff;
    proof {
        assert(123456789i32 ^ (123456789i32 << 11) == -650943211i32) by (bit_vector);
        assert((886751233i32 ^ (886751233i32 >> 19)) ^ (-650943211i32 ^ (-650943211i32 >> 8))
            == 305172714i32) by (bit_vector);
        assert(305172714i32 & 0x7fffffff == 305172714i32) by (bit_vector);
    }

    t = x ^ (x << 11);
    x = y;
    y = z;
    z = w;
    w = (w ^ (w >> 19)) ^ (t ^ (t >> 8));
    let r1 = w & 0x7fffffff;
    proof {
        assert(362436069i32 ^ (362436069i32 << 11) == -952795675i32) by (bit_vector);
        assert((305172714i32 ^ (305172714i32 >> 19)) ^ (-952795675i32 ^ (-952795675i32 >> 8))
            == 717412916i32) by (bit_vector);
        assert(717412916i32 & 0x7fffffff == 717412916i32) by (bit_vector);
    }

    t = x ^ (x << 11);
    x = y;
    y = z;
    z = w;
    w = (w ^ (w >> 19)) ^ (t ^ (t >> 8));
    let r2 = w & 0x7fffffff;
    proof {
        assert(521288629i32 ^ (521288629i32 << 11) == -1898998859i32) by (bit_vector);
        assert((717412916i32 ^ (717412916i32 >> 19)) ^ (-1898998859i32 ^ (-1898998859i32 >> 8))
            == 1535345482i32) by (bit_vector);
        assert(1535345482i32 & 0x7fffffff == 1535345482i32) by (bit_vector);
    }
    (r0, r1, r2)
}

/// One table step: folding byte `s[i]` scaled by the tabulated power into
/// the running prefix hash, entirely under the modulus.
proof fn lemma_hash_step(s: Seq<u8>, b: int, m: int, i: int, valv: int, tv: int)
    requires
        m >= 2,
        0 <= i < s.len(),
        valv == poly_hash(s, b, m, i),
        tv == pow(b, i as nat) % m,
    ensures
        (valv + (s[i] * tv) % m) % m == poly_hash(s, b, m, i + 1),
{
    lemma_mul_mod_noop_right(s[i] as int, pow(b, i as nat), m);
    vstd::arithmetic::div_mod::lemma_mod_twice(s[i] * pow(b, i as nat), m);
    lemma_add_mod_noop_right(valv, (s[i] * pow(b, i as nat)) % m, m);
    lemma_add_mod_noop_right(valv, s[i] * pow(b, i as nat), m);
}

/// One power step: multiplying the tabulated power by the base advances the
/// exponent.
proof fn lemma_pow_step(b: int, m: int, i: int, tv: int)
    requires
        m >= 2,
        i >= 0,
        tv == pow(b, i as nat) % m,
        0 <= b < m,
    ensures
        (tv * b) % m == pow(b, (i + 1) as nat) % m,
{
    lemma_mul_mod_noop_left(pow(b, i as nat), b, m);
    lemma_pow_adds(b, i as nat, 1);
    lemma_pow1(b);
}

/// A substring hash recovered from two prefix hashes: the difference of the
/// prefixes, shifted down by the `l`-th power of the inverse base.
pub open spec fn range_hash(s: Seq<u8>, b: int, m: int, l: int, r: int) -> int {
    ((poly_hash(s, b, m, r) - poly_hash(s, b, m, l)) % m * (pow(inv_spec(b, m), l as nat) % m)) % m
}

/// Prefix-hash tables for a byte string under three independent moduli.
pub struct RolllingHash {
    b0: ModInt,
    b1: Mint<1_000_000_009>,
    b2: Mint<999_999_937>,
    table: Vec<(ModInt, Mint<1_000_000_009>, Mint<999_999_937>)>,
    power_inv: Vec<(ModInt, Mint<1_000_000_009>, Mint<999_999_937>)>,
    src: Ghost<Seq<u8>>,
}

impl RolllingHash {
    /// The hashed bytes.
    pub closed spec fn bytes(&self) -> Seq<u8> {
        self.src@
    }

    pub closed spec fn wf(&self) -> bool {
        let n = self.src@.len() as int;
        &&& self.table@.len() == n + 1
        &&& self.power_inv@.len() == n + 1
        &&& forall|i: int|
            0 <= i <= n ==> {
                let e = #[trigger] self.table@[i];
                &&& e.0.wf() && e.0.val == poly_hash(self.src@, HB0 as int, HM0 as int, i)
                &&& e.1.wf() && e.1.val == poly_hash(self.src@, HB1 as int, HM1 as int, i)
                &&& e.2.wf() && e.2.val == poly_hash(self.src@, HB2 as int, HM2 as int, i)
            }
        &&& forall|i: int|
            0 <= i <= n ==> {
                let e = #[trigger] self.power_inv@[i];
                &&& e.0.wf() && e.0.val == pow(inv_spec(HB0 as int, HM0 as int), i as nat) % (
                HM0 as int)
                &&& e.1.wf() && e.1.val == pow(inv_spec(HB1 as int, HM1 as int), i as nat) % (
                HM1 as int)
                &&& e.2.wf() && e.2.val == pow(inv_spec(HB2 as int, HM2 as int), i as nat) % (
                HM2 as int)
            }
    }

    /// Tabulates the prefix hashes of `s` and the powers of the inverse
    /// bases.
    pub fn new(s: &[u8]) -> (r: RolllingHash)
        ensures
            r.wf(),
            r.bytes() == s@,
    {
        let words = base_words();
        let b0 = ModInt::new(words.0 as i64);
        let b1 = Mint::<1_000_000_009>::new(words.1 as i64);
        let b2 = Mint::<999_999_937>::new(words.2 as i64);
        proof {
            lemma_small_mod(305172714nat, 1_000_000_007nat);
            lemma_small_mod(717412916nat, 1_000_000_009nat);
            vstd::arithmetic::div_mod::lemma_fundamental_div_mod_converse_mod(
                1535345482,
                999_999_937,
                1,
                535345545,
            );
            assert(b0.val == HB0 && b1.val == HB1 && b2.val == HB2);
        }
        let n = s.len();
        let ghost sv = s@;

        let mut table: Vec<(ModInt, Mint<1_000_000_009>, Mint<999_999_937>)> = Vec::new();
        table.push((ModInt::new(0), Mint::new(0), Mint::new(0)));
        let mut t0 = ModInt::new(1);
        let mut t1 = Mint::<1_000_000_009>::new(1);
        let mut t2 = Mint::<999_999_937>::new(1);
        let mut val0 = ModInt::new(0);
        let mut val1 = Mint::<1_000_000_009>::new(0);
        let mut val2 = Mint::<999_999_937>::new(0);
        proof {
            lemma_pow0(HB0 as int);
            lemma_pow0(HB1 as int);
            lemma_pow0(HB2 as int);
        }
        let mut i: usize = 0;
        while i < n
            invariant
                i <= n == sv.len(),
                s@ == sv,
                b0.val == HB0 && b1.val == HB1 && b2.val == HB2,
                b0.wf() && b1.wf() && b2.wf(),
                t0.wf() && t0.val == pow(HB0 as int, i as nat) % (HM0 as int),
                t1.wf() && t1.val == pow(HB1 as int, i as nat) % (HM1 as int),
                t2.wf() && t2.val == pow(HB2 as int, i as nat) % (HM2 as int),
                val0.wf() && val0.val == poly_hash(sv, HB0 as int, HM0 as int, i as int),
                val1.wf() && val1.val == poly_hash(sv, HB1 as int, HM1 as int, i as int),
                val2.wf() && val2.val == poly_hash(sv, HB2 as int, HM2 as int, i as int),
                table@.len() == i + 1,
                forall|k: int|
                    0 <= k <= i ==> {
                        let e = #[trigger] table@[k];
                        &&& e.0.wf() && e.0.val == poly_hash(sv, HB0 as int, HM0 as int, k)
                        &&& e.1.wf() && e.1.val == poly_hash(sv, HB1 as int, HM1 as int, k)
                        &&& e.2.wf() && e.2.val == poly_hash(sv, HB2 as int, HM2 as int, k)
                    },
            decreases n - i,
        {
            let e = s[i];
            proof {
                lemma_small_mod(e as nat, 1_000_000_007nat);
                lemma_small_mod(e as nat, 1_000_000_009nat);
                lemma_small_mod(e as nat, 999_999_937nat);
                lemma_hash_step(sv, HB0 as int, HM0 as int, i as int, val0.val as int, t0.val as int);
                lemma_hash_step(sv, HB1 as int, HM1 as int, i as int, val1.val as int, t1.val as int);
                lemma_hash_step(sv, HB2 as int, HM2 as int, i as int, val2.val as int, t2.val as int);
                lemma_pow_step(HB0 as int, HM0 as int, i as int, t0.val as int);
                lemma_pow_step(HB1 as int, HM1 as int, i as int, t1.val as int);
                lemma_pow_step(HB2 as int, HM2 as int, i as int, t2.val as int);
            }
            val0 = val0.add(&ModInt::new(e as i64).mul(&t0));
            val1 = val1.add(&Mint::<1_000_000_009>::new(e as i64).mul(&t1));
            val2 = val2.add(&Mint::<999_999_937>::new(e as i64).mul(&t2));
            table.push((val0, val1, val2));
            t0 = t0.mul(&b0);
            t1 = t1.mul(&b1);
            t2 = t2.mul(&b2);
            i = i + 1;
        }

        proof {
            lemma_bases_coprime();
        }
        let b0_inv = b0.inv();
        let b1_inv = b1.inv();
        let b2_inv = b2.inv();
        let ghost iv0 = inv_spec(HB0 as int, HM0 as int);
        let ghost iv1 = inv_spec(HB1 as int, HM1 as int);
        let ghost iv2 = inv_spec(HB2 as int, HM2 as int);
        let mut powers: Vec<(ModInt, Mint<1_000_000_009>, Mint<999_999_937>)> = Vec::new();
        let mut p0 = ModInt::new(1);
        let mut p1 = Mint::<1_000_000_009>::new(1);
        let mut p2 = Mint::<999_999_937>::new(1);
        proof {
            lemma_pow0(iv0);
            lemma_pow0(iv1);
            lemma_pow0(iv2);
        }
        powers.push((p0, p1, p2));
        let mut i: usize = 0;
        while i < n
            invariant
                i <= n,
                b0_inv.wf() && b0_inv.val == iv0,
                b1_inv.wf() && b1_inv.val == iv1,
                b2_inv.wf() && b2_inv.val == iv2,
                iv0 == inv_spec(HB0 as int, HM0 as int),
                iv1 == inv_spec(HB1 as int, HM1 as int),
                iv2 == inv_spec(HB2 as int, HM2 as int),
                p0.wf() && p0.val == pow(iv0, i as nat) % (HM0 as int),
                p1.wf() && p1.val == pow(iv1, i as nat) % (HM1 as int),
                p2.wf() && p2.val == pow(iv2, i as nat) % (HM2 as int),
                powers@.len() == i + 1,
                forall|k: int|
                    0 <= k <= i ==> {
                        let e = #[trigger] powers@[k];
                        &&& e.0.wf() && e.0.val == pow(iv0, k as nat) % (HM0 as int)
                        &&& e.1.wf() && e.1.val == pow(iv1, k as nat) % (HM1 as int)
                        &&& e.2.wf() && e.2.val == pow(iv2, k as nat) % (HM2 as int)
                    },
            decreases n - i,
        {
            proof {
                lemma_pow_step(iv0, HM0 as int, i as int, p0.val as int);
                lemma_pow_step(iv1, HM1 as int, i as int, p1.val as int);
                lemma_pow_step(iv2, HM2 as int, i as int, p2.val as int);
            }
            p0 = p0.mul(&b0_inv);
            p1 = p1.mul(&b1_inv);
            p2 = p2.mul(&b2_inv);
            powers.push((p0, p1, p2));
            i = i + 1;
        }

        RolllingHash { b0, b1, b2, table, power_inv: powers, src: Ghost(sv) }
    }

    /// The triple hash of the byte range `[l, r)`.
    pub fn query(&self, l: usize, r: usize) -> (res: (ModInt, Mint<1_000_000_009>, Mint<
        999_999_937,
    >))
        requires
            self.wf(),
            l <= r <= self.bytes().len(),
        ensures
            res.0.val == range_hash(self.bytes(), HB0 as int, HM0 as int, l as int, r as int),
            res.1.val == range_hash(self.bytes(), HB1 as int, HM1 as int, l as int, r as int),
            res.2.val == range_hash(self.bytes(), HB2 as int, HM2 as int, l as int, r as int),
    {
        let lv = self.table[l];
        let rv = self.table[r];
        let inv = self.power_inv[l];
        let h0 = rv.0.sub(&lv.0).mul(&inv.0);
        let h1 = rv.1.sub(&lv.1).mul(&inv.1);
        let h2 = rv.2.sub(&lv.2).mul(&inv.2);
        (h0, h1, h2)
    }
}

} // verus!

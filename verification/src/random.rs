//! A deterministic xorshift generator and a swap-based shuffle driven by it.

use vstd::prelude::*;
use vstd::seq_lib::to_multiset_update;

verus! {

/// The xorshift state: five 32-bit words.
pub struct Random {
    x: i32,
    y: i32,
    z: i32,
    w: i32,
    t: i32,
}

/// One xorshift step: the next state given the current one.
pub open spec fn xorshift_step(x: i32, y: i32, z: i32, w: i32) -> (i32, i32, i32, i32, i32) {
    let t = x ^ (x << 11);
    let w2 = (w ^ (w >> 19)) ^ (t ^ (t >> 8));
    (y, z, w, w2, t)
}

impl Random {
    /// The full generator state.
    pub closed spec fn state(&self) -> (i32, i32, i32, i32, i32) {
        (self.x, self.y, self.z, self.w, self.t)
    }

    /// A generator with the fixed seed; the stream is a pure function of it.
    pub fn new() -> (r: Random)
        ensures
            r.state() == (400i32, 362436069i32, 521288629i32, 886751233i32, 1i32),
    {
        Random { x: 400, y: 362436069, z: 521288629, w: 886751233, t: 1 }
    }

    /// Advances the state one xorshift step and returns the new word with
    /// the sign bit cleared — never negative.
    pub fn next(&mut self) -> (r: i32)
        ensures
            ({
                let s = old(self).state();
                let n = xorshift_step(s.0, s.1, s.2, s.3);
                final(self).state() == n && r == (n.3 & 0x7fffffff) && r >= 0
            }),
    {
        self.t = self.x ^ (self.x << 11);
        self.x = self.y;
        self.y = self.z;
        self.z = self.w;
        self.w = (self.w ^ (self.w >> 19)) ^ (self.t ^ (self.t >> 8));
        let r = self.w & 0x7fffffff;
        proof {
            let w = self.w;
            assert(w & 0x7fffffff >= 0) by (bit_vector);
        }
        r
    }
}

/// Fisher-Yates shuffle driven by the generator: the result holds exactly
/// the same elements, as a multiset.
pub fn shuffle<T: Copy>(v: &mut Vec<T>, rnd: &mut Random)
    requires
        old(v)@.len() <= 0x7fff_ffff,
    ensures
        final(v)@.len() == old(v)@.len(),
        final(v)@.to_multiset() == old(v)@.to_multiset(),
{
    let mut i = v.len();
    while i > 1
        invariant
            i <= v@.len(),
            v@.len() <= 0x7fff_ffff,
            v@.len() == old(v)@.len(),
            v@.to_multiset() == old(v)@.to_multiset(),
        decreases i,
    {
        i = i - 1;
        let r = rnd.next();
        proof {
            assert(i + 1 <= 0x7fff_ffff);
            assert(0 <= (r as int) % (i as int + 1) < i as int + 1) by (nonlinear_arith)
                requires
                    0 <= r as int,
                    0 < i as int + 1,
            ;
        }
        let j = (r % (i as i32 + 1)) as usize;
        let a = v[i];
        let b = v[j];
        let ghost pre = v@;
        v.set(i, b);
        v.set(j, a);
        proof {
            broadcast use vstd::multiset::group_multiset_axioms;
            broadcast use vstd::seq_lib::group_to_multiset_ensures;

            if i != j {
                to_multiset_update(pre, i as int, b);
                to_multiset_update(pre.update(i as int, b), j as int, a);
                assert(pre.update(i as int, b)[j as int] == pre[j as int]);
                assert(pre.contains(a) && pre.contains(b));
                assert(pre.to_multiset().count(a) > 0 && pre.to_multiset().count(b) > 0);
                assert(v@.to_multiset() =~= pre.to_multiset());
            } else {
                assert(v@ =~= pre);
            }
        }
    }
}

} // verus!
